//! Grid movement core of a turn-based tactics game: terrain, exact movement
//! costs, bounded shortest-path exploration and the path services built on it.

pub mod coords;
pub mod cost;
pub mod dataparser;
pub mod explore;
pub mod frontier;
pub mod grid;
pub mod laws;
pub mod layout;
pub mod outline;
pub mod pathfinding;
pub mod polyline;
pub mod routes;
pub mod terrain;
pub mod unit;
