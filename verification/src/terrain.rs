//! Tile kinds of the terrain matrix.

use crate::cost::Cost;
use vstd::prelude::*;

verus! {

/// The kind of a single map tile.
#[derive(Debug, PartialEq, Eq, Clone, Copy, Structural)]
pub enum Terrain {
    /// Impassable.
    Wall,
    /// Passable at a cost of five halves.
    Sand,
    /// Passable at a cost of one.
    Open,
}

impl Terrain {
    /// Whether a unit may enter a tile of this kind.
    pub open spec fn passable(self) -> bool {
        self != Terrain::Wall
    }

    /// The price of entering a tile of this kind, counted in halves: `2` for
    /// an open tile, `5` for sand. A wall has no price; no contract asks for
    /// it.
    pub open spec fn entry_halves(self) -> int
        recommends
            self.passable(),
    {
        match self {
            Terrain::Open => 2,
            Terrain::Sand => 5,
            Terrain::Wall => 0,
        }
    }

    /// The price of entering a tile of this kind: one for an open tile, five
    /// halves for sand. A wall cannot be entered, so it has no price.
    pub fn cost(&self) -> (c: Cost)
        requires
            self.passable(),
        ensures
            c.wf(),
            c.halves() == self.entry_halves(),
    {
        match self {
            Terrain::Sand => Cost::five_halves(),
            _ => Cost::one(),
        }
    }

    /// Whether a unit may enter a tile of this kind.
    pub fn is_passable(&self) -> (r: bool)
        ensures
            r == self.passable(),
    {
        match self {
            Terrain::Wall => false,
            _ => true,
        }
    }
}

} // verus!
