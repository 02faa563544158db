//! A playable piece together with what an exploration from its place found.

use crate::coords::CoordMap;
use crate::coords::CoordSet;
use crate::cost::Cost;
use crate::explore::explored;
use crate::grid::shaped;
use crate::laws::lemma_path_validity;
use crate::routes::comes_to_rest;
use crate::pathfinding::compute_path_costs;
use crate::pathfinding::get_path;
use crate::routes::route;
use crate::routes::settles;
use crate::terrain::Terrain;
use vstd::prelude::*;

verus! {

/// A unit on the map: who it is, where it stands, how far it may move, and
/// the outcome of the exploration from where it stands.
#[derive(Debug)]
pub struct Unit {
    pub id: u32,
    pub movement_range: u32,
    pub location: (u32, u32),
    pub paths: CoordMap<(u32, u32)>,
    pub costs: CoordMap<Cost>,
    pub boundary: CoordSet,
    pub reachable_coords: CoordSet,
}

impl Unit {
    /// Whether what the unit holds is the outcome of exploring the map
    /// `terrain` from the unit's place with the unit's movement range.
    pub open spec fn in_step_with(&self, terrain: Seq<Vec<Terrain>>, w: u32, h: u32) -> bool {
        explored(
            terrain,
            w,
            h,
            self.location,
            self.movement_range,
            self.paths@,
            self.costs@,
            self.boundary@,
            self.reachable_coords@,
        )
    }

    /// The unit with the given identity, movement range and place, holding
    /// the given outcome of an exploration.
    pub fn new(
        id: u32,
        movement_range: u32,
        location: (u32, u32),
        paths: CoordMap<(u32, u32)>,
        costs: CoordMap<Cost>,
        boundary: CoordSet,
        reachable_coords: CoordSet,
    ) -> (unit: Self)
        ensures
            unit.id == id,
            unit.movement_range == movement_range,
            unit.location == location,
            unit.paths == paths,
            unit.costs == costs,
            unit.boundary == boundary,
            unit.reachable_coords == reachable_coords,
    {
        Unit { id, movement_range, location, paths, costs, boundary, reachable_coords }
    }

    /// The unit with the given identity, movement range and place on the map
    /// `terrain`, with the map explored from its place.
    pub fn create(
        id: u32,
        movement_range: u32,
        location: (u32, u32),
        terrain: &Vec<Vec<Terrain>>,
        max_w: u32,
        max_h: u32,
    ) -> (unit: Self)
        requires
            shaped(terrain@, max_w, max_h),
        ensures
            unit.id == id,
            unit.movement_range == movement_range,
            unit.location == location,
            unit.in_step_with(terrain@, max_w, max_h),
    {
        let (paths, costs, boundary, reachable_coords) = compute_path_costs(
            location,
            terrain,
            max_w,
            max_h,
            movement_range,
        );
        Unit::new(id, movement_range, location, paths, costs, boundary, reachable_coords)
    }

    /// Explores the map anew from the unit's place, after the map has
    /// changed.
    pub fn on_terrain_changed(&mut self, terrain: &Vec<Vec<Terrain>>, max_w: u32, max_h: u32)
        requires
            shaped(terrain@, max_w, max_h),
        ensures
            final(self).id == old(self).id,
            final(self).movement_range == old(self).movement_range,
            final(self).location == old(self).location,
            final(self).in_step_with(terrain@, max_w, max_h),
    {
        let (paths, costs, boundary, reachable_coords) = compute_path_costs(
            self.location,
            terrain,
            max_w,
            max_h,
            self.movement_range,
        );
        self.paths = paths;
        self.costs = costs;
        self.boundary = boundary;
        self.reachable_coords = reachable_coords;
    }

    /// Moves the unit to `location` and explores the map from there.
    pub fn relocate(
        &mut self,
        location: (u32, u32),
        terrain: &Vec<Vec<Terrain>>,
        max_w: u32,
        max_h: u32,
    )
        requires
            shaped(terrain@, max_w, max_h),
        ensures
            final(self).id == old(self).id,
            final(self).movement_range == old(self).movement_range,
            final(self).location == location,
            final(self).in_step_with(terrain@, max_w, max_h),
    {
        self.location = location;
        self.on_terrain_changed(terrain, max_w, max_h);
    }

    /// Gives the unit the movement range `movement_range` and explores the
    /// map with it.
    pub fn set_budget(
        &mut self,
        movement_range: u32,
        terrain: &Vec<Vec<Terrain>>,
        max_w: u32,
        max_h: u32,
    )
        requires
            shaped(terrain@, max_w, max_h),
        ensures
            final(self).id == old(self).id,
            final(self).movement_range == movement_range,
            final(self).location == old(self).location,
            final(self).in_step_with(terrain@, max_w, max_h),
    {
        self.movement_range = movement_range;
        self.on_terrain_changed(terrain, max_w, max_h);
    }

    /// The cells that the unit can reach.
    pub fn reachable(&self) -> (cells: &CoordSet)
        ensures
            cells == self.reachable_coords,
    {
        &self.reachable_coords
    }

    /// The price of moving the unit to `c`, if it can reach `c`.
    pub fn cost_to(&self, c: (u32, u32)) -> (price: Option<Cost>)
        ensures
            price == (if self.costs@.contains_key(c) {
                Some(self.costs@[c])
            } else {
                None
            }),
    {
        match self.costs.get(c) {
            Some(price) => Some(*price),
            None => None,
        }
    }

    /// The cheapest path of the unit to `c`, from its place to `c`; empty if
    /// it cannot reach `c`. The back-pointers that the unit holds must lead
    /// from `c` to a rest, as those of an exploration do.
    pub fn path_to(&self, c: (u32, u32)) -> (path: Vec<(u32, u32)>)
        requires
            comes_to_rest(self.paths@, c),
        ensures
            path@ == route(self.paths@, c),
    {
        get_path(c, &self.paths)
    }

    /// The back-pointers of a unit that is in step with a map lead from
    /// every cell to a rest.
    pub proof fn lemma_paths_rest(&self, terrain: Seq<Vec<Terrain>>, w: u32, h: u32, c: (u32, u32))
        requires
            self.in_step_with(terrain, w, h),
        ensures
            comes_to_rest(self.paths@, c),
    {
        if self.paths@.contains_key(c) {
            if self.costs@.contains_key(c) {
                lemma_path_validity(
                    terrain,
                    w,
                    h,
                    self.location,
                    self.movement_range,
                    self.paths@,
                    self.costs@,
                    self.boundary@,
                    self.reachable_coords@,
                    c,
                );
            }
        } else {
            assert(settles(self.paths@, c, 0));
        }
    }
}

} // verus!
