//! Movement queries on the map: which cells a unit can reach, the cheapest
//! way to each, the outline of the reachable region and the corner points of
//! a path.

use crate::coords::lemma_fewer_left;
use crate::coords::CoordMap;
use crate::coords::CoordSet;
use crate::cost::Cost;
use crate::explore::explored;
use crate::explore::lemma_finish;
use crate::explore::lemma_pass;
use crate::explore::lemma_reach;
use crate::explore::lemma_settle;
use crate::explore::lemma_start;
use crate::explore::price_via;
use crate::explore::Search;
use crate::frontier::DaState;
use crate::frontier::Frontier;
use crate::grid::adjacent;
use crate::grid::east_of;
use crate::grid::enterable;
use crate::grid::in_grid;
use crate::grid::kept;
use crate::grid::lemma_neighbors_enterable;
use crate::grid::lemma_neighbors_in_grid;
use crate::grid::neighbors_enterable;
use crate::grid::neighbors_in_grid;
use crate::grid::north_of;
use crate::grid::on_map;
use crate::grid::open_to_step;
use crate::grid::shaped;
use crate::grid::south_of;
use crate::grid::tile;
use crate::grid::west_of;
use crate::laws::is_walk;
use crate::laws::lemma_optimality;
use crate::laws::walk_halves;
use crate::outline::direction_toward;
use crate::outline::faces_outward;
use crate::outline::flag_of;
use crate::outline::lemma_listing_contains;
use crate::outline::lemma_listing_full;
use crate::outline::lemma_listing_open;
use crate::outline::lemma_listing_remove;
use crate::outline::lemma_none_shut;
use crate::outline::lemma_not_shut_yet;
use crate::outline::lemma_open_directions;
use crate::outline::lemma_shut_all;
use crate::outline::lemma_shut_step;
use crate::outline::listing;
use crate::outline::open_directions;
use crate::outline::shut_by;
use crate::outline::tagged_cells;
use crate::polyline::consolidated;
use crate::polyline::corners_before;
use crate::polyline::lemma_corners_nonempty;
use crate::routes::comes_to_rest;
use crate::routes::followed;
use crate::routes::lemma_followed_long;
use crate::routes::lemma_followed_next;
use crate::routes::lemma_followed_rest;
use crate::routes::lemma_followed_start;
use crate::routes::lemma_route_is_trail;
use crate::routes::route;
use crate::routes::settles;
use crate::routes::trail;
use crate::terrain::Terrain;
use vstd::multiset::Multiset;
use vstd::prelude::*;

verus! {

/// A cardinal direction on the map. North is towards row zero, west towards
/// column zero.
#[derive(Debug, PartialEq, Eq, Clone, Copy, Structural)]
pub enum Direction {
    N,
    S,
    E,
    W,
}

/// Whether `point` lies on a map of `max_w` columns and `max_h` rows.
pub fn is_point_valid(point: (u32, u32), max_w: u32, max_h: u32) -> (r: bool)
    ensures
        r == in_grid(point, max_w, max_h),
{
    point.0 < max_w && point.1 < max_h
}

/// The neighbours of `point` on the map, whatever their terrain, in the order
/// west, east, north, south.
pub fn valid_neighbor_coords(point: (u32, u32), max_w: u32, max_h: u32) -> (neighbors: Vec<
    (u32, u32),
>)
    ensures
        neighbors@ == neighbors_in_grid(point, max_w, max_h),
{
    let (point_x, point_y) = point;
    let mut neighbors: Vec<(u32, u32)> = Vec::new();
    if point_x >= 1 && is_point_valid((point_x - 1, point_y), max_w, max_h) {
        neighbors.push((point_x - 1, point_y));
    }
    let ghost t1 = kept(west_of(point), on_map(west_of(point), max_w, max_h));
    assert(neighbors@ =~= t1);
    if point_x < u32::MAX && is_point_valid((point_x + 1, point_y), max_w, max_h) {
        neighbors.push((point_x + 1, point_y));
    }
    let ghost t2 = t1 + kept(east_of(point), on_map(east_of(point), max_w, max_h));
    assert(neighbors@ =~= t2);
    if point_y >= 1 && is_point_valid((point_x, point_y - 1), max_w, max_h) {
        neighbors.push((point_x, point_y - 1));
    }
    let ghost t3 = t2 + kept(north_of(point), on_map(north_of(point), max_w, max_h));
    assert(neighbors@ =~= t3);
    if point_y < u32::MAX && is_point_valid((point_x, point_y + 1), max_w, max_h) {
        neighbors.push((point_x, point_y + 1));
    }
    let ghost t4 = t3 + kept(south_of(point), on_map(south_of(point), max_w, max_h));
    assert(neighbors@ =~= t4);
    neighbors
}

/// If `n` is a cell a unit may step onto, appends it to `neighbors` together
/// with the price of entering it.
fn push_if_enterable(
    neighbors: &mut Vec<((u32, u32), Cost)>,
    n: (u32, u32),
    terrain: &Vec<Vec<Terrain>>,
    max_w: u32,
    max_h: u32,
)
    requires
        shaped(terrain@, max_w, max_h),
    ensures
        final(neighbors)@.len() == old(neighbors)@.len() + (if enterable(
            terrain@,
            max_w,
            max_h,
            n,
        ) {
            1int
        } else {
            0int
        }),
        forall|i: int|
            0 <= i < old(neighbors)@.len() ==> final(neighbors)@[i] == old(neighbors)@[i],
        enterable(terrain@, max_w, max_h, n) ==> {
            let last = final(neighbors)@[old(neighbors)@.len() as int];
            &&& last.0 == n
            &&& last.1.wf()
            &&& last.1.halves() == tile(terrain@, n).entry_halves()
        },
{
    if is_point_valid(n, max_w, max_h) {
        let terr = &terrain[n.0 as usize][n.1 as usize];
        if terr.is_passable() {
            neighbors.push((n, terr.cost()));
        }
    }
}

/// The neighbours of `point` that a unit may step onto, each with the price
/// of entering it, in the order west, east, north, south.
pub fn neighbor_costs(
    point: (u32, u32),
    terrain: &Vec<Vec<Terrain>>,
    max_w: u32,
    max_h: u32,
) -> (neighbors: Vec<((u32, u32), Cost)>)
    requires
        shaped(terrain@, max_w, max_h),
    ensures
        neighbors@.len() == neighbors_enterable(terrain@, max_w, max_h, point).len(),
        forall|i: int|
            0 <= i < neighbors@.len() ==> {
                &&& (#[trigger] neighbors@[i]).0 == neighbors_enterable(
                    terrain@,
                    max_w,
                    max_h,
                    point,
                )[i]
                &&& neighbors@[i].1.wf()
                &&& neighbors@[i].1.halves() == tile(terrain@, neighbors@[i].0).entry_halves()
            },
{
    let (point_x, point_y) = point;
    let ghost priced = |s: Seq<((u32, u32), Cost)>, t: Seq<(u32, u32)>|
        {
            &&& s.len() == t.len()
            &&& forall|i: int|
                0 <= i < s.len() ==> {
                    &&& (#[trigger] s[i]).0 == t[i]
                    &&& s[i].1.wf()
                    &&& s[i].1.halves() == tile(terrain@, s[i].0).entry_halves()
                }
        };
    let mut neighbors: Vec<((u32, u32), Cost)> = Vec::new();
    if point_x >= 1 {
        push_if_enterable(&mut neighbors, (point_x - 1, point_y), terrain, max_w, max_h);
    }
    let ghost t1 = kept(west_of(point), open_to_step(west_of(point), terrain@, max_w, max_h));
    assert(priced(neighbors@, t1));
    if point_x < u32::MAX {
        push_if_enterable(&mut neighbors, (point_x + 1, point_y), terrain, max_w, max_h);
    }
    let ghost t2 = t1 + kept(east_of(point), open_to_step(east_of(point), terrain@, max_w, max_h));
    assert(priced(neighbors@, t2));
    if point_y >= 1 {
        push_if_enterable(&mut neighbors, (point_x, point_y - 1), terrain, max_w, max_h);
    }
    let ghost t3 = t2 + kept(
        north_of(point),
        open_to_step(north_of(point), terrain@, max_w, max_h),
    );
    assert(priced(neighbors@, t3));
    if point_y < u32::MAX {
        push_if_enterable(&mut neighbors, (point_x, point_y + 1), terrain, max_w, max_h);
    }
    let ghost t4 = t3 + kept(
        south_of(point),
        open_to_step(south_of(point), terrain@, max_w, max_h),
    );
    assert(priced(neighbors@, t4));
    assert(t4 == neighbors_enterable(terrain@, max_w, max_h, point));
    neighbors
}

/// The direction in which `to` lies as seen from `from`. The two cells must
/// be adjacent.
pub fn relative_adj_dir(from: (u32, u32), to: (u32, u32)) -> (d: Direction)
    requires
        adjacent(from, to),
    ensures
        d == direction_toward(from, to),
{
    if from.0 == to.0 {
        if to.1 < from.1 {
            Direction::N
        } else {
            Direction::S
        }
    } else if to.0 < from.0 {
        Direction::W
    } else {
        Direction::E
    }
}

/// The state of the search as the collections of the running exploration
/// hold it.
spec fn search(
    paths: Map<(u32, u32), (u32, u32)>,
    costs: Map<(u32, u32), Cost>,
    settled: Set<(u32, u32)>,
    fringe: Set<(u32, u32)>,
    frontier: Multiset<DaState>,
) -> Search {
    Search { paths, costs, settled, fringe, frontier }
}

/// Explores the map from `src` with a movement budget of `max_dist`, by
/// Dijkstra's algorithm: the cheapest waiting cell is settled next, and a
/// step is followed only while the price stays within the budget. Entering
/// an open tile costs one, entering sand five halves; walls are never
/// entered. The tile under `src` is not charged.
///
/// Returns, in this order: the back-pointer of each reachable cell (the
/// source points to itself), the price of each reachable cell, the boundary
/// (the reachable cells that no reachable cell points to) and the set of
/// reachable cells. All four are empty if `src` is off the map.
///
/// The outcome is the one that `explored` describes, and there is only one
/// such. In particular every reachable cell has a price within the budget,
/// no reachable cell but the source is a wall, the boundary is part of the
/// reachable set, no walk from the source reaches a cell for less than its
/// price, and every cell that a walk reaches within the budget is reachable.
pub fn compute_path_costs(
    src: (u32, u32),
    terrain: &Vec<Vec<Terrain>>,
    max_w: u32,
    max_h: u32,
    max_dist: u32,
) -> (found: (CoordMap<(u32, u32)>, CoordMap<Cost>, CoordSet, CoordSet))
    requires
        shaped(terrain@, max_w, max_h),
    ensures
        explored(
            terrain@,
            max_w,
            max_h,
            src,
            max_dist,
            found.0@,
            found.1@,
            found.2@,
            found.3@,
        ),
        forall|c: (u32, u32)| #[trigger]
            found.3@.contains(c) ==> found.1@.contains_key(c) && found.1@[c].halves() <= 2
                * max_dist,
        forall|c: (u32, u32)| #[trigger]
            found.3@.contains(c) && c != src ==> tile(terrain@, c) != Terrain::Wall,
        found.2@.subset_of(found.3@),
        forall|walk: Seq<(u32, u32)>|
            #![trigger walk_halves(terrain@, walk)]
            is_walk(terrain@, max_w, max_h, src, walk) && found.3@.contains(walk.last())
                ==> found.1@[walk.last()].halves() <= walk_halves(terrain@, walk),
        forall|walk: Seq<(u32, u32)>|
            #![trigger walk_halves(terrain@, walk)]
            is_walk(terrain@, max_w, max_h, src, walk) && walk_halves(terrain@, walk) <= 2
                * max_dist ==> found.3@.contains(walk.last()),
{
    let mut came_from: CoordMap<(u32, u32)> = CoordMap::new();
    let mut cost_so_far: CoordMap<Cost> = CoordMap::new();
    let mut max_boundary = CoordSet::new();
    let mut reachable_coords = CoordSet::new();
    if !is_point_valid(src, max_w, max_h) {
        return (came_from, cost_so_far, max_boundary, reachable_coords);
    }
    let zero = Cost::zero();
    let mut frontier = Frontier::new();
    frontier.push(DaState::new(zero, src));
    came_from.insert(src, src);
    let budget = Cost::from_integer(max_dist);
    cost_so_far.insert(src, zero);
    let ghost mut cur = src;
    let ghost mut listed = Seq::<(u32, u32)>::empty();
    proof {
        lemma_start(terrain@, max_w, max_h, src, max_dist, zero);
        assert(search(came_from@, cost_so_far@, reachable_coords@, max_boundary@, frontier@)
            == Search::start(src, zero));
    }
    while !frontier.is_empty()
        invariant
            shaped(terrain@, max_w, max_h),
            frontier.wf(),
            budget.wf(),
            budget.halves() == 2 * max_dist,
            search(came_from@, cost_so_far@, reachable_coords@, max_boundary@, frontier@).inv(
                terrain@,
                max_w,
                max_h,
                src,
                max_dist,
                cur,
                listed,
                listed.len() as int,
            ),
        decreases Set::<(u32, u32)>::full().difference(reachable_coords@).len(),
    {
        let ghost st = search(
            came_from@,
            cost_so_far@,
            reachable_coords@,
            max_boundary@,
            frontier@,
        );
        let current = frontier.pop().unwrap();
        proof {
            lemma_settle(terrain@, max_w, max_h, src, max_dist, st, cur, listed, current);
            lemma_fewer_left(reachable_coords@, current.pos);
        }
        let here = *cost_so_far.get(current.pos).unwrap();
        // An entry that has gone stale, because its cell was reached more
        // cheaply after it was queued, is passed over. The price of a step
        // depends on the entered tile alone, so the first price of a cell is
        // its cheapest, and the invariant shows that no entry ever is stale.
        if here.lt(&current.dist) {
            continue ;
        }
        // The cell is settled: it joins the boundary, and the cell it points
        // to leaves it.
        let parent = *came_from.get(current.pos).unwrap();
        max_boundary.remove(parent);
        max_boundary.insert(current.pos);
        reachable_coords.insert(current.pos);
        let neighbors = neighbor_costs(current.pos, terrain, max_w, max_h);
        proof {
            cur = current.pos;
            listed = neighbors_enterable(terrain@, max_w, max_h, cur);
            lemma_neighbors_enterable(terrain@, max_w, max_h, cur);
            assert(search(came_from@, cost_so_far@, reachable_coords@, max_boundary@, frontier@)
                == st.settle(current));
            assert forall|j: int| 0 <= j < listed.len() implies adjacent(cur, #[trigger] listed[j])
                && enterable(terrain@, max_w, max_h, listed[j]) by {
                assert(listed.contains(listed[j]));
            }
        }
        let ghost settled = reachable_coords@;
        let mut i: usize = 0;
        while i < neighbors.len()
            invariant
                shaped(terrain@, max_w, max_h),
                frontier.wf(),
                budget.wf(),
                budget.halves() == 2 * max_dist,
                reachable_coords@ == settled,
                settled.contains(cur),
                cur == current.pos,
                cost_so_far@.contains_key(cur),
                here == cost_so_far@[cur],
                i <= neighbors@.len(),
                neighbors@.len() == listed.len(),
                forall|j: int|
                    0 <= j < neighbors@.len() ==> {
                        &&& (#[trigger] neighbors@[j]).0 == listed[j]
                        &&& neighbors@[j].1.wf()
                        &&& neighbors@[j].1.halves() == tile(terrain@, listed[j]).entry_halves()
                    },
                forall|j: int|
                    0 <= j < listed.len() ==> adjacent(cur, #[trigger] listed[j]) && enterable(
                        terrain@,
                        max_w,
                        max_h,
                        listed[j],
                    ),
                search(came_from@, cost_so_far@, reachable_coords@, max_boundary@, frontier@).inv(
                    terrain@,
                    max_w,
                    max_h,
                    src,
                    max_dist,
                    cur,
                    listed,
                    i as int,
                ),
            decreases neighbors.len() - i,
        {
            let ghost now = search(
                came_from@,
                cost_so_far@,
                reachable_coords@,
                max_boundary@,
                frontier@,
            );
            let (neighbor_coord, cost) = neighbors[i];
            assert(neighbor_coord == listed[i as int]);
            assert(adjacent(cur, listed[i as int]));
            assert(tile(terrain@, neighbor_coord).entry_halves() <= 5);
            let new_cost = here.plus(cost);
            assert(new_cost.halves() == price_via(terrain@, now.costs, cur, neighbor_coord));
            let within = new_cost.le(&budget);
            let improves = match cost_so_far.get(neighbor_coord) {
                Some(known) => new_cost.lt(known),
                None => true,
            };
            if within && improves {
                proof {
                    if now.costs.contains_key(neighbor_coord) {
                        lemma_pass(
                            terrain@,
                            max_w,
                            max_h,
                            src,
                            max_dist,
                            now,
                            cur,
                            listed,
                            i as int,
                        );
                    }
                    lemma_reach(
                        terrain@,
                        max_w,
                        max_h,
                        src,
                        max_dist,
                        now,
                        cur,
                        listed,
                        i as int,
                        new_cost,
                    );
                }
                cost_so_far.insert(neighbor_coord, new_cost);
                frontier.push(DaState::new(new_cost, neighbor_coord));
                came_from.insert(neighbor_coord, current.pos);
                assert(search(
                    came_from@,
                    cost_so_far@,
                    reachable_coords@,
                    max_boundary@,
                    frontier@,
                ) == now.reach(cur, neighbor_coord, new_cost));
            } else {
                proof {
                    lemma_pass(terrain@, max_w, max_h, src, max_dist, now, cur, listed, i as int);
                }
            }
            i = i + 1;
        }
    }
    proof {
        lemma_finish(
            terrain@,
            max_w,
            max_h,
            src,
            max_dist,
            search(came_from@, cost_so_far@, reachable_coords@, max_boundary@, frontier@),
            cur,
            listed,
        );
        assert forall|walk: Seq<(u32, u32)>|
            #![trigger walk_halves(terrain@, walk)]
            is_walk(terrain@, max_w, max_h, src, walk) implies (reachable_coords@.contains(
            walk.last(),
        ) ==> cost_so_far@[walk.last()].halves() <= walk_halves(terrain@, walk)) && (walk_halves(
            terrain@,
            walk,
        ) <= 2 * max_dist ==> reachable_coords@.contains(walk.last())) by {
            lemma_optimality(
                terrain@,
                max_w,
                max_h,
                src,
                max_dist,
                came_from@,
                cost_so_far@,
                max_boundary@,
                reachable_coords@,
                walk,
            );
        }
    }
    (came_from, cost_so_far, max_boundary, reachable_coords)
}

/// Whether the chain of back-pointers from `dest` is finite, so that
/// `get_path` can read a path off it.
pub fn chain_ends(dest: (u32, u32), paths: &CoordMap<(u32, u32)>) -> (r: bool)
    ensures
        r == comes_to_rest(paths@, dest),
{
    let limit = paths.len();
    let mut cur = dest;
    let mut steps: usize = 0;
    proof {
        lemma_followed_start(paths@, dest);
    }
    loop
        invariant
            paths@.dom().finite(),
            limit == paths@.len(),
            steps <= limit,
            followed(paths@, dest, steps as nat, cur),
        decreases limit - steps,
    {
        let next = match paths.get(cur) {
            Some(p) => *p,
            None => {
                proof {
                    lemma_followed_rest(paths@, dest, steps as nat, cur);
                }
                return true;
            },
        };
        if next.0 == cur.0 && next.1 == cur.1 {
            proof {
                lemma_followed_rest(paths@, dest, steps as nat, cur);
            }
            return true;
        }
        if steps == limit {
            proof {
                lemma_followed_long(paths@, dest, steps as nat, cur);
            }
            return false;
        }
        proof {
            lemma_followed_next(paths@, dest, steps as nat, cur);
        }
        cur = next;
        steps = steps + 1;
    }
}

/// A copy of `v` in the opposite order.
fn reversed(v: &Vec<(u32, u32)>) -> (r: Vec<(u32, u32)>)
    ensures
        r@ == v@.reverse(),
{
    let mut r: Vec<(u32, u32)> = Vec::new();
    let mut i: usize = v.len();
    while i > 0
        invariant
            i <= v.len(),
            r@.len() == v.len() - i,
            forall|j: int| 0 <= j < r@.len() ==> r@[j] == v@[v.len() - 1 - j],
        decreases i,
    {
        i = i - 1;
        r.push(v[i]);
    }
    assert(r@ =~= v@.reverse());
    r
}

/// Reads the best path to `dest` off the map of back-pointers: the cells
/// from the source to `dest`, both included. A cell that points to itself is
/// a source. The path is empty if `paths` does not hold `dest`.
///
/// The chain of back-pointers from `dest` must be finite.
pub fn get_path(dest: (u32, u32), paths: &CoordMap<(u32, u32)>) -> (path: Vec<(u32, u32)>)
    requires
        comes_to_rest(paths@, dest),
    ensures
        path@ == route(paths@, dest),
{
    let ghost n0 = choose|n: nat| settles(paths@, dest, n);
    match paths.get(dest) {
        Some(p) => {
            if p.0 == dest.0 && p.1 == dest.1 {
                let mut path: Vec<(u32, u32)> = Vec::new();
                path.push(dest);
                assert(path@ =~= seq![dest]);
                return path;
            }
        },
        None => {},
    }
    let mut path: Vec<(u32, u32)> = Vec::new();
    let mut cur = dest;
    let ghost mut rem = n0;
    loop
        invariant
            settles(paths@, cur, rem),
            settles(paths@, dest, n0),
            trail(paths@, dest, n0) == trail(paths@, cur, rem) + path@.reverse(),
            path@.len() == 0 ==> cur == dest,
            path@.len() > 0 ==> paths@.contains_key(dest),
        ensures
            !paths@.contains_key(cur) || paths@[cur] == cur,
            settles(paths@, dest, n0),
            trail(paths@, dest, n0) == seq![cur] + path@.reverse(),
            path@.len() == 0 ==> cur == dest,
            path@.len() > 0 ==> paths@.contains_key(dest),
        decreases rem,
    {
        let next = match paths.get(cur) {
            Some(p) => *p,
            None => { break ; },
        };
        if next.0 == cur.0 && next.1 == cur.1 {
            break ;
        }
        proof {
            assert(trail(paths@, cur, rem) == trail(paths@, next, (rem - 1) as nat).push(cur));
            assert(path@.push(cur).reverse() =~= seq![cur] + path@.reverse());
            assert(trail(paths@, next, (rem - 1) as nat).push(cur) + path@.reverse() =~= trail(
                paths@,
                next,
                (rem - 1) as nat,
            ) + (seq![cur] + path@.reverse()));
            rem = (rem - 1) as nat;
        }
        path.push(cur);
        cur = next;
    }
    if path.len() > 0 {
        proof {
            assert(path@.push(cur).reverse() =~= seq![cur] + path@.reverse());
            lemma_route_is_trail(paths@, dest, n0);
        }
        path.push(cur);
        reversed(&path)
    } else {
        path
    }
}

/// Reduces a path to the end points of its straight segments, so that it can
/// be drawn as a polyline.
pub fn consolidate_path(path: Vec<(u32, u32)>) -> (consolidated_path: Vec<(u32, u32)>)
    ensures
        consolidated_path@ == consolidated(path@),
{
    if path.len() <= 1 {
        return path;
    }
    let mut consolidated_path: Vec<(u32, u32)> = Vec::new();
    consolidated_path.push(path[0]);
    let mut prev_horizontal = path[0].0 == path[1].0;
    let mut i: usize = 1;
    while i < path.len() - 1
        invariant
            path.len() >= 2,
            1 <= i <= path.len() - 1,
            consolidated_path@ == corners_before(path@, i as int),
            prev_horizontal == (path@[i as int].0 == path@[i - 1].0),
        decreases path.len() - i,
    {
        let (prev_x, prev_y) = path[i];
        let (step_x, _) = path[i + 1];
        let cur_horizontal = step_x == prev_x;
        if cur_horizontal != prev_horizontal {
            consolidated_path.push((prev_x, prev_y));
        }
        prev_horizontal = cur_horizontal;
        i = i + 1;
    }
    assert(consolidated_path@.len() >= 1) by {
        lemma_corners_nonempty(path@, i as int);
    }
    let kept_last = consolidated_path[consolidated_path.len() - 1];
    let path_last = path[path.len() - 1];
    if kept_last.0 != path_last.0 || kept_last.1 != path_last.1 {
        consolidated_path.push(path_last);
    }
    consolidated_path
}

/// Takes the first occurrence of `d` out of `directions`, if there is one.
fn remove_item(directions: &mut Vec<Direction>, d: Direction)
    ensures
        !old(directions)@.contains(d) ==> final(directions)@ == old(directions)@,
        old(directions)@.contains(d) ==> exists|i: int|
            {
                &&& 0 <= i < old(directions)@.len()
                &&& old(directions)@[i] == d
                &&& forall|j: int| 0 <= j < i ==> old(directions)@[j] != d
                &&& final(directions)@ == old(directions)@.remove(i)
            },
{
    let mut i: usize = 0;
    while i < directions.len()
        invariant
            i <= directions@.len(),
            directions@ == old(directions)@,
            forall|j: int| 0 <= j < i ==> directions@[j] != d,
        decreases directions.len() - i,
    {
        if directions[i] == d {
            directions.remove(i);
            return ;
        }
        i = i + 1;
    }
}

/// The directions in which the cell `c` faces out of the reachable region.
fn outward_directions(c: (u32, u32), reachable_coords: &CoordSet, max_w: u32, max_h: u32) -> (
    directions: Vec<Direction>
)
    ensures
        directions@ == open_directions(c, reachable_coords@, max_w, max_h),
{
    let mut directions: Vec<Direction> = Vec::new();
    directions.push(Direction::N);
    directions.push(Direction::S);
    directions.push(Direction::E);
    directions.push(Direction::W);
    let neighbors = valid_neighbor_coords(c, max_w, max_h);
    let ghost listed = neighbors_in_grid(c, max_w, max_h);
    let ghost reachable = reachable_coords@;
    proof {
        lemma_neighbors_in_grid(c, max_w, max_h);
        assert forall|j: int| 0 <= j < listed.len() implies adjacent(c, #[trigger] listed[j]) by {
            assert(listed.contains(listed[j]));
        }
        lemma_listing_full();
        lemma_none_shut(c, listed, reachable, Direction::N);
        lemma_none_shut(c, listed, reachable, Direction::S);
        lemma_none_shut(c, listed, reachable, Direction::E);
        lemma_none_shut(c, listed, reachable, Direction::W);
        assert(directions@ =~= seq![Direction::N, Direction::S, Direction::E, Direction::W]);
    }
    let mut i: usize = 0;
    while i < neighbors.len()
        invariant
            i <= neighbors@.len(),
            neighbors@ == listed,
            reachable == reachable_coords@,
            listed.no_duplicates(),
            forall|j: int| 0 <= j < listed.len() ==> adjacent(c, #[trigger] listed[j]),
            directions@ == listing(
                !shut_by(c, listed, reachable, Direction::N, i as int),
                !shut_by(c, listed, reachable, Direction::S, i as int),
                !shut_by(c, listed, reachable, Direction::E, i as int),
                !shut_by(c, listed, reachable, Direction::W, i as int),
            ),
        decreases neighbors.len() - i,
    {
        let neighbor = neighbors[i];
        let ghost before = directions@;
        let ghost toward = direction_toward(c, neighbor);
        let ghost n = !shut_by(c, listed, reachable, Direction::N, i as int);
        let ghost s = !shut_by(c, listed, reachable, Direction::S, i as int);
        let ghost e = !shut_by(c, listed, reachable, Direction::E, i as int);
        let ghost w = !shut_by(c, listed, reachable, Direction::W, i as int);
        proof {
            lemma_shut_step(c, listed, reachable, Direction::N, i as int);
            lemma_shut_step(c, listed, reachable, Direction::S, i as int);
            lemma_shut_step(c, listed, reachable, Direction::E, i as int);
            lemma_shut_step(c, listed, reachable, Direction::W, i as int);
            lemma_not_shut_yet(c, listed, reachable, i as int);
            assert(flag_of(toward, n, s, e, w));
        }
        if reachable_coords.contains(neighbor) {
            remove_item(&mut directions, relative_adj_dir(c, neighbor));
            proof {
                lemma_listing_contains(toward, n, s, e, w);
                let k = choose|k: int|
                    {
                        &&& 0 <= k < before.len()
                        &&& before[k] == toward
                        &&& forall|j: int| 0 <= j < k ==> before[j] != toward
                        &&& directions@ == before.remove(k)
                    };
                lemma_listing_remove(toward, n, s, e, w, k);
            }
        }
        i = i + 1;
    }
    proof {
        lemma_shut_all(c, reachable, max_w, max_h, Direction::N);
        lemma_shut_all(c, reachable, max_w, max_h, Direction::S);
        lemma_shut_all(c, reachable, max_w, max_h, Direction::E);
        lemma_shut_all(c, reachable, max_w, max_h, Direction::W);
        lemma_listing_open(c, reachable, max_w, max_h);
    }
    directions
}

/// Tags each cell of the boundary with the sides on which the outline of
/// the reachable region runs: the directions whose neighbour is off the map
/// or not reachable, in the order north, south, east, west. Every cell of
/// the boundary is listed once; the order of the cells is unspecified.
pub fn find_boundary_neighbor_directions(
    boundary: &CoordSet,
    reachable_coords: &CoordSet,
    max_w: u32,
    max_h: u32,
) -> (tagged: Vec<((u32, u32), Vec<Direction>)>)
    ensures
        tagged_cells(tagged@).no_duplicates(),
        tagged_cells(tagged@).to_set() == boundary@,
        forall|i: int|
            0 <= i < tagged@.len() ==> (#[trigger] tagged@[i]).1@ == open_directions(
                tagged@[i].0,
                reachable_coords@,
                max_w,
                max_h,
            ),
        forall|i: int, d: Direction|
            0 <= i < tagged@.len() ==> ((#[trigger] tagged@[i]).1@.contains(d)
                <==> #[trigger] faces_outward(tagged@[i].0, d, reachable_coords@, max_w, max_h)),
{
    let cells = boundary.to_vec();
    let mut tagged: Vec<((u32, u32), Vec<Direction>)> = Vec::new();
    let mut i: usize = 0;
    while i < cells.len()
        invariant
            i <= cells@.len(),
            tagged@.len() == i,
            forall|j: int| 0 <= j < i ==> (#[trigger] tagged@[j]).0 == cells@[j],
            forall|j: int|
                0 <= j < i ==> (#[trigger] tagged@[j]).1@ == open_directions(
                    tagged@[j].0,
                    reachable_coords@,
                    max_w,
                    max_h,
                ),
        decreases cells.len() - i,
    {
        let c = cells[i];
        let directions = outward_directions(c, reachable_coords, max_w, max_h);
        tagged.push((c, directions));
        i = i + 1;
    }
    assert(tagged_cells(tagged@) =~= cells@);
    assert forall|i: int, d: Direction| 0 <= i < tagged@.len() implies ((
    #[trigger] tagged@[i]).1@.contains(d) <==> #[trigger] faces_outward(
        tagged@[i].0,
        d,
        reachable_coords@,
        max_w,
        max_h,
    )) by {
        lemma_open_directions(tagged@[i].0, reachable_coords@, max_w, max_h, d);
    }
    tagged
}

} // verus!
