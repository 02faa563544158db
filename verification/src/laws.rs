//! What holds of every exploration: its paths are walks at the stated price,
//! no walk is cheaper, and the outcome is determined by the map, the source
//! and the budget.

use crate::cost::Cost;
use crate::explore::explored;
use crate::explore::has_child;
use crate::explore::price_via;
use crate::frontier::lemma_pops_before_order;
use crate::grid::adjacent;
use crate::grid::enterable;
use crate::grid::in_grid;
use crate::grid::tile;
use crate::routes::comes_to_rest;
use crate::polyline::consolidated;
use crate::routes::lemma_route_is_trail;
use crate::routes::lemma_trail_settled;
use crate::routes::route;
use crate::routes::settles;
use crate::routes::trail;
use crate::polyline::keeps_on;
use crate::polyline::lattice_path;
use crate::polyline::lemma_consolidate_round_trip;
use crate::polyline::steps_on;
use crate::polyline::unfolded;
use crate::terrain::Terrain;
use vstd::prelude::*;

verus! {

/// Whether `p` is a walk on the map that starts at `src`: each step leads to
/// an adjacent cell that a unit may enter.
pub open spec fn is_walk(
    terrain: Seq<Vec<Terrain>>,
    w: u32,
    h: u32,
    src: (u32, u32),
    p: Seq<(u32, u32)>,
) -> bool {
    &&& p.len() >= 1
    &&& p[0] == src
    &&& in_grid(src, w, h)
    &&& forall|i: int|
        1 <= i < p.len() ==> adjacent(p[i - 1], #[trigger] p[i]) && enterable(terrain, w, h, p[i])
}

/// The price of the walk `p` in halves: the sum of the prices of the tiles it
/// enters. The tile it starts on is not charged.
pub open spec fn walk_halves(terrain: Seq<Vec<Terrain>>, p: Seq<(u32, u32)>) -> int
    decreases p.len(),
{
    if p.len() <= 1 {
        0
    } else {
        walk_halves(terrain, p.drop_last()) + tile(terrain, p.last()).entry_halves()
    }
}

/// A chain that comes to rest within `n` steps comes to rest within more.
pub proof fn lemma_settles_later(
    paths: Map<(u32, u32), (u32, u32)>,
    c: (u32, u32),
    n: nat,
    m: nat,
)
    requires
        settles(paths, c, n),
        n <= m,
    ensures
        settles(paths, c, m),
    decreases n,
{
    if !paths.contains_key(c) || paths[c] == c {
    } else {
        lemma_settles_later(paths, paths[c], (n - 1) as nat, (m - 1) as nat);
    }
}

/// The chain of back-pointers from a reachable cell comes to rest within as
/// many steps as the cell's price has halves, and its trail is a walk from
/// the source to the cell at that price.
proof fn lemma_trail_is_walk(
    terrain: Seq<Vec<Terrain>>,
    w: u32,
    h: u32,
    src: (u32, u32),
    budget: u32,
    paths: Map<(u32, u32), (u32, u32)>,
    costs: Map<(u32, u32), Cost>,
    boundary: Set<(u32, u32)>,
    reachable: Set<(u32, u32)>,
    c: (u32, u32),
    n: nat,
)
    requires
        in_grid(src, w, h),
        explored(terrain, w, h, src, budget, paths, costs, boundary, reachable),
        reachable.contains(c),
        n == costs[c].halves(),
    ensures
        settles(paths, c, n),
        is_walk(terrain, w, h, src, trail(paths, c, n)),
        trail(paths, c, n).last() == c,
        walk_halves(terrain, trail(paths, c, n)) == costs[c].halves(),
        forall|i: int|
            0 <= i < trail(paths, c, n).len() ==> reachable.contains(
                #[trigger] trail(paths, c, n)[i],
            ),
        forall|i: int|
            1 <= i < trail(paths, c, n).len() ==> costs[trail(paths, c, n)[i - 1]].halves()
                < #[trigger] costs[trail(paths, c, n)[i]].halves(),
    decreases n,
{
    assert(paths.contains_key(c));
    if c == src {
        assert(trail(paths, c, n) =~= seq![c]);
    } else {
        let p = paths[c];
        assert(reachable.contains(p));
        assert(tile(terrain, c).entry_halves() >= 2);
        let m = costs[p].halves() as nat;
        lemma_trail_is_walk(terrain, w, h, src, budget, paths, costs, boundary, reachable, p, m);
        lemma_settles_later(paths, p, m, (n - 1) as nat);
        lemma_trail_settled(paths, p, m, (n - 1) as nat);
        let before = trail(paths, p, (n - 1) as nat);
        let whole = trail(paths, c, n);
        assert(whole == before.push(c));
        assert(whole.drop_last() =~= before);
        assert forall|i: int| 1 <= i < whole.len() implies adjacent(
            whole[i - 1],
            #[trigger] whole[i],
        ) && enterable(terrain, w, h, whole[i]) by {
            if i < before.len() {
                assert(whole[i] == before[i]);
                assert(whole[i - 1] == before[i - 1]);
            }
        }
        assert forall|i: int| 0 <= i < whole.len() implies reachable.contains(
            #[trigger] whole[i],
        ) by {
            if i < before.len() {
                assert(whole[i] == before[i]);
            }
        }
        assert forall|i: int| 1 <= i < whole.len() implies costs[whole[i - 1]].halves()
            < #[trigger] costs[whole[i]].halves() by {
            if i < before.len() {
                assert(whole[i] == before[i]);
                assert(whole[i - 1] == before[i - 1]);
                assert(costs[before[i - 1]].halves() < costs[before[i]].halves());
            } else {
                assert(whole[i - 1] == before.last());
            }
        }
    }
}

/// Path validity: the path read off the back-pointers for a reachable cell
/// is a walk from the source to that cell, and the prices of the tiles it
/// enters add up to the price of the cell.
pub proof fn lemma_path_validity(
    terrain: Seq<Vec<Terrain>>,
    w: u32,
    h: u32,
    src: (u32, u32),
    budget: u32,
    paths: Map<(u32, u32), (u32, u32)>,
    costs: Map<(u32, u32), Cost>,
    boundary: Set<(u32, u32)>,
    reachable: Set<(u32, u32)>,
    c: (u32, u32),
)
    requires
        explored(terrain, w, h, src, budget, paths, costs, boundary, reachable),
        costs.contains_key(c),
    ensures
        comes_to_rest(paths, c),
        is_walk(terrain, w, h, src, route(paths, c)),
        route(paths, c).last() == c,
        walk_halves(terrain, route(paths, c)) == costs[c].halves(),
{
    assert(in_grid(src, w, h));
    assert(reachable.contains(c));
    let n = costs[c].halves() as nat;
    lemma_trail_is_walk(terrain, w, h, src, budget, paths, costs, boundary, reachable, c, n);
    assert(paths.contains_key(c));
    lemma_route_is_trail(paths, c, n);
}

/// Round trip: the consolidated path to a reachable cell begins with the
/// source and ends with the cell, and unfolding its segments gives back the
/// path itself, cell by cell.
pub proof fn lemma_route_round_trip(
    terrain: Seq<Vec<Terrain>>,
    w: u32,
    h: u32,
    src: (u32, u32),
    budget: u32,
    paths: Map<(u32, u32), (u32, u32)>,
    costs: Map<(u32, u32), Cost>,
    boundary: Set<(u32, u32)>,
    reachable: Set<(u32, u32)>,
    c: (u32, u32),
)
    requires
        explored(terrain, w, h, src, budget, paths, costs, boundary, reachable),
        costs.contains_key(c),
    ensures
        lattice_path(route(paths, c)),
        consolidated(route(paths, c)).len() >= 1,
        consolidated(route(paths, c))[0] == src,
        consolidated(route(paths, c)).last() == c,
        unfolded(consolidated(route(paths, c))) == route(paths, c),
{
    assert(in_grid(src, w, h));
    assert(reachable.contains(c));
    let n = costs[c].halves() as nat;
    lemma_trail_is_walk(terrain, w, h, src, budget, paths, costs, boundary, reachable, c, n);
    assert(paths.contains_key(c));
    lemma_route_is_trail(paths, c, n);
    let r = route(paths, c);
    assert forall|j: int| 1 <= j < r.len() implies #[trigger] steps_on(r, j) by {
        assert(adjacent(r[j - 1], r[j]));
    }
    assert forall|j: int| 1 <= j < r.len() - 1 implies #[trigger] keeps_on(r, j) by {
        assert(costs[r[j - 1]].halves() < costs[r[j]].halves());
        assert(costs[r[j + 1 - 1]].halves() < costs[r[j + 1]].halves());
    }
    lemma_consolidate_round_trip(r);
}

/// The price of a walk is never negative.
pub proof fn lemma_walk_halves_bounds(
    terrain: Seq<Vec<Terrain>>,
    w: u32,
    h: u32,
    src: (u32, u32),
    p: Seq<(u32, u32)>,
)
    requires
        is_walk(terrain, w, h, src, p),
    ensures
        walk_halves(terrain, p) >= 0,
        p.len() >= 2 ==> is_walk(terrain, w, h, src, p.drop_last()) && walk_halves(
            terrain,
            p.drop_last(),
        ) <= walk_halves(terrain, p),
    decreases p.len(),
{
    if p.len() >= 2 {
        let q = p.drop_last();
        assert forall|i: int| 1 <= i < q.len() implies adjacent(q[i - 1], #[trigger] q[i])
            && enterable(terrain, w, h, q[i]) by {
            assert(q[i] == p[i]);
            assert(q[i - 1] == p[i - 1]);
        }
        lemma_walk_halves_bounds(terrain, w, h, src, q);
        assert(enterable(terrain, w, h, p[p.len() - 1]));
    }
}

/// Optimality: no walk from the source reaches a cell for less than the
/// price that the exploration gives it, and every cell that some walk
/// reaches within the budget is reachable.
pub proof fn lemma_optimality(
    terrain: Seq<Vec<Terrain>>,
    w: u32,
    h: u32,
    src: (u32, u32),
    budget: u32,
    paths: Map<(u32, u32), (u32, u32)>,
    costs: Map<(u32, u32), Cost>,
    boundary: Set<(u32, u32)>,
    reachable: Set<(u32, u32)>,
    p: Seq<(u32, u32)>,
)
    requires
        explored(terrain, w, h, src, budget, paths, costs, boundary, reachable),
        is_walk(terrain, w, h, src, p),
    ensures
        walk_halves(terrain, p) <= 2 * budget ==> reachable.contains(p.last()),
        reachable.contains(p.last()) ==> costs[p.last()].halves() <= walk_halves(terrain, p),
    decreases p.len(),
{
    if p.len() >= 2 {
        let q = p.drop_last();
        lemma_walk_halves_bounds(terrain, w, h, src, p);
        lemma_optimality(terrain, w, h, src, budget, paths, costs, boundary, reachable, q);
        let c = q.last();
        let d = p.last();
        assert(c == p[p.len() - 2]);
        assert(adjacent(p[p.len() - 1 - 1], p[p.len() - 1]));
        assert(enterable(terrain, w, h, d));
        if walk_halves(terrain, p) <= 2 * budget {
            assert(reachable.contains(c) && adjacent(c, d));
            assert(price_via(terrain, costs, c, d) <= walk_halves(terrain, p));
        } else if reachable.contains(d) {
            assert(costs[d].halves() <= 2 * budget);
        }
    }
}

/// Determinism: the map, the source and the budget determine the outcome of
/// an exploration. Any two outcomes are the same four collections.
pub proof fn lemma_exploration_unique(
    terrain: Seq<Vec<Terrain>>,
    w: u32,
    h: u32,
    src: (u32, u32),
    budget: u32,
    paths1: Map<(u32, u32), (u32, u32)>,
    costs1: Map<(u32, u32), Cost>,
    boundary1: Set<(u32, u32)>,
    reachable1: Set<(u32, u32)>,
    paths2: Map<(u32, u32), (u32, u32)>,
    costs2: Map<(u32, u32), Cost>,
    boundary2: Set<(u32, u32)>,
    reachable2: Set<(u32, u32)>,
)
    requires
        explored(terrain, w, h, src, budget, paths1, costs1, boundary1, reachable1),
        explored(terrain, w, h, src, budget, paths2, costs2, boundary2, reachable2),
    ensures
        paths1 == paths2,
        costs1 == costs2,
        boundary1 == boundary2,
        reachable1 == reachable2,
{
    if in_grid(src, w, h) {
        assert forall|c: (u32, u32)| reachable1.contains(c) implies reachable2.contains(c)
            && costs2[c].halves() <= costs1[c].halves() by {
            lemma_path_validity(
                terrain,
                w,
                h,
                src,
                budget,
                paths1,
                costs1,
                boundary1,
                reachable1,
                c,
            );
            lemma_optimality(
                terrain,
                w,
                h,
                src,
                budget,
                paths2,
                costs2,
                boundary2,
                reachable2,
                route(paths1, c),
            );
        }
        assert forall|c: (u32, u32)| reachable2.contains(c) implies reachable1.contains(c)
            && costs1[c].halves() <= costs2[c].halves() by {
            lemma_path_validity(
                terrain,
                w,
                h,
                src,
                budget,
                paths2,
                costs2,
                boundary2,
                reachable2,
                c,
            );
            lemma_optimality(
                terrain,
                w,
                h,
                src,
                budget,
                paths1,
                costs1,
                boundary1,
                reachable1,
                route(paths2, c),
            );
        }
        assert(reachable1 =~= reachable2);
        assert forall|c: (u32, u32)| reachable1.contains(c) implies costs1[c] == costs2[c] by {
            costs1[c].lemma_halves_injective(costs2[c]);
        }
        assert(costs1 =~= costs2);
        assert forall|c: (u32, u32)| reachable1.contains(c) implies paths1[c] == paths2[c] by {
            if c != src {
                let a = paths1[c];
                let b = paths2[c];
                assert(reachable1.contains(c) && adjacent(b, c));
                assert(reachable2.contains(c) && adjacent(a, c));
                lemma_pops_before_order(
                    costs1[a].halves(),
                    a,
                    costs1[b].halves(),
                    b,
                    costs1[b].halves(),
                    b,
                );
            }
        }
        assert(paths1 =~= paths2);
        assert(boundary1 =~= boundary2);
    }
}

/// Budget bound, walls and boundary: every reachable cell has a price
/// within the budget; no reachable cell but the source is a wall; every
/// cell of the boundary is reachable.
pub proof fn lemma_reachable_cells(
    terrain: Seq<Vec<Terrain>>,
    w: u32,
    h: u32,
    src: (u32, u32),
    budget: u32,
    paths: Map<(u32, u32), (u32, u32)>,
    costs: Map<(u32, u32), Cost>,
    boundary: Set<(u32, u32)>,
    reachable: Set<(u32, u32)>,
    c: (u32, u32),
)
    requires
        explored(terrain, w, h, src, budget, paths, costs, boundary, reachable),
    ensures
        reachable.contains(c) ==> costs.contains_key(c) && costs[c].halves() <= 2 * budget,
        reachable.contains(c) && c != src ==> tile(terrain, c) != Terrain::Wall,
        boundary.contains(c) ==> reachable.contains(c),
        boundary.subset_of(reachable),
        in_grid(src, w, h) ==> reachable.contains(src) && costs[src].halves() == 0,
{
}

} // verus!
