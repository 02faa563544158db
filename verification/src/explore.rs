//! What a finished exploration of the map is, and the invariant that the
//! search keeps while it is under way.
//!
//! All prices are counted in halves, so a budget of `b` allows `2 * b`
//! halves.

use crate::cost::Cost;
use crate::frontier::pops_before;
use crate::frontier::DaState;
use crate::grid::adjacent;
use crate::grid::enterable;
use crate::grid::in_grid;
use crate::grid::lemma_neighbors_enterable;
use crate::grid::neighbors_enterable;
use crate::grid::tile;
use crate::terrain::Terrain;
use vstd::multiset::Multiset;
use vstd::prelude::*;

verus! {

/// Whether some reachable cell other than the source has `s` as its
/// back-pointer.
pub open spec fn has_child(
    paths: Map<(u32, u32), (u32, u32)>,
    reachable: Set<(u32, u32)>,
    src: (u32, u32),
    s: (u32, u32),
) -> bool {
    exists|d: (u32, u32)| reachable.contains(d) && d != src && #[trigger] paths[d] == s
}

/// The price, in halves, of stepping from the reachable cell `c` onto `d`.
pub open spec fn price_via(
    terrain: Seq<Vec<Terrain>>,
    costs: Map<(u32, u32), Cost>,
    c: (u32, u32),
    d: (u32, u32),
) -> int {
    costs[c].halves() + tile(terrain, d).entry_halves()
}

/// Whether the four collections are the outcome of exploring the map from
/// `src` with a movement budget of `budget`.
///
/// If `src` is off the map, all four are empty. Otherwise:
/// - the reachable cells are those that have a price, and those that have a
///   back-pointer;
/// - the source is reachable at price zero and points to itself;
/// - every reachable cell is on the map, at a price within the budget;
/// - every other reachable cell can be entered, and points to an adjacent
///   reachable cell from which one step gives exactly its price;
/// - a step from a reachable cell that stays within the budget leads to a
///   reachable cell whose price is no higher than that of the step;
/// - the back-pointer of a cell is, of its reachable neighbours, the one that
///   leaves the frontier first: the cheapest, and of equally cheap ones the
///   one with the greater pair `(x, y)`;
/// - the boundary holds the reachable cells that no other reachable cell
///   points to.
pub open spec fn explored(
    terrain: Seq<Vec<Terrain>>,
    w: u32,
    h: u32,
    src: (u32, u32),
    budget: u32,
    paths: Map<(u32, u32), (u32, u32)>,
    costs: Map<(u32, u32), Cost>,
    boundary: Set<(u32, u32)>,
    reachable: Set<(u32, u32)>,
) -> bool {
    if !in_grid(src, w, h) {
        &&& paths == Map::<(u32, u32), (u32, u32)>::empty()
        &&& costs == Map::<(u32, u32), Cost>::empty()
        &&& boundary == Set::<(u32, u32)>::empty()
        &&& reachable == Set::<(u32, u32)>::empty()
    } else {
        &&& paths.dom() == reachable
        &&& costs.dom() == reachable
        &&& reachable.contains(src)
        &&& paths[src] == src
        &&& costs[src].halves() == 0
        &&& forall|c: (u32, u32)| #[trigger]
            reachable.contains(c) ==> in_grid(c, w, h) && costs[c].wf() && 0 <= costs[c].halves()
                <= 2 * budget
        &&& forall|c: (u32, u32)| #[trigger]
            reachable.contains(c) && c != src ==> {
                &&& reachable.contains(paths[c])
                &&& adjacent(paths[c], c)
                &&& tile(terrain, c).passable()
                &&& costs[c].halves() == price_via(terrain, costs, paths[c], c)
            }
        &&& forall|c: (u32, u32), d: (u32, u32)|
            #![trigger reachable.contains(c), adjacent(c, d)]
            reachable.contains(c) && adjacent(c, d) && enterable(terrain, w, h, d) && price_via(
                terrain,
                costs,
                c,
                d,
            ) <= 2 * budget ==> reachable.contains(d) && costs[d].halves() <= price_via(
                terrain,
                costs,
                c,
                d,
            )
        &&& forall|c: (u32, u32), q: (u32, u32)|
            #![trigger reachable.contains(c), adjacent(q, c)]
            reachable.contains(c) && c != src && reachable.contains(q) && adjacent(q, c)
                ==> !pops_before(costs[q].halves(), q, costs[paths[c]].halves(), paths[c])
        &&& forall|s: (u32, u32)| #[trigger]
            boundary.contains(s) <==> reachable.contains(s) && !has_child(paths, reachable, src, s)
    }
}

/// The state of a search under way.
pub struct Search {
    /// The back-pointer of each cell that has been reached.
    pub paths: Map<(u32, u32), (u32, u32)>,
    /// The price of each cell that has been reached.
    pub costs: Map<(u32, u32), Cost>,
    /// The cells that have left the frontier.
    pub settled: Set<(u32, u32)>,
    /// The settled cells that no settled cell points to.
    pub fringe: Set<(u32, u32)>,
    /// The entries that wait to be expanded.
    pub frontier: Multiset<DaState>,
}

/// Whether `d` is one of the listed neighbours from index `from` on: those
/// that the expansion of a cell has not looked at yet.
pub open spec fn ahead(listed: Seq<(u32, u32)>, from: int, d: (u32, u32)) -> bool {
    exists|j: int| from <= j < listed.len() && #[trigger] listed[j] == d
}

impl Search {
    /// The entry with which the reached cell `c` waits in the frontier.
    pub open spec fn entry(self, c: (u32, u32)) -> DaState {
        DaState { dist: self.costs[c], pos: c }
    }

    /// Whether the entry of the reached cell `a` leaves the frontier before
    /// that of `b`.
    pub open spec fn before(self, a: (u32, u32), b: (u32, u32)) -> bool {
        pops_before(self.costs[a].halves(), a, self.costs[b].halves(), b)
    }

    /// The source is reached at price zero and points to itself; prices and
    /// back-pointers are known of the same cells, which include the settled.
    pub open spec fn rooted(self, src: (u32, u32)) -> bool {
        &&& self.paths.dom() == self.costs.dom()
        &&& self.costs.contains_key(src)
        &&& self.paths[src] == src
        &&& self.costs[src].halves() == 0
        &&& forall|c: (u32, u32)| #[trigger] self.settled.contains(c) ==> self.costs.contains_key(c)
    }

    /// Every reached cell is on the map, at a price within the budget.
    pub open spec fn priced(self, w: u32, h: u32, budget: u32) -> bool {
        forall|c: (u32, u32)| #[trigger]
            self.costs.contains_key(c) ==> in_grid(c, w, h) && self.costs[c].wf() && 0
                <= self.costs[c].halves() <= 2 * budget
    }

    /// Every reached cell but the source can be entered, and points to an
    /// adjacent settled cell from which one step gives exactly its price.
    pub open spec fn linked(self, terrain: Seq<Vec<Terrain>>, src: (u32, u32)) -> bool {
        forall|c: (u32, u32)| #[trigger]
            self.costs.contains_key(c) && c != src ==> {
                &&& self.settled.contains(self.paths[c])
                &&& adjacent(self.paths[c], c)
                &&& tile(terrain, c).passable()
                &&& self.costs[c].halves() == price_via(terrain, self.costs, self.paths[c], c)
            }
    }

    /// The frontier holds one entry for each reached cell that is not
    /// settled, at its price, and nothing else.
    pub open spec fn queued(self) -> bool {
        &&& forall|c: (u32, u32)| #[trigger]
            self.costs.contains_key(c) && !self.settled.contains(c) ==> self.frontier.contains(
                self.entry(c),
            )
        &&& forall|e: DaState| #[trigger]
            self.frontier.contains(e) ==> {
                &&& self.costs.contains_key(e.pos)
                &&& e == self.entry(e.pos)
                &&& !self.settled.contains(e.pos)
                &&& self.frontier.count(e) == 1
            }
    }

    /// Every settled cell but `cur` left the frontier before `cur` did, and
    /// every settled cell leaves before any entry that still waits.
    pub open spec fn ordered(self, cur: (u32, u32)) -> bool {
        &&& forall|s: (u32, u32)| #[trigger]
            self.settled.contains(s) ==> s == cur || self.before(s, cur)
        &&& forall|s: (u32, u32), e: DaState|
            #![trigger self.settled.contains(s), self.frontier.contains(e)]
            self.settled.contains(s) && self.frontier.contains(e) ==> pops_before(
                self.costs[s].halves(),
                s,
                e.dist.halves(),
                e.pos,
            )
    }

    /// A step from a settled cell that stays within the budget leads to a
    /// reached cell whose price is no higher than that of the step; the
    /// steps from `cur` to the neighbours still ahead are excepted.
    pub open spec fn relaxed(
        self,
        terrain: Seq<Vec<Terrain>>,
        w: u32,
        h: u32,
        budget: u32,
        cur: (u32, u32),
        listed: Seq<(u32, u32)>,
        from: int,
    ) -> bool {
        forall|s: (u32, u32), d: (u32, u32)|
            #![trigger self.settled.contains(s), adjacent(s, d)]
            self.settled.contains(s) && adjacent(s, d) && enterable(terrain, w, h, d) && price_via(
                terrain,
                self.costs,
                s,
                d,
            ) <= 2 * budget && !(s == cur && ahead(listed, from, d)) ==> self.costs.contains_key(d)
                && self.costs[d].halves() <= price_via(terrain, self.costs, s, d)
    }

    /// No settled neighbour of a reached cell left the frontier before the
    /// cell's back-pointer did.
    pub open spec fn earliest(self, src: (u32, u32)) -> bool {
        forall|c: (u32, u32), q: (u32, u32)|
            #![trigger self.costs.contains_key(c), adjacent(q, c)]
            self.costs.contains_key(c) && c != src && self.settled.contains(q) && adjacent(q, c)
                ==> !self.before(q, self.paths[c])
    }

    /// The fringe holds the settled cells that no settled cell points to.
    pub open spec fn fringed(self, src: (u32, u32)) -> bool {
        forall|s: (u32, u32)| #[trigger]
            self.fringe.contains(s) <==> self.settled.contains(s) && !has_child(
                self.paths,
                self.settled,
                src,
                s,
            )
    }

    /// The invariant of the search: `cur` is the cell that was settled last
    /// (or the source, before any was), and of its listed neighbours those
    /// from index `from` on are still to be looked at.
    pub open spec fn inv(
        self,
        terrain: Seq<Vec<Terrain>>,
        w: u32,
        h: u32,
        src: (u32, u32),
        budget: u32,
        cur: (u32, u32),
        listed: Seq<(u32, u32)>,
        from: int,
    ) -> bool {
        &&& in_grid(src, w, h)
        &&& self.rooted(src)
        &&& self.priced(w, h, budget)
        &&& self.linked(terrain, src)
        &&& self.queued()
        &&& self.ordered(cur)
        &&& self.relaxed(terrain, w, h, budget, cur, listed, from)
        &&& self.earliest(src)
        &&& self.fringed(src)
    }

    /// The state in which the search starts: the source is reached at no
    /// cost and waits to be expanded.
    pub open spec fn start(src: (u32, u32), zero: Cost) -> Search {
        Search {
            paths: Map::<(u32, u32), (u32, u32)>::empty().insert(src, src),
            costs: Map::<(u32, u32), Cost>::empty().insert(src, zero),
            settled: Set::<(u32, u32)>::empty(),
            fringe: Set::<(u32, u32)>::empty(),
            frontier: Multiset::<DaState>::empty().insert(DaState { dist: zero, pos: src }),
        }
    }

    /// The state after the entry `e` has left the frontier and its cell has
    /// been settled.
    pub open spec fn settle(self, e: DaState) -> Search {
        Search {
            paths: self.paths,
            costs: self.costs,
            settled: self.settled.insert(e.pos),
            fringe: self.fringe.remove(self.paths[e.pos]).insert(e.pos),
            frontier: self.frontier.remove(e),
        }
    }

    /// The state after the cell `n` has been reached from `cur` at `price`.
    pub open spec fn reach(self, cur: (u32, u32), n: (u32, u32), price: Cost) -> Search {
        Search {
            paths: self.paths.insert(n, cur),
            costs: self.costs.insert(n, price),
            settled: self.settled,
            fringe: self.fringe,
            frontier: self.frontier.insert(DaState { dist: price, pos: n }),
        }
    }
}

/// The search starts in a state that meets its invariant.
pub proof fn lemma_start(
    terrain: Seq<Vec<Terrain>>,
    w: u32,
    h: u32,
    src: (u32, u32),
    budget: u32,
    zero: Cost,
)
    requires
        in_grid(src, w, h),
        zero.wf(),
        zero.halves() == 0,
    ensures
        Search::start(src, zero).inv(terrain, w, h, src, budget, src, Seq::empty(), 0),
{
    let st = Search::start(src, zero);
    assert(st.paths.dom() =~= st.costs.dom());
    assert forall|s: (u32, u32)| #[trigger]
        st.fringe.contains(s) <==> st.settled.contains(s) && !has_child(
            st.paths,
            st.settled,
            src,
            s,
        ) by {}
}

/// Settling the entry that outranks all others keeps the invariant; the
/// neighbours of its cell are then all still to be looked at.
pub proof fn lemma_settle(
    terrain: Seq<Vec<Terrain>>,
    w: u32,
    h: u32,
    src: (u32, u32),
    budget: u32,
    st: Search,
    prev: (u32, u32),
    prev_listed: Seq<(u32, u32)>,
    e: DaState,
)
    requires
        st.inv(terrain, w, h, src, budget, prev, prev_listed, prev_listed.len() as int),
        st.frontier.contains(e),
        forall|x: DaState| st.frontier.contains(x) ==> !#[trigger] x.outranks(e),
    ensures
        st.costs.contains_key(e.pos),
        st.paths.contains_key(e.pos),
        e.dist == st.costs[e.pos],
        !st.settled.contains(e.pos),
        st.settle(e).inv(
            terrain,
            w,
            h,
            src,
            budget,
            e.pos,
            neighbors_enterable(terrain, w, h, e.pos),
            0,
        ),
{
    let cur = e.pos;
    let nx = st.settle(e);
    let listed = neighbors_enterable(terrain, w, h, cur);
    assert(e == st.entry(cur));
    assert(st.paths.dom().contains(cur));
    assert(nx.frontier.count(e) == 0);
    assert forall|x: DaState| #[trigger] nx.frontier.contains(x) implies st.frontier.contains(x)
        && x != e && x.pos != cur && nx.frontier.count(x) == 1 by {
        assert(st.frontier.contains(x));
        assert(x == st.entry(x.pos));
    }
    assert(nx.rooted(src));
    assert(nx.priced(w, h, budget));
    assert(nx.linked(terrain, src));
    assert(nx.queued()) by {
        assert forall|c: (u32, u32)| #[trigger]
            nx.costs.contains_key(c) && !nx.settled.contains(c) implies nx.frontier.contains(
            nx.entry(c),
        ) by {
            assert(st.frontier.contains(st.entry(c)));
            assert(st.entry(c) != e);
        }
    }
    assert forall|s: (u32, u32)| #[trigger] st.settled.contains(s) implies st.before(s, cur) by {
        assert(st.settled.contains(s) && st.frontier.contains(e));
    }
    assert(nx.ordered(cur)) by {
        assert forall|s: (u32, u32), x: DaState|
            #![trigger nx.settled.contains(s), nx.frontier.contains(x)]
            nx.settled.contains(s) && nx.frontier.contains(x) implies pops_before(
            nx.costs[s].halves(),
            s,
            x.dist.halves(),
            x.pos,
        ) by {
            assert(st.frontier.contains(x));
            if s == cur {
                assert(!x.outranks(e));
                assert(x == st.entry(x.pos));
            } else {
                assert(st.settled.contains(s) && st.frontier.contains(x));
            }
        }
    }
    assert(nx.relaxed(terrain, w, h, budget, cur, listed, 0)) by {
        lemma_neighbors_enterable(terrain, w, h, cur);
        assert forall|s: (u32, u32), d: (u32, u32)|
            #![trigger nx.settled.contains(s), adjacent(s, d)]
            nx.settled.contains(s) && adjacent(s, d) && enterable(terrain, w, h, d) && price_via(
                terrain,
                nx.costs,
                s,
                d,
            ) <= 2 * budget && !(s == cur && ahead(listed, 0, d)) implies nx.costs.contains_key(d)
            && nx.costs[d].halves() <= price_via(terrain, nx.costs, s, d) by {
            if s == cur {
                assert(listed.contains(d));
                let j = choose|j: int| 0 <= j < listed.len() && listed[j] == d;
                assert(listed[j] == d);
                assert(ahead(listed, 0, d));
            } else {
                assert(st.settled.contains(s) && adjacent(s, d));
                assert(!ahead(prev_listed, prev_listed.len() as int, d));
            }
        }
    }
    assert(nx.earliest(src)) by {
        assert forall|c: (u32, u32), q: (u32, u32)|
            #![trigger nx.costs.contains_key(c), adjacent(q, c)]
            nx.costs.contains_key(c) && c != src && nx.settled.contains(q) && adjacent(
                q,
                c,
            ) implies !nx.before(q, nx.paths[c]) by {
            if q == cur {
                assert(st.settled.contains(st.paths[c]));
                assert(st.before(st.paths[c], cur));
            } else {
                assert(st.costs.contains_key(c) && adjacent(q, c));
            }
        }
    }
    assert(nx.fringed(src)) by {
        assert forall|s: (u32, u32)| #[trigger]
            nx.fringe.contains(s) <==> nx.settled.contains(s) && !has_child(
                nx.paths,
                nx.settled,
                src,
                s,
            ) by {
            if has_child(nx.paths, nx.settled, src, s) {
                let d = choose|d: (u32, u32)|
                    nx.settled.contains(d) && d != src && #[trigger] nx.paths[d] == s;
                assert(st.costs.contains_key(d));
                assert(st.settled.contains(st.paths[d]));
                if d != cur {
                    assert(st.settled.contains(d) && d != src && st.paths[d] == s);
                    assert(has_child(st.paths, st.settled, src, s));
                }
            }
            if has_child(st.paths, st.settled, src, s) {
                let d = choose|d: (u32, u32)|
                    st.settled.contains(d) && d != src && #[trigger] st.paths[d] == s;
                assert(nx.settled.contains(d) && d != src && nx.paths[d] == s);
            }
            if cur != src && st.paths[cur] == s {
                assert(nx.settled.contains(cur) && cur != src && nx.paths[cur] == s);
            }
            assert(st.fringe.contains(s) <==> st.settled.contains(s) && !has_child(
                st.paths,
                st.settled,
                src,
                s,
            ));
        }
    }
}

/// Looking at the next listed neighbour of `cur` without reaching it anew
/// keeps the invariant: either the step is over the budget, or the
/// neighbour has a price already, and that price is no higher than the
/// step's.
pub proof fn lemma_pass(
    terrain: Seq<Vec<Terrain>>,
    w: u32,
    h: u32,
    src: (u32, u32),
    budget: u32,
    st: Search,
    cur: (u32, u32),
    listed: Seq<(u32, u32)>,
    from: int,
)
    requires
        st.inv(terrain, w, h, src, budget, cur, listed, from),
        0 <= from < listed.len(),
        st.settled.contains(cur),
        adjacent(cur, listed[from]),
        enterable(terrain, w, h, listed[from]),
        price_via(terrain, st.costs, cur, listed[from]) > 2 * budget || st.costs.contains_key(
            listed[from],
        ),
    ensures
        st.costs.contains_key(listed[from]) ==> st.costs[listed[from]].halves() <= price_via(
            terrain,
            st.costs,
            cur,
            listed[from],
        ),
        st.inv(terrain, w, h, src, budget, cur, listed, from + 1),
{
    let n = listed[from];
    if st.costs.contains_key(n) {
        if n != src {
            let p = st.paths[n];
            assert(st.settled.contains(p));
            assert(p == cur || st.before(p, cur));
        }
    }
    assert forall|s: (u32, u32), d: (u32, u32)|
        #![trigger st.settled.contains(s), adjacent(s, d)]
        st.settled.contains(s) && adjacent(s, d) && enterable(terrain, w, h, d) && price_via(
            terrain,
            st.costs,
            s,
            d,
        ) <= 2 * budget && !(s == cur && ahead(listed, from + 1, d)) implies st.costs.contains_key(
        d,
    ) && st.costs[d].halves() <= price_via(terrain, st.costs, s, d) by {
        if s == cur && ahead(listed, from, d) {
            let j = choose|j: int| from <= j < listed.len() && #[trigger] listed[j] == d;
            if j != from {
                assert(listed[j] == d);
                assert(ahead(listed, from + 1, d));
            }
        }
    }
}

/// Reaching the next listed neighbour of `cur` for the first time, at the
/// price of the step from `cur`, keeps the invariant.
pub proof fn lemma_reach(
    terrain: Seq<Vec<Terrain>>,
    w: u32,
    h: u32,
    src: (u32, u32),
    budget: u32,
    st: Search,
    cur: (u32, u32),
    listed: Seq<(u32, u32)>,
    from: int,
    price: Cost,
)
    requires
        st.inv(terrain, w, h, src, budget, cur, listed, from),
        0 <= from < listed.len(),
        st.settled.contains(cur),
        adjacent(cur, listed[from]),
        enterable(terrain, w, h, listed[from]),
        !st.costs.contains_key(listed[from]),
        price.wf(),
        price.halves() == price_via(terrain, st.costs, cur, listed[from]),
        price.halves() <= 2 * budget,
    ensures
        st.reach(cur, listed[from], price).inv(terrain, w, h, src, budget, cur, listed, from + 1),
{
    let n = listed[from];
    let nx = st.reach(cur, n, price);
    let fresh = DaState { dist: price, pos: n };
    assert(n != src);
    assert(!st.settled.contains(n));
    assert(st.costs.contains_key(cur));
    assert(tile(terrain, n).entry_halves() >= 2);
    assert(st.frontier.count(fresh) == 0) by {
        if st.frontier.contains(fresh) {
            assert(st.costs.contains_key(fresh.pos));
        }
    }
    assert(nx.paths.dom() =~= nx.costs.dom());
    assert(nx.rooted(src));
    assert(nx.priced(w, h, budget));
    assert(nx.linked(terrain, src)) by {
        assert forall|c: (u32, u32)| #[trigger] nx.costs.contains_key(c) && c != src implies {
            &&& nx.settled.contains(nx.paths[c])
            &&& adjacent(nx.paths[c], c)
            &&& tile(terrain, c).passable()
            &&& nx.costs[c].halves() == price_via(terrain, nx.costs, nx.paths[c], c)
        } by {
            if c != n {
                assert(st.costs.contains_key(c));
                assert(st.settled.contains(st.paths[c]));
                assert(st.paths[c] != n);
            }
        }
    }
    assert(nx.queued()) by {
        assert forall|c: (u32, u32)| #[trigger]
            nx.costs.contains_key(c) && !nx.settled.contains(c) implies nx.frontier.contains(
            nx.entry(c),
        ) by {
            if c != n {
                assert(st.frontier.contains(st.entry(c)));
            }
        }
        assert forall|x: DaState| #[trigger] nx.frontier.contains(x) implies {
            &&& nx.costs.contains_key(x.pos)
            &&& x == nx.entry(x.pos)
            &&& !nx.settled.contains(x.pos)
            &&& nx.frontier.count(x) == 1
        } by {
            if x != fresh {
                assert(st.frontier.contains(x));
                assert(x.pos != n);
            }
        }
    }
    assert(nx.ordered(cur)) by {
        assert forall|s: (u32, u32)| #[trigger] nx.settled.contains(s) implies s == cur
            || nx.before(s, cur) by {
            assert(s == cur || st.before(s, cur));
        }
        assert forall|s: (u32, u32), x: DaState|
            #![trigger nx.settled.contains(s), nx.frontier.contains(x)]
            nx.settled.contains(s) && nx.frontier.contains(x) implies pops_before(
            nx.costs[s].halves(),
            s,
            x.dist.halves(),
            x.pos,
        ) by {
            if x != fresh {
                assert(st.settled.contains(s) && st.frontier.contains(x));
            } else {
                assert(s == cur || st.before(s, cur));
            }
        }
    }
    assert(nx.relaxed(terrain, w, h, budget, cur, listed, from + 1)) by {
        assert forall|s: (u32, u32), d: (u32, u32)|
            #![trigger nx.settled.contains(s), adjacent(s, d)]
            nx.settled.contains(s) && adjacent(s, d) && enterable(terrain, w, h, d) && price_via(
                terrain,
                nx.costs,
                s,
                d,
            ) <= 2 * budget && !(s == cur && ahead(listed, from + 1, d))
            implies nx.costs.contains_key(d) && nx.costs[d].halves() <= price_via(
            terrain,
            nx.costs,
            s,
            d,
        ) by {
            assert(st.settled.contains(s) && adjacent(s, d));
            assert(price_via(terrain, nx.costs, s, d) == price_via(terrain, st.costs, s, d));
            if d != n {
                if s == cur && ahead(listed, from, d) {
                    let j = choose|j: int| from <= j < listed.len() && #[trigger] listed[j] == d;
                    assert(listed[j] == d);
                    assert(ahead(listed, from + 1, d));
                }
            } else if s != cur {
                assert(!(s == cur && ahead(listed, from, d)));
            }
        }
    }
    assert(nx.earliest(src)) by {
        assert forall|c: (u32, u32), q: (u32, u32)|
            #![trigger nx.costs.contains_key(c), adjacent(q, c)]
            nx.costs.contains_key(c) && c != src && nx.settled.contains(q) && adjacent(
                q,
                c,
            ) implies !nx.before(q, nx.paths[c]) by {
            if c == n {
                if q != cur {
                    assert(st.before(q, cur));
                    assert(st.settled.contains(q) && adjacent(q, n));
                    assert(price_via(terrain, st.costs, q, n) <= 2 * budget);
                }
            } else {
                assert(st.costs.contains_key(c) && adjacent(q, c));
                assert(st.settled.contains(st.paths[c]));
            }
        }
    }
    assert(nx.fringed(src)) by {
        assert forall|s: (u32, u32)| #[trigger]
            nx.fringe.contains(s) <==> nx.settled.contains(s) && !has_child(
                nx.paths,
                nx.settled,
                src,
                s,
            ) by {
            if has_child(nx.paths, nx.settled, src, s) {
                let d = choose|d: (u32, u32)|
                    nx.settled.contains(d) && d != src && #[trigger] nx.paths[d] == s;
                assert(st.settled.contains(d) && d != src && st.paths[d] == s);
            }
            if has_child(st.paths, st.settled, src, s) {
                let d = choose|d: (u32, u32)|
                    st.settled.contains(d) && d != src && #[trigger] st.paths[d] == s;
                assert(nx.settled.contains(d) && d != src && nx.paths[d] == s);
            }
            assert(st.fringe.contains(s) <==> st.settled.contains(s) && !has_child(
                st.paths,
                st.settled,
                src,
                s,
            ));
        }
    }
}

/// When nothing waits in the frontier and every neighbour of the last
/// settled cell has been looked at, the search has explored the map.
pub proof fn lemma_finish(
    terrain: Seq<Vec<Terrain>>,
    w: u32,
    h: u32,
    src: (u32, u32),
    budget: u32,
    st: Search,
    cur: (u32, u32),
    listed: Seq<(u32, u32)>,
)
    requires
        st.inv(terrain, w, h, src, budget, cur, listed, listed.len() as int),
        st.frontier.len() == 0,
    ensures
        explored(terrain, w, h, src, budget, st.paths, st.costs, st.fringe, st.settled),
{
    assert forall|c: (u32, u32)| st.costs.contains_key(c) implies st.settled.contains(c) by {
        if !st.settled.contains(c) {
            assert(st.frontier.contains(st.entry(c)));
            assert(st.frontier.count(st.entry(c)) > 0);
        }
    }
    assert(st.costs.dom() =~= st.settled);
    assert(st.paths.dom() =~= st.settled);
    assert forall|c: (u32, u32), d: (u32, u32)|
        #![trigger st.settled.contains(c), adjacent(c, d)]
        st.settled.contains(c) && adjacent(c, d) && enterable(terrain, w, h, d) && price_via(
            terrain,
            st.costs,
            c,
            d,
        ) <= 2 * budget implies st.settled.contains(d) && st.costs[d].halves() <= price_via(
        terrain,
        st.costs,
        c,
        d,
    ) by {
        assert(!ahead(listed, listed.len() as int, d));
    }
    assert forall|c: (u32, u32), q: (u32, u32)|
        #![trigger st.settled.contains(c), adjacent(q, c)]
        st.settled.contains(c) && c != src && st.settled.contains(q) && adjacent(
            q,
            c,
        ) implies !pops_before(
        st.costs[q].halves(),
        q,
        st.costs[st.paths[c]].halves(),
        st.paths[c],
    ) by {
        assert(st.costs.contains_key(c) && adjacent(q, c));
    }
}

} // verus!
