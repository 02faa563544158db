//! The outline of the reachable region: the sides of a cell beyond which the
//! region ends.

use crate::grid::adjacent;
use crate::grid::east_of;
use crate::grid::in_grid;
use crate::grid::lemma_neighbors_in_grid;
use crate::grid::neighbors_in_grid;
use crate::grid::north_of;
use crate::grid::south_of;
use crate::grid::west_of;
use crate::pathfinding::Direction;
use vstd::prelude::*;

verus! {

/// The direction in which `to` lies as seen from the adjacent cell `from`.
pub open spec fn direction_toward(from: (u32, u32), to: (u32, u32)) -> Direction
    recommends
        adjacent(from, to),
{
    if from.0 == to.0 {
        if to.1 < from.1 {
            Direction::N
        } else {
            Direction::S
        }
    } else if to.0 < from.0 {
        Direction::W
    } else {
        Direction::E
    }
}

/// The neighbour of `c` in direction `d`, if its coordinates can be numbered.
pub open spec fn neighbor_toward(c: (u32, u32), d: Direction) -> Option<(u32, u32)> {
    match d {
        Direction::N => north_of(c),
        Direction::S => south_of(c),
        Direction::E => east_of(c),
        Direction::W => west_of(c),
    }
}

/// Whether the side of `c` that faces direction `d` is an outer side of the
/// reachable region: the neighbour on that side is off the map or is not
/// reachable.
pub open spec fn faces_outward(
    c: (u32, u32),
    d: Direction,
    reachable: Set<(u32, u32)>,
    w: u32,
    h: u32,
) -> bool {
    match neighbor_toward(c, d) {
        Some(n) => !(in_grid(n, w, h) && reachable.contains(n)),
        None => true,
    }
}

/// The sequence that holds `d` if `open`, and nothing otherwise.
pub open spec fn direction_if(open: bool, d: Direction) -> Seq<Direction> {
    if open {
        seq![d]
    } else {
        Seq::empty()
    }
}

/// The directions, in the order north, south, east, west, in which `c` faces
/// out of the reachable region.
pub open spec fn open_directions(c: (u32, u32), reachable: Set<(u32, u32)>, w: u32, h: u32) -> Seq<
    Direction,
> {
    direction_if(faces_outward(c, Direction::N, reachable, w, h), Direction::N) + direction_if(
        faces_outward(c, Direction::S, reachable, w, h),
        Direction::S,
    ) + direction_if(faces_outward(c, Direction::E, reachable, w, h), Direction::E)
        + direction_if(faces_outward(c, Direction::W, reachable, w, h), Direction::W)
}

/// A direction is listed among the open directions of a cell exactly if the
/// neighbour on that side is off the map or not reachable; no direction is
/// listed twice.
pub proof fn lemma_open_directions(
    c: (u32, u32),
    reachable: Set<(u32, u32)>,
    w: u32,
    h: u32,
    d: Direction,
)
    ensures
        open_directions(c, reachable, w, h).contains(d) <==> faces_outward(c, d, reachable, w, h),
        open_directions(c, reachable, w, h).no_duplicates(),
{
    let s = open_directions(c, reachable, w, h);
    let n = direction_if(faces_outward(c, Direction::N, reachable, w, h), Direction::N);
    let o = direction_if(faces_outward(c, Direction::S, reachable, w, h), Direction::S);
    let e = direction_if(faces_outward(c, Direction::E, reachable, w, h), Direction::E);
    if s.contains(d) {
        let i = choose|i: int| 0 <= i < s.len() && s[i] == d;
        assert(faces_outward(c, d, reachable, w, h));
    }
    if faces_outward(c, d, reachable, w, h) {
        match d {
            Direction::N => {
                assert(s[0] == d);
            },
            Direction::S => {
                assert(s[n.len() as int] == d);
            },
            Direction::E => {
                assert(s[(n.len() + o.len()) as int] == d);
            },
            Direction::W => {
                assert(s[(n.len() + o.len() + e.len()) as int] == d);
            },
        }
    }
}

/// Whether one of the first `n` listed neighbours of `c` is reachable and
/// lies in direction `d`.
pub closed spec fn shut_by(
    c: (u32, u32),
    listed: Seq<(u32, u32)>,
    reachable: Set<(u32, u32)>,
    d: Direction,
    n: int,
) -> bool {
    exists|j: int|
        0 <= j < n && #[trigger] direction_toward(c, listed[j]) == d && reachable.contains(
            listed[j],
        )
}

/// The directions whose flag is set, in the order north, south, east, west.
#[verifier::opaque]
pub closed spec fn listing(n: bool, s: bool, e: bool, w: bool) -> Seq<Direction> {
    direction_if(n, Direction::N) + direction_if(s, Direction::S) + direction_if(e, Direction::E)
        + direction_if(w, Direction::W)
}

/// The flag of direction `d` among the four.
pub open spec fn flag_of(d: Direction, n: bool, s: bool, e: bool, w: bool) -> bool {
    match d {
        Direction::N => n,
        Direction::S => s,
        Direction::E => e,
        Direction::W => w,
    }
}

/// Taking a listed direction out of a listing clears its flag.
pub proof fn lemma_listing_remove(d: Direction, n: bool, s: bool, e: bool, w: bool, k: int)
    requires
        0 <= k < listing(n, s, e, w).len(),
        listing(n, s, e, w)[k] == d,
    ensures
        flag_of(d, n, s, e, w),
        listing(n, s, e, w).remove(k) == listing(
            n && d != Direction::N,
            s && d != Direction::S,
            e && d != Direction::E,
            w && d != Direction::W,
        ),
{
    reveal(listing);
    assert(listing(n, s, e, w).remove(k) =~= listing(
        n && d != Direction::N,
        s && d != Direction::S,
        e && d != Direction::E,
        w && d != Direction::W,
    ));
}

/// A direction whose flag is set is listed.
pub proof fn lemma_listing_contains(d: Direction, n: bool, s: bool, e: bool, w: bool)
    requires
        flag_of(d, n, s, e, w),
    ensures
        listing(n, s, e, w).contains(d),
{
    reveal(listing);
    let l = listing(n, s, e, w);
    match d {
        Direction::N => {
            assert(l[0] == d);
        },
        Direction::S => {
            assert(l[direction_if(n, Direction::N).len() as int] == d);
        },
        Direction::E => {
            let before = direction_if(n, Direction::N).len() + direction_if(s, Direction::S).len();
            assert(l[before as int] == d);
        },
        Direction::W => {
            assert(l[l.len() - 1] == d);
        },
    }
}

/// With all flags set, all four directions are listed.
pub proof fn lemma_listing_full()
    ensures
        listing(true, true, true, true) == seq![
            Direction::N,
            Direction::S,
            Direction::E,
            Direction::W,
        ],
{
    reveal(listing);
    assert(listing(true, true, true, true) =~= seq![
        Direction::N,
        Direction::S,
        Direction::E,
        Direction::W,
    ]);
}

/// The open directions of a cell are the listing of the directions in
/// which it faces outward.
pub proof fn lemma_listing_open(c: (u32, u32), reachable: Set<(u32, u32)>, w: u32, h: u32)
    ensures
        open_directions(c, reachable, w, h) == listing(
            faces_outward(c, Direction::N, reachable, w, h),
            faces_outward(c, Direction::S, reachable, w, h),
            faces_outward(c, Direction::E, reachable, w, h),
            faces_outward(c, Direction::W, reachable, w, h),
        ),
{
    reveal(listing);
}

/// Before any neighbour has been looked at, no direction is shut.
pub proof fn lemma_none_shut(
    c: (u32, u32),
    listed: Seq<(u32, u32)>,
    reachable: Set<(u32, u32)>,
    d: Direction,
)
    ensures
        !shut_by(c, listed, reachable, d, 0),
{
}

/// Looking at one more listed neighbour shuts its direction if it is
/// reachable, and no other.
pub proof fn lemma_shut_step(
    c: (u32, u32),
    listed: Seq<(u32, u32)>,
    reachable: Set<(u32, u32)>,
    d: Direction,
    i: int,
)
    requires
        0 <= i < listed.len(),
    ensures
        shut_by(c, listed, reachable, d, i + 1) == (shut_by(c, listed, reachable, d, i) || (d
            == direction_toward(c, listed[i]) && reachable.contains(listed[i]))),
{
    if shut_by(c, listed, reachable, d, i) {
        let j = choose|j: int|
            0 <= j < i && #[trigger] direction_toward(c, listed[j]) == d && reachable.contains(
                listed[j],
            );
        assert(0 <= j < i + 1);
    }
    if d == direction_toward(c, listed[i]) && reachable.contains(listed[i]) {
        assert(direction_toward(c, listed[i]) == d);
    }
}

/// Among distinct neighbours of one cell, no earlier one lies in the
/// direction of a later one.
pub proof fn lemma_not_shut_yet(
    c: (u32, u32),
    listed: Seq<(u32, u32)>,
    reachable: Set<(u32, u32)>,
    i: int,
)
    requires
        0 <= i < listed.len(),
        listed.no_duplicates(),
        forall|j: int| 0 <= j < listed.len() ==> adjacent(c, #[trigger] listed[j]),
    ensures
        !shut_by(c, listed, reachable, direction_toward(c, listed[i]), i),
{
    let toward = direction_toward(c, listed[i]);
    if shut_by(c, listed, reachable, toward, i) {
        let j = choose|j: int|
            0 <= j < i && #[trigger] direction_toward(c, listed[j]) == toward
                && reachable.contains(listed[j]);
        assert(adjacent(c, listed[j]));
        assert(adjacent(c, listed[i]));
        assert(listed[j] == listed[i]);
    }
}

/// Once every neighbour on the map has been looked at, the shut directions
/// are those that do not face outward.
pub proof fn lemma_shut_all(
    c: (u32, u32),
    reachable: Set<(u32, u32)>,
    max_w: u32,
    max_h: u32,
    d: Direction,
)
    ensures
        shut_by(
            c,
            neighbors_in_grid(c, max_w, max_h),
            reachable,
            d,
            neighbors_in_grid(c, max_w, max_h).len() as int,
        ) == !faces_outward(c, d, reachable, max_w, max_h),
{
    let listed = neighbors_in_grid(c, max_w, max_h);
    lemma_neighbors_in_grid(c, max_w, max_h);
    if shut_by(c, listed, reachable, d, listed.len() as int) {
        let j = choose|j: int|
            0 <= j < listed.len() && #[trigger] direction_toward(c, listed[j]) == d
                && reachable.contains(listed[j]);
        assert(listed.contains(listed[j]));
        assert(neighbor_toward(c, d) == Some(listed[j]));
    }
    if !faces_outward(c, d, reachable, max_w, max_h) {
        let n = neighbor_toward(c, d)->0;
        assert(neighbor_toward(c, d) == Some(n));
        assert(adjacent(c, n) && in_grid(n, max_w, max_h));
        assert(listed.contains(n));
        let j = choose|j: int| 0 <= j < listed.len() && listed[j] == n;
        assert(direction_toward(c, listed[j]) == d);
    }
}

/// The cells of the tagged list, in its order.
pub open spec fn tagged_cells(tagged: Seq<((u32, u32), Vec<Direction>)>) -> Seq<(u32, u32)> {
    Seq::new(tagged.len(), |i: int| tagged[i].0)
}

} // verus!
