//! The geometry of the map: cells, their four neighbours, the terrain matrix
//! and lattice walks across it.

use crate::terrain::Terrain;
use vstd::prelude::*;

verus! {

/// Whether `c` lies on a map of `w` columns and `h` rows.
pub open spec fn in_grid(c: (u32, u32), w: u32, h: u32) -> bool {
    c.0 < w && c.1 < h
}

/// Whether `a` and `b` share an edge: same column and neighbouring rows, or
/// same row and neighbouring columns.
pub open spec fn adjacent(a: (u32, u32), b: (u32, u32)) -> bool {
    ||| a.0 == b.0 && (a.1 + 1 == b.1 || b.1 + 1 == a.1)
    ||| a.1 == b.1 && (a.0 + 1 == b.0 || b.0 + 1 == a.0)
}

/// Whether `terrain` is a matrix of `w` columns of `h` tiles each.
pub open spec fn shaped(terrain: Seq<Vec<Terrain>>, w: u32, h: u32) -> bool {
    &&& terrain.len() == w
    &&& forall|x: int| 0 <= x < w ==> (#[trigger] terrain[x])@.len() == h
}

/// Whether `terrain` is a matrix of `w` columns of `h` tiles each.
pub fn has_shape(terrain: &Vec<Vec<Terrain>>, w: u32, h: u32) -> (r: bool)
    ensures
        r == shaped(terrain@, w, h),
{
    if terrain.len() != w as usize {
        return false;
    }
    let mut x: usize = 0;
    while x < terrain.len()
        invariant
            x <= terrain@.len(),
            terrain@.len() == w,
            forall|i: int| 0 <= i < x ==> (#[trigger] terrain@[i])@.len() == h,
        decreases terrain.len() - x,
    {
        if terrain[x].len() != h as usize {
            return false;
        }
        x = x + 1;
    }
    true
}

/// The tile at cell `c`; the matrix is indexed by column first.
pub open spec fn tile(terrain: Seq<Vec<Terrain>>, c: (u32, u32)) -> Terrain {
    terrain[c.0 as int]@[c.1 as int]
}

/// Whether a unit may step onto `c`: the cell is on the map and is no wall.
pub open spec fn enterable(terrain: Seq<Vec<Terrain>>, w: u32, h: u32, c: (u32, u32)) -> bool {
    in_grid(c, w, h) && tile(terrain, c).passable()
}

/// The neighbour of `c` to the west, if `c` is not in the first column.
pub open spec fn west_of(c: (u32, u32)) -> Option<(u32, u32)> {
    if c.0 >= 1 {
        Some(((c.0 - 1) as u32, c.1))
    } else {
        None
    }
}

/// The neighbour of `c` to the east, if its column can be numbered.
pub open spec fn east_of(c: (u32, u32)) -> Option<(u32, u32)> {
    if c.0 < u32::MAX {
        Some(((c.0 + 1) as u32, c.1))
    } else {
        None
    }
}

/// The neighbour of `c` to the north, if `c` is not in the first row.
pub open spec fn north_of(c: (u32, u32)) -> Option<(u32, u32)> {
    if c.1 >= 1 {
        Some((c.0, (c.1 - 1) as u32))
    } else {
        None
    }
}

/// The neighbour of `c` to the south, if its row can be numbered.
pub open spec fn south_of(c: (u32, u32)) -> Option<(u32, u32)> {
    if c.1 < u32::MAX {
        Some((c.0, (c.1 + 1) as u32))
    } else {
        None
    }
}

/// The sequence that holds the cell `n` if there is one and `keep` holds,
/// and nothing otherwise.
pub open spec fn kept(n: Option<(u32, u32)>, keep: bool) -> Seq<(u32, u32)> {
    match n {
        Some(c) => if keep {
            seq![c]
        } else {
            Seq::empty()
        },
        None => Seq::empty(),
    }
}

/// Whether `n` is a cell on the map.
pub open spec fn on_map(n: Option<(u32, u32)>, w: u32, h: u32) -> bool {
    match n {
        Some(c) => in_grid(c, w, h),
        None => false,
    }
}

/// Whether `n` is a cell that a unit may step onto.
pub open spec fn open_to_step(
    n: Option<(u32, u32)>,
    terrain: Seq<Vec<Terrain>>,
    w: u32,
    h: u32,
) -> bool {
    match n {
        Some(c) => enterable(terrain, w, h, c),
        None => false,
    }
}

/// The neighbours of `c` that lie on the map, in the order west, east, north,
/// south.
pub open spec fn neighbors_in_grid(c: (u32, u32), w: u32, h: u32) -> Seq<(u32, u32)> {
    kept(west_of(c), on_map(west_of(c), w, h)) + kept(east_of(c), on_map(east_of(c), w, h)) + kept(
        north_of(c),
        on_map(north_of(c), w, h),
    ) + kept(south_of(c), on_map(south_of(c), w, h))
}

/// The neighbours of `c` that a unit may step onto, in the order west, east,
/// north, south.
pub open spec fn neighbors_enterable(
    terrain: Seq<Vec<Terrain>>,
    w: u32,
    h: u32,
    c: (u32, u32),
) -> Seq<(u32, u32)> {
    kept(west_of(c), open_to_step(west_of(c), terrain, w, h)) + kept(
        east_of(c),
        open_to_step(east_of(c), terrain, w, h),
    ) + kept(north_of(c), open_to_step(north_of(c), terrain, w, h)) + kept(
        south_of(c),
        open_to_step(south_of(c), terrain, w, h),
    )
}

/// The neighbours kept of the four are adjacent to `c`, each listed once, and
/// every adjacent cell is one of the four.
proof fn lemma_kept_neighbors(c: (u32, u32), a: bool, b: bool, n: bool, o: bool)
    ensures
        ({
            let s = kept(west_of(c), a) + kept(east_of(c), b) + kept(north_of(c), n) + kept(
                south_of(c),
                o,
            );
            &&& s.no_duplicates()
            &&& s.len() <= 4
            &&& forall|d: (u32, u32)|
                s.contains(d) <==> {
                    ||| a && west_of(c) == Some(d)
                    ||| b && east_of(c) == Some(d)
                    ||| n && north_of(c) == Some(d)
                    ||| o && south_of(c) == Some(d)
                }
        }),
        forall|d: (u32, u32)|
            adjacent(c, d) <==> {
                ||| west_of(c) == Some(d)
                ||| east_of(c) == Some(d)
                ||| north_of(c) == Some(d)
                ||| south_of(c) == Some(d)
            },
{
    let s = kept(west_of(c), a) + kept(east_of(c), b) + kept(north_of(c), n) + kept(south_of(c), o);
    let ka = kept(west_of(c), a);
    let kb = kept(east_of(c), b);
    let kn = kept(north_of(c), n);
    assert forall|d: (u32, u32)|
        s.contains(d) <==> {
            ||| a && west_of(c) == Some(d)
            ||| b && east_of(c) == Some(d)
            ||| n && north_of(c) == Some(d)
            ||| o && south_of(c) == Some(d)
        } by {
        if s.contains(d) {
            let i = choose|i: int| 0 <= i < s.len() && s[i] == d;
        }
        if a && west_of(c) == Some(d) {
            assert(s[0] == d);
        } else if b && east_of(c) == Some(d) {
            assert(s[ka.len() as int] == d);
        } else if n && north_of(c) == Some(d) {
            assert(s[(ka.len() + kb.len()) as int] == d);
        } else if o && south_of(c) == Some(d) {
            assert(s[(ka.len() + kb.len() + kn.len()) as int] == d);
        }
    }
}

/// The listed neighbours on the map are exactly the adjacent cells on the
/// map, each listed once.
pub proof fn lemma_neighbors_in_grid(c: (u32, u32), w: u32, h: u32)
    ensures
        forall|d: (u32, u32)|
            neighbors_in_grid(c, w, h).contains(d) <==> adjacent(c, d) && in_grid(d, w, h),
        neighbors_in_grid(c, w, h).no_duplicates(),
        neighbors_in_grid(c, w, h).len() <= 4,
{
    lemma_kept_neighbors(
        c,
        on_map(west_of(c), w, h),
        on_map(east_of(c), w, h),
        on_map(north_of(c), w, h),
        on_map(south_of(c), w, h),
    );
}

/// The listed neighbours that a unit may step onto are exactly the adjacent
/// cells that it may step onto, each listed once.
pub proof fn lemma_neighbors_enterable(terrain: Seq<Vec<Terrain>>, w: u32, h: u32, c: (u32, u32))
    ensures
        forall|d: (u32, u32)|
            neighbors_enterable(terrain, w, h, c).contains(d) <==> adjacent(c, d) && enterable(
                terrain,
                w,
                h,
                d,
            ),
        neighbors_enterable(terrain, w, h, c).no_duplicates(),
        neighbors_enterable(terrain, w, h, c).len() <= 4,
{
    lemma_kept_neighbors(
        c,
        open_to_step(west_of(c), terrain, w, h),
        open_to_step(east_of(c), terrain, w, h),
        open_to_step(north_of(c), terrain, w, h),
        open_to_step(south_of(c), terrain, w, h),
    );
}

} // verus!
