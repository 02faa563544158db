//! Grid cells and the collections keyed by them.
//!
//! A cell is a pair `(x, y)` of column and row. The maps and sets of the
//! movement core are hash tables of the standard library; a cell is stored in
//! them under a single `u64` key, its column in the upper half and its row in
//! the lower half, and the views turn keys back into cells, so that
//! contracts speak of cells only.

use std::collections::HashMap;
use std::collections::HashSet;
use vstd::prelude::*;
use vstd::std_specs::iter::IteratorSpec;

verus! {

/// The key under which a cell is stored.
pub open spec fn key_of(c: (u32, u32)) -> u64 {
    (c.0 * 0x1_0000_0000 + c.1) as u64
}

/// The cell that is stored under a key.
pub open spec fn cell_of(k: u64) -> (u32, u32) {
    ((k / 0x1_0000_0000) as u32, (k % 0x1_0000_0000) as u32)
}

/// Cells and keys correspond one to one.
pub proof fn lemma_keys(c: (u32, u32), k: u64)
    ensures
        cell_of(key_of(c)) == c,
        key_of(cell_of(k)) == k,
{
}

/// There are finitely many cells.
pub proof fn lemma_cells_finite()
    ensures
        Set::<(u32, u32)>::full().finite(),
{
    let numbers = vstd::set_lib::set_int_range(0, 0x1_0000_0000_0000_0000);
    vstd::set_lib::lemma_int_range(0, 0x1_0000_0000_0000_0000);
    let f = |i: int| cell_of(i as u64);
    numbers.lemma_map_finite(f);
    assert(numbers.map(f) =~= Set::<(u32, u32)>::full()) by {
        assert forall|c: (u32, u32)| numbers.map(f).contains(c) by {
            lemma_keys(c, 0);
            assert(numbers.contains(key_of(c) as int));
            assert(f(key_of(c) as int) == c);
        }
    }
}

/// The number of cells outside a set drops by one when a new cell is put
/// into the set.
pub proof fn lemma_fewer_left(cells: Set<(u32, u32)>, c: (u32, u32))
    requires
        !cells.contains(c),
    ensures
        Set::<(u32, u32)>::full().difference(cells.insert(c)).len() + 1 == Set::<
            (u32, u32),
        >::full().difference(cells).len(),
{
    lemma_cells_finite();
    let rest = Set::<(u32, u32)>::full().difference(cells);
    vstd::set_lib::lemma_len_subset(rest, Set::<(u32, u32)>::full());
    assert(rest.contains(c));
    assert(Set::<(u32, u32)>::full().difference(cells.insert(c)) =~= rest.remove(c));
}

/// The key under which the cell `c` is stored.
fn key(c: (u32, u32)) -> (k: u64)
    ensures
        k == key_of(c),
{
    (c.0 as u64) * 0x1_0000_0000 + (c.1 as u64)
}

/// The cell that is stored under the key `k`.
fn cell(k: u64) -> (c: (u32, u32))
    ensures
        c == cell_of(k),
{
    ((k / 0x1_0000_0000) as u32, (k % 0x1_0000_0000) as u32)
}

/// A finite map from cells to values.
#[derive(Debug)]
pub struct CoordMap<V> {
    cells: HashMap<u64, V>,
}

impl<V> View for CoordMap<V> {
    type V = Map<(u32, u32), V>;

    closed spec fn view(&self) -> Map<(u32, u32), V> {
        Map::new(
            |c: (u32, u32)| self.cells@.contains_key(key_of(c)),
            |c: (u32, u32)| self.cells@[key_of(c)],
        )
    }
}

impl<V> CoordMap<V> {
    /// The empty map.
    pub fn new() -> (m: Self)
        ensures
            m@ == Map::<(u32, u32), V>::empty(),
    {
        let m = CoordMap { cells: HashMap::new() };
        assert(m@ =~= Map::<(u32, u32), V>::empty());
        m
    }

    /// Maps `c` to `v`, replacing what `c` was mapped to before.
    pub fn insert(&mut self, c: (u32, u32), v: V)
        ensures
            final(self)@ == old(self)@.insert(c, v),
    {
        let k = key(c);
        self.cells.insert(k, v);
        proof {
            assert forall|d: (u32, u32)| d != c implies key_of(d) != k by {
                lemma_keys(d, 0);
                lemma_keys(c, 0);
            }
            assert(self@ =~= old(self)@.insert(c, v));
        }
    }

    /// Whether `c` has a value.
    pub fn contains_key(&self, c: (u32, u32)) -> (r: bool)
        ensures
            r == self@.contains_key(c),
    {
        let k = key(c);
        self.cells.contains_key(&k)
    }

    /// The value of `c`, if it has one.
    pub fn get(&self, c: (u32, u32)) -> (r: Option<&V>)
        ensures
            match r {
                Some(v) => self@.contains_key(c) && *v == self@[c],
                None => !self@.contains_key(c),
            },
    {
        let k = key(c);
        self.cells.get(&k)
    }

    /// The number of cells that have a value.
    pub fn len(&self) -> (n: usize)
        ensures
            n == self@.len(),
            self@.dom().finite(),
    {
        proof {
            self.lemma_view_len();
        }
        self.cells.len()
    }

    /// The view has as many entries as the table, and finitely many.
    proof fn lemma_view_len(&self)
        ensures
            self@.dom().finite(),
            self@.len() == self.cells@.len(),
    {
        let keys = self.cells@.dom();
        let cells = keys.map(|k: u64| cell_of(k));
        assert(cells =~= self@.dom()) by {
            assert forall|c: (u32, u32)| cells.contains(c) == self@.dom().contains(c) by {
                lemma_keys(c, 0);
                if self@.dom().contains(c) {
                    assert(keys.contains(key_of(c)));
                }
                if cells.contains(c) {
                    let k = choose|k: u64| keys.contains(k) && cell_of(k) == c;
                    lemma_keys(c, k);
                }
            }
        }
        assert(vstd::relations::injective_on(|k: u64| cell_of(k), keys)) by {
            assert forall|k1: u64, k2: u64| cell_of(k1) == cell_of(k2) implies k1 == k2 by {
                lemma_keys((0, 0), k1);
                lemma_keys((0, 0), k2);
            }
        }
        vstd::set_lib::lemma_map_size(keys, cells, |k: u64| cell_of(k));
        keys.lemma_map_finite(|k: u64| cell_of(k));
    }
}

/// A finite set of cells.
#[derive(Debug)]
pub struct CoordSet {
    cells: HashSet<u64>,
}

impl View for CoordSet {
    type V = Set<(u32, u32)>;

    closed spec fn view(&self) -> Set<(u32, u32)> {
        Set::new(|c: (u32, u32)| self.cells@.contains(key_of(c)))
    }
}

impl CoordSet {
    /// The empty set.
    pub fn new() -> (s: Self)
        ensures
            s@ == Set::<(u32, u32)>::empty(),
    {
        let s = CoordSet { cells: HashSet::new() };
        assert(s@ =~= Set::<(u32, u32)>::empty());
        s
    }

    /// Adds `c`; says whether it was new.
    pub fn insert(&mut self, c: (u32, u32)) -> (fresh: bool)
        ensures
            final(self)@ == old(self)@.insert(c),
            fresh == !old(self)@.contains(c),
    {
        let k = key(c);
        let fresh = self.cells.insert(k);
        proof {
            assert forall|d: (u32, u32)| d != c implies key_of(d) != k by {
                lemma_keys(d, 0);
                lemma_keys(c, 0);
            }
            assert(self@ =~= old(self)@.insert(c));
        }
        fresh
    }

    /// Takes `c` out; says whether it was there.
    pub fn remove(&mut self, c: (u32, u32)) -> (present: bool)
        ensures
            final(self)@ == old(self)@.remove(c),
            present == old(self)@.contains(c),
    {
        let k = key(c);
        let present = self.cells.remove(&k);
        proof {
            assert forall|d: (u32, u32)| d != c implies key_of(d) != k by {
                lemma_keys(d, 0);
                lemma_keys(c, 0);
            }
            assert(self@ =~= old(self)@.remove(c));
        }
        present
    }

    /// Whether `c` is in the set.
    pub fn contains(&self, c: (u32, u32)) -> (r: bool)
        ensures
            r == self@.contains(c),
    {
        let k = key(c);
        self.cells.contains(&k)
    }

    /// The number of cells in the set.
    pub fn len(&self) -> (n: usize)
        ensures
            n == self@.len(),
            self@.finite(),
    {
        proof {
            self.lemma_view_len();
        }
        self.cells.len()
    }

    /// The cells of the set, each once, in no particular order.
    pub fn to_vec(&self) -> (v: Vec<(u32, u32)>)
        ensures
            v@.no_duplicates(),
            v@.to_set() == self@,
    {
        let mut v: Vec<(u32, u32)> = Vec::new();
        let ghost keys: Seq<u64> = self.cells.iter().remaining().unref();
        for k in it: self.cells.iter()
            invariant
                it.seq().unref() == keys,
                v@.len() == it.index(),
                forall|i: int| 0 <= i < v@.len() ==> v@[i] == cell_of(keys[i]),
        {
            assert(*it.seq()[it.index()] == keys[it.index()]);
            v.push(cell(*k));
        }
        proof {
            assert(keys.no_duplicates());
            assert(keys.to_set() == self.cells@);
            assert(v@.len() == keys.len());
            assert forall|i: int, j: int|
                0 <= i < v@.len() && 0 <= j < v@.len() && i != j implies v@[i] != v@[j] by {
                lemma_keys((0, 0), keys[i]);
                lemma_keys((0, 0), keys[j]);
            }
            assert forall|c: (u32, u32)| v@.to_set().contains(c) == self@.contains(c) by {
                lemma_keys(c, 0);
                if self@.contains(c) {
                    assert(keys.to_set().contains(key_of(c)));
                    let i = choose|i: int| 0 <= i < keys.len() && keys[i] == key_of(c);
                    assert(v@[i] == c);
                }
                if v@.to_set().contains(c) {
                    let i = choose|i: int| 0 <= i < v@.len() && v@[i] == c;
                    lemma_keys(c, keys[i]);
                    assert(keys.to_set().contains(keys[i]));
                }
            }
            assert(v@.to_set() =~= self@);
        }
        v
    }

    /// The view has as many elements as the table, and finitely many.
    proof fn lemma_view_len(&self)
        ensures
            self@.finite(),
            self@.len() == self.cells@.len(),
    {
        let keys = self.cells@;
        assert(keys.finite()) by {
            let listed: Seq<u64> = self.cells.iter().remaining().unref();
            assert(listed.to_set() == keys);
            vstd::seq_lib::seq_to_set_is_finite(listed);
        }
        let cells = keys.map(|k: u64| cell_of(k));
        assert(cells =~= self@) by {
            assert forall|c: (u32, u32)| cells.contains(c) == self@.contains(c) by {
                lemma_keys(c, 0);
                if self@.contains(c) {
                    assert(keys.contains(key_of(c)));
                }
                if cells.contains(c) {
                    let k = choose|k: u64| keys.contains(k) && cell_of(k) == c;
                    lemma_keys(c, k);
                }
            }
        }
        assert(vstd::relations::injective_on(|k: u64| cell_of(k), keys)) by {
            assert forall|k1: u64, k2: u64| cell_of(k1) == cell_of(k2) implies k1 == k2 by {
                lemma_keys((0, 0), k1);
                lemma_keys((0, 0), k2);
            }
        }
        vstd::set_lib::lemma_map_size(keys, cells, |k: u64| cell_of(k));
        keys.lemma_map_finite(|k: u64| cell_of(k));
    }
}

} // verus!
