//! The frontier of the search: the cells that have a price but have not been
//! expanded yet, handed out cheapest first.

use crate::cost::Cost;
use std::cmp::Ordering;
use vstd::multiset::Multiset;
use vstd::prelude::*;

verus! {

/// Whether an entry at distance `a_dist` (in halves) for cell `a` leaves the
/// frontier before one at distance `b_dist` for cell `b`: the cheaper entry
/// goes first, and of two equally cheap entries the one whose cell is the
/// greater pair `(x, y)`.
pub open spec fn pops_before(a_dist: int, a: (u32, u32), b_dist: int, b: (u32, u32)) -> bool {
    a_dist < b_dist || (a_dist == b_dist && (a.0 > b.0 || (a.0 == b.0 && a.1 > b.1)))
}

/// The order in which entries leave the frontier is a strict total order.
pub proof fn lemma_pops_before_order(
    a_dist: int,
    a: (u32, u32),
    b_dist: int,
    b: (u32, u32),
    c_dist: int,
    c: (u32, u32),
)
    ensures
        !pops_before(a_dist, a, a_dist, a),
        pops_before(a_dist, a, b_dist, b) ==> !pops_before(b_dist, b, a_dist, a),
        pops_before(a_dist, a, b_dist, b) && pops_before(b_dist, b, c_dist, c) ==> pops_before(
            a_dist,
            a,
            c_dist,
            c,
        ),
        pops_before(a_dist, a, b_dist, b) || pops_before(b_dist, b, a_dist, a) || (a_dist == b_dist
            && a == b),
        pops_before(a_dist, a, c_dist, c) ==> pops_before(a_dist, a, b_dist, b) || pops_before(
            b_dist,
            b,
            c_dist,
            c,
        ),
{
}

/// An entry of the frontier: a cell and the price at which it was reached.
#[derive(Copy, Clone, Eq, PartialEq, Debug)]
pub struct DaState {
    pub dist: Cost,
    pub pos: (u32, u32),
}

impl DaState {
    /// Whether the price of the entry is a well-formed cost.
    pub open spec fn wf(self) -> bool {
        self.dist.wf()
    }

    /// Whether this entry leaves the frontier before `other`.
    pub open spec fn outranks(self, other: DaState) -> bool {
        pops_before(self.dist.halves(), self.pos, other.dist.halves(), other.pos)
    }

    /// The entry for cell `pos` at price `dist`.
    pub fn new(dist: Cost, pos: (u32, u32)) -> (s: Self)
        ensures
            s == (DaState { dist, pos }),
    {
        DaState { dist, pos }
    }

    /// Orders entries so that the greatest is the one to leave the frontier
    /// first: the order of the prices is reversed, and equal prices are
    /// ordered by cell.
    pub fn cmp(&self, other: &DaState) -> (r: Ordering)
        requires
            self.wf(),
            other.wf(),
        ensures
            (r == Ordering::Greater) == self.outranks(*other),
            (r == Ordering::Less) == other.outranks(*self),
    {
        if self.dist.lt(&other.dist) {
            Ordering::Greater
        } else if other.dist.lt(&self.dist) {
            Ordering::Less
        } else if self.pos.0 > other.pos.0 {
            Ordering::Greater
        } else if self.pos.0 < other.pos.0 {
            Ordering::Less
        } else if self.pos.1 > other.pos.1 {
            Ordering::Greater
        } else if self.pos.1 < other.pos.1 {
            Ordering::Less
        } else {
            Ordering::Equal
        }
    }

    /// Whether this entry leaves the frontier before `other`.
    pub fn precedes(&self, other: &DaState) -> (r: bool)
        requires
            self.wf(),
            other.wf(),
        ensures
            r == self.outranks(*other),
    {
        match self.cmp(other) {
            Ordering::Greater => true,
            _ => false,
        }
    }
}

/// The index of the entry above the entry at index `i` of a heap.
spec fn parent(i: int) -> int {
    (i - 1) / 2
}

/// Whether the entry at index `i` does not outrank the entry at index `a`.
spec fn junior(s: Seq<DaState>, i: int, a: int) -> bool {
    !s[i].outranks(s[a])
}

/// Whether the entry at index `i` does not outrank the entry above it.
spec fn under(s: Seq<DaState>, i: int) -> bool {
    junior(s, i, parent(i))
}

/// Whether the entries form a heap: none outranks the entry above it.
spec fn heaped(s: Seq<DaState>) -> bool {
    forall|i: int| 1 <= i < s.len() ==> #[trigger] under(s, i)
}

/// Whether the entries form a heap but for the entry at index `k`, which may
/// outrank the entry above it, though the entries below it do not outrank
/// that one either.
spec fn heaped_but(s: Seq<DaState>, k: int) -> bool {
    &&& forall|i: int| 1 <= i < s.len() && i != k ==> #[trigger] under(s, i)
    &&& k > 0 ==> forall|i: int|
        1 <= i < s.len() && parent(i) == k ==> #[trigger] junior(s, i, parent(k))
}

/// Whether the entries form a heap but for the entries below index `k`,
/// which may outrank the entry at `k`, though they do not outrank the entry
/// above it.
spec fn heaped_below(s: Seq<DaState>, k: int) -> bool {
    &&& forall|i: int| 1 <= i < s.len() && parent(i) != k ==> #[trigger] under(s, i)
    &&& k > 0 ==> forall|i: int|
        1 <= i < s.len() && parent(i) == k ==> #[trigger] junior(s, i, parent(k))
}

/// Whether every entry has a well-formed price.
spec fn all_wf(s: Seq<DaState>) -> bool {
    forall|i: int| 0 <= i < s.len() ==> (#[trigger] s[i]).wf()
}

/// Of the entries `a`, `b` and `c`: if `a` does not outrank `b`, and `b` does
/// not outrank `c`, then `a` does not outrank `c`.
proof fn lemma_junior_chain(a: DaState, b: DaState, c: DaState)
    requires
        !a.outranks(b),
        !b.outranks(c),
    ensures
        !a.outranks(c),
{
    lemma_pops_before_order(a.dist.halves(), a.pos, b.dist.halves(), b.pos, c.dist.halves(), c.pos);
}

/// No entry of a heap outranks its first.
proof fn lemma_first_leads(s: Seq<DaState>, i: int)
    requires
        heaped(s),
        0 <= i < s.len(),
    ensures
        !s[i].outranks(s[0]),
    decreases i,
{
    if i > 0 {
        assert(under(s, i));
        lemma_first_leads(s, parent(i));
        lemma_junior_chain(s[i], s[parent(i)], s[0]);
    } else {
        lemma_pops_before_order(
            s[0].dist.halves(),
            s[0].pos,
            s[0].dist.halves(),
            s[0].pos,
            s[0].dist.halves(),
            s[0].pos,
        );
    }
}

/// The entries with those at `i` and `j` exchanged.
spec fn exchanged(s: Seq<DaState>, i: int, j: int) -> Seq<DaState> {
    s.update(i, s[j]).update(j, s[i])
}

/// Exchanging two entries leaves the multiset of the entries as it is.
proof fn lemma_exchange_same_entries(s: Seq<DaState>, i: int, j: int)
    requires
        0 <= i < s.len(),
        0 <= j < s.len(),
    ensures
        exchanged(s, i, j).to_multiset() == s.to_multiset(),
        exchanged(s, i, j).len() == s.len(),
        all_wf(s) ==> all_wf(exchanged(s, i, j)),
{
    broadcast use vstd::seq_lib::group_to_multiset_ensures;

    let s1 = s.update(i, s[j]);
    vstd::seq_lib::to_multiset_update(s, i, s[j]);
    vstd::seq_lib::to_multiset_update(s1, j, s[i]);
    assert(s.to_multiset().count(s[i]) > 0) by {
        assert(s.contains(s[i]));
    }
    assert(s.to_multiset().count(s[j]) > 0) by {
        assert(s.contains(s[j]));
    }
    assert(exchanged(s, i, j).to_multiset() =~= s.to_multiset());
}

/// A step up: where the entry at `k` outranks the entry above it, the two
/// are exchanged, and the heap is then in order but for the place above.
proof fn lemma_step_up(s: Seq<DaState>, k: int)
    requires
        0 < k < s.len(),
        heaped_but(s, k),
        s[k].outranks(s[parent(k)]),
    ensures
        heaped_but(exchanged(s, k, parent(k)), parent(k)),
{
    let p = parent(k);
    let t = exchanged(s, k, p);
    let lifted = s[k];
    let lowered = s[p];
    lemma_pops_before_order(
        lifted.dist.halves(),
        lifted.pos,
        lowered.dist.halves(),
        lowered.pos,
        lowered.dist.halves(),
        lowered.pos,
    );
    assert forall|i: int| 1 <= i < t.len() && i != p implies #[trigger] under(t, i) by {
        if i == k {
        } else if parent(i) == k {
            assert(junior(s, i, parent(k)));
        } else if parent(i) == p {
            assert(under(s, i));
            if s[i].outranks(lifted) {
                lemma_pops_before_order(
                    s[i].dist.halves(),
                    s[i].pos,
                    lowered.dist.halves(),
                    lowered.pos,
                    lifted.dist.halves(),
                    lifted.pos,
                );
            }
        } else {
            assert(under(s, i));
        }
    }
    if p > 0 {
        assert forall|i: int| 1 <= i < t.len() && parent(i) == p implies #[trigger] junior(
            t,
            i,
            parent(p),
        ) by {
            assert(under(s, p));
            if i == k {
            } else {
                assert(under(s, i));
                lemma_junior_chain(s[i], lowered, s[parent(p)]);
            }
        }
    }
}

/// A step down: where the entry at `c`, the leading one of the entries below
/// `k`, outranks the entry at `k`, the two are exchanged, and the heap is
/// then in order but for the entries below `c`.
proof fn lemma_step_down(s: Seq<DaState>, k: int, c: int)
    requires
        0 <= k < c < s.len(),
        parent(c) == k,
        heaped_below(s, k),
        s[c].outranks(s[k]),
        forall|i: int| 1 <= i < s.len() && parent(i) == k ==> #[trigger] junior(s, i, c),
    ensures
        heaped_below(exchanged(s, k, c), c),
{
    let t = exchanged(s, k, c);
    let lifted = s[c];
    let lowered = s[k];
    lemma_pops_before_order(
        lifted.dist.halves(),
        lifted.pos,
        lowered.dist.halves(),
        lowered.pos,
        lowered.dist.halves(),
        lowered.pos,
    );
    assert forall|i: int| 1 <= i < t.len() && parent(i) != c implies #[trigger] under(t, i) by {
        if i == c {
        } else if parent(i) == k {
            assert(junior(s, i, c));
        } else if i == k {
            assert(junior(s, c, parent(k)));
        } else {
            assert(under(s, i));
        }
    }
    assert forall|i: int| 1 <= i < t.len() && parent(i) == c implies #[trigger] junior(
        t,
        i,
        parent(c),
    ) by {
        assert(under(s, i));
    }
}

/// Where no entry below `k` outranks the entry at `k`, a heap that is in
/// order but for the entries below `k` is in order.
proof fn lemma_settled_down(s: Seq<DaState>, k: int)
    requires
        heaped_below(s, k),
        forall|i: int| 1 <= i < s.len() && parent(i) == k ==> #[trigger] under(s, i),
    ensures
        heaped(s),
{
}

/// A priority queue of entries, kept as a binary heap. It hands out the
/// entry that outranks all others; entries may be added in any order.
pub struct Frontier {
    entries: Vec<DaState>,
}

impl View for Frontier {
    type V = Multiset<DaState>;

    closed spec fn view(&self) -> Multiset<DaState> {
        self.entries@.to_multiset()
    }
}

impl Frontier {
    /// The invariant of the queue: every entry has a well-formed price, and
    /// no entry outranks the entry above it in the heap.
    pub closed spec fn wf(&self) -> bool {
        all_wf(self.entries@) && heaped(self.entries@)
    }

    /// The empty frontier.
    pub fn new() -> (f: Self)
        ensures
            f.wf(),
            f@ == Multiset::<DaState>::empty(),
    {
        let f = Frontier { entries: Vec::new() };
        proof {
            broadcast use vstd::seq_lib::group_to_multiset_ensures;

            assert(f@.len() == 0);
            assert(f@ =~= Multiset::<DaState>::empty());
        }
        f
    }

    /// Whether no entry is waiting.
    pub fn is_empty(&self) -> (r: bool)
        ensures
            r == (self@.len() == 0),
    {
        proof {
            broadcast use vstd::seq_lib::group_to_multiset_ensures;

        }
        self.entries.len() == 0
    }

    /// Exchanges the entries at `i` and `j`.
    fn exchange(&mut self, i: usize, j: usize)
        requires
            i < old(self).entries@.len(),
            j < old(self).entries@.len(),
        ensures
            final(self).entries@ == exchanged(old(self).entries@, i as int, j as int),
    {
        let a = self.entries[i];
        let b = self.entries[j];
        self.entries.set(i, b);
        self.entries.set(j, a);
    }

    /// Adds an entry.
    pub fn push(&mut self, entry: DaState)
        requires
            old(self).wf(),
            entry.wf(),
        ensures
            final(self).wf(),
            final(self)@ == old(self)@.insert(entry),
    {
        proof {
            broadcast use vstd::seq_lib::group_to_multiset_ensures;

        }
        self.entries.push(entry);
        let mut k: usize = self.entries.len() - 1;
        assert(heaped_but(self.entries@, k as int)) by {
            assert forall|i: int| 1 <= i < self.entries@.len() && i != k implies #[trigger] under(
                self.entries@,
                i,
            ) by {
                assert(under(old(self).entries@, i));
            }
        }
        while k > 0 && self.entries[k].precedes(&self.entries[(k - 1) / 2])
            invariant
                k < self.entries@.len(),
                all_wf(self.entries@),
                heaped_but(self.entries@, k as int),
                self.entries@.to_multiset() == old(self)@.insert(entry),
            decreases k,
        {
            let up = (k - 1) / 2;
            proof {
                lemma_step_up(self.entries@, k as int);
                lemma_exchange_same_entries(self.entries@, k as int, up as int);
            }
            self.exchange(k, up);
            k = up;
        }
        assert(heaped(self.entries@)) by {
            assert forall|i: int| 1 <= i < self.entries@.len() implies #[trigger] under(
                self.entries@,
                i,
            ) by {
                if i != k {
                    assert(under(self.entries@, i));
                }
            }
        }
    }

    /// Takes out the entry that outranks all others, if there is any entry.
    pub fn pop(&mut self) -> (r: Option<DaState>)
        requires
            old(self).wf(),
        ensures
            final(self).wf(),
            match r {
                Some(entry) => {
                    &&& entry.wf()
                    &&& old(self)@.contains(entry)
                    &&& final(self)@ == old(self)@.remove(entry)
                    &&& forall|other: DaState|
                        old(self)@.contains(other) ==> !#[trigger] other.outranks(entry)
                },
                None => old(self)@.len() == 0 && final(self)@ == old(self)@,
            },
    {
        proof {
            broadcast use vstd::seq_lib::group_to_multiset_ensures;

        }
        if self.entries.len() == 0 {
            return None;
        }
        let ghost before = self.entries@;
        let entry = self.entries.swap_remove(0);
        proof {
            assert(before.contains(entry));
            assert forall|other: DaState| old(self)@.contains(other) implies !(
            #[trigger] other.outranks(entry)) by {
                assert(before.contains(other));
                let j = choose|j: int| 0 <= j < before.len() && before[j] == other;
                lemma_first_leads(before, j);
            }
            let moved = before.update(0, before.last());
            vstd::seq_lib::to_multiset_update(before, 0, before.last());
            assert(self.entries@ == moved.remove(moved.len() - 1));
            assert(before.to_multiset().count(before.last()) > 0) by {
                assert(before.contains(before.last()));
            }
            assert(self.entries@.to_multiset() =~= before.to_multiset().remove(entry));
            assert forall|i: int| 0 <= i < self.entries@.len() implies (
            #[trigger] self.entries@[i]).wf() by {
                if i == 0 {
                    assert(self.entries@[i] == before.last());
                } else {
                    assert(self.entries@[i] == before[i]);
                }
            }
            assert(heaped_below(self.entries@, 0)) by {
                assert forall|i: int|
                    1 <= i < self.entries@.len() && parent(i) != 0 implies #[trigger] under(
                    self.entries@,
                    i,
                ) by {
                    assert(under(before, i));
                }
            }
        }
        let n = self.entries.len();
        let mut k: usize = 0;
        loop
            invariant
                n == self.entries@.len(),
                k < n || n == 0,
                all_wf(self.entries@),
                heaped_below(self.entries@, k as int),
                self.entries@.to_multiset() == old(self)@.remove(entry),
            ensures
                n == self.entries@.len(),
                all_wf(self.entries@),
                heaped(self.entries@),
                self.entries@.to_multiset() == old(self)@.remove(entry),
            decreases n - k,
        {
            if n < 2 || k > (n - 2) / 2 {
                proof {
                    lemma_settled_down(self.entries@, k as int);
                }
                break ;
            }
            let mut c: usize = 2 * k + 1;
            if c + 1 < n && self.entries[c + 1].precedes(&self.entries[c]) {
                c = c + 1;
            }
            proof {
                let s = self.entries@;
                assert forall|i: int| 1 <= i < s.len() && parent(i) == k implies #[trigger] junior(
                    s,
                    i,
                    c as int,
                ) by {
                    lemma_pops_before_order(
                        s[i].dist.halves(),
                        s[i].pos,
                        s[c as int].dist.halves(),
                        s[c as int].pos,
                        s[i].dist.halves(),
                        s[i].pos,
                    );
                }
            }
            if !self.entries[c].precedes(&self.entries[k]) {
                proof {
                    let s = self.entries@;
                    assert forall|i: int|
                        1 <= i < s.len() && parent(i) == k implies #[trigger] under(s, i) by {
                        assert(junior(s, i, c as int));
                        lemma_junior_chain(s[i], s[c as int], s[k as int]);
                    }
                    lemma_settled_down(s, k as int);
                }
                break ;
            }
            proof {
                lemma_step_down(self.entries@, k as int, c as int);
                lemma_exchange_same_entries(self.entries@, k as int, c as int);
            }
            self.exchange(k, c);
            k = c;
        }
        Some(entry)
    }
}

} // verus!
