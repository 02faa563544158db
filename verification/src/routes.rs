//! Chains of back-pointers: the path that a map of back-pointers describes
//! for a cell, and when following the back-pointers comes to an end.

use vstd::prelude::*;

verus! {

/// Whether following the back-pointers from `c` comes to rest within `n`
/// steps, at a cell that points to itself or at one that `paths` does not
/// hold.
pub open spec fn settles(paths: Map<(u32, u32), (u32, u32)>, c: (u32, u32), n: nat) -> bool
    decreases n,
{
    ||| !paths.contains_key(c)
    ||| paths[c] == c
    ||| n > 0 && settles(paths, paths[c], (n - 1) as nat)
}

/// The cells met when following the back-pointers from `c` for at most `n`
/// steps, listed from the far end back to `c`.
pub open spec fn trail(paths: Map<(u32, u32), (u32, u32)>, c: (u32, u32), n: nat) -> Seq<
    (u32, u32),
>
    decreases n,
{
    if n == 0 || !paths.contains_key(c) || paths[c] == c {
        seq![c]
    } else {
        trail(paths, paths[c], (n - 1) as nat).push(c)
    }
}

/// Whether the chain of back-pointers that starts at `c` is finite.
pub open spec fn comes_to_rest(paths: Map<(u32, u32), (u32, u32)>, c: (u32, u32)) -> bool {
    exists|n: nat| settles(paths, c, n)
}

/// The path that the back-pointers describe for `dest`: empty if `paths`
/// does not hold `dest`, otherwise the chain of back-pointers from `dest`,
/// listed from its far end to `dest`.
pub open spec fn route(paths: Map<(u32, u32), (u32, u32)>, dest: (u32, u32)) -> Seq<(u32, u32)> {
    if !paths.contains_key(dest) {
        Seq::empty()
    } else {
        trail(paths, dest, choose|n: nat| settles(paths, dest, n))
    }
}

/// Once a chain has come to rest, more steps do not change its trail.
pub proof fn lemma_trail_settled(
    paths: Map<(u32, u32), (u32, u32)>,
    c: (u32, u32),
    n: nat,
    m: nat,
)
    requires
        settles(paths, c, n),
        settles(paths, c, m),
    ensures
        trail(paths, c, n) == trail(paths, c, m),
    decreases n,
{
    if !paths.contains_key(c) || paths[c] == c {
    } else {
        lemma_trail_settled(paths, paths[c], (n - 1) as nat, (m - 1) as nat);
    }
}

/// The route of a cell that `paths` holds is its trail, for any number of
/// steps within which the chain comes to rest.
pub proof fn lemma_route_is_trail(paths: Map<(u32, u32), (u32, u32)>, dest: (u32, u32), n: nat)
    requires
        paths.contains_key(dest),
        settles(paths, dest, n),
    ensures
        route(paths, dest) == trail(paths, dest, n),
{
    let m = choose|m: nat| settles(paths, dest, m);
    lemma_trail_settled(paths, dest, m, n);
}

/// The cell reached from `c` by following `k` back-pointers.
pub open spec fn hop(paths: Map<(u32, u32), (u32, u32)>, c: (u32, u32), k: nat) -> (u32, u32)
    decreases k,
{
    if k == 0 {
        c
    } else {
        hop(paths, paths[c], (k - 1) as nat)
    }
}

/// Whether the chain of back-pointers goes on at `c`: `paths` holds `c`, and
/// `c` does not point to itself.
pub open spec fn moves_on(paths: Map<(u32, u32), (u32, u32)>, c: (u32, u32)) -> bool {
    paths.contains_key(c) && paths[c] != c
}

/// One more back-pointer leads from the cell `k` hops on to the next.
pub proof fn lemma_hop_next(paths: Map<(u32, u32), (u32, u32)>, c: (u32, u32), k: nat)
    ensures
        hop(paths, c, k + 1) == paths[hop(paths, c, k)],
    decreases k,
{
    assert(hop(paths, c, k + 1) == hop(paths, paths[c], k));
    if k > 0 {
        lemma_hop_next(paths, paths[c], (k - 1) as nat);
        assert(hop(paths, c, k) == hop(paths, paths[c], (k - 1) as nat));
    } else {
        assert(hop(paths, paths[c], 0) == paths[c]);
        assert(hop(paths, c, 0) == c);
    }
}

/// Hopping `i` times and then `k` times is hopping `i + k` times.
pub proof fn lemma_hop_add(paths: Map<(u32, u32), (u32, u32)>, c: (u32, u32), i: nat, k: nat)
    ensures
        hop(paths, c, i + k) == hop(paths, hop(paths, c, i), k),
    decreases i,
{
    if i > 0 {
        lemma_hop_add(paths, paths[c], (i - 1) as nat, k);
    }
}

/// A chain that goes on at each of its first `k` cells, and comes to rest
/// within `n` steps, takes at least `k` of them, and what is left of it
/// comes to rest within the remaining steps.
pub proof fn lemma_settles_after(paths: Map<(u32, u32), (u32, u32)>, c: (u32, u32), k: nat, n: nat)
    requires
        forall|i: nat| i < k ==> moves_on(paths, #[trigger] hop(paths, c, i)),
        settles(paths, c, n),
    ensures
        n >= k,
        settles(paths, hop(paths, c, k), (n - k) as nat),
    decreases k,
{
    if k > 0 {
        assert(moves_on(paths, hop(paths, c, 0)));
        assert forall|i: nat| i < k - 1 implies moves_on(
            paths,
            #[trigger] hop(paths, paths[c], i),
        ) by {
            assert(hop(paths, c, i + 1) == hop(paths, paths[c], i));
            assert(moves_on(paths, hop(paths, c, i + 1)));
        }
        lemma_settles_after(paths, paths[c], (k - 1) as nat, (n - 1) as nat);
    }
}

/// A chain whose cell `k` hops on does not go on comes to rest within `k`
/// steps.
pub proof fn lemma_settles_at(paths: Map<(u32, u32), (u32, u32)>, c: (u32, u32), k: nat)
    requires
        !moves_on(paths, hop(paths, c, k)),
    ensures
        settles(paths, c, k),
    decreases k,
{
    if k > 0 && moves_on(paths, c) {
        lemma_settles_at(paths, paths[c], (k - 1) as nat);
    }
}

/// A chain that comes back to its first cell after going on `p` times never
/// comes to rest.
pub proof fn lemma_round_never_rests(
    paths: Map<(u32, u32), (u32, u32)>,
    d: (u32, u32),
    p: nat,
    m: nat,
)
    requires
        p > 0,
        hop(paths, d, p) == d,
        forall|i: nat| i < p ==> moves_on(paths, #[trigger] hop(paths, d, i)),
    ensures
        !settles(paths, d, m),
    decreases m,
{
    if settles(paths, d, m) {
        lemma_settles_after(paths, d, p, m);
        lemma_round_never_rests(paths, d, p, (m - p) as nat);
    }
}

/// A chain that goes on at each of its first `j` cells and meets one of them
/// twice never comes to rest.
pub proof fn lemma_loop_never_rests(
    paths: Map<(u32, u32), (u32, u32)>,
    c: (u32, u32),
    i: nat,
    j: nat,
    n: nat,
)
    requires
        i < j,
        hop(paths, c, i) == hop(paths, c, j),
        forall|k: nat| k < j ==> moves_on(paths, #[trigger] hop(paths, c, k)),
    ensures
        !settles(paths, c, n),
{
    if settles(paths, c, n) {
        let d = hop(paths, c, i);
        let p = (j - i) as nat;
        lemma_settles_after(paths, c, i, n);
        lemma_hop_add(paths, c, i, p);
        assert forall|k: nat| k < p implies moves_on(paths, #[trigger] hop(paths, d, k)) by {
            lemma_hop_add(paths, c, i, k);
            assert(moves_on(paths, hop(paths, c, i + k)));
        }
        lemma_round_never_rests(paths, d, p, (n - i) as nat);
    }
}

/// A chain that goes on at more cells than `paths` holds never comes to
/// rest: it meets one of them twice.
pub proof fn lemma_long_chain_never_rests(
    paths: Map<(u32, u32), (u32, u32)>,
    c: (u32, u32),
    len: nat,
    n: nat,
)
    requires
        paths.dom().finite(),
        len > paths.dom().len(),
        forall|k: nat| k < len ==> moves_on(paths, #[trigger] hop(paths, c, k)),
    ensures
        !settles(paths, c, n),
{
    let met = Seq::new(len, |k: int| hop(paths, c, k as nat));
    if met.no_duplicates() {
        met.unique_seq_to_set();
        assert(met.to_set().subset_of(paths.dom())) by {
            assert forall|x: (u32, u32)| met.to_set().contains(x) implies paths.dom().contains(
                x,
            ) by {
                let k = choose|k: int| 0 <= k < met.len() && met[k] == x;
                assert(moves_on(paths, hop(paths, c, k as nat)));
            }
        }
        vstd::set_lib::lemma_len_subset(met.to_set(), paths.dom());
    } else {
        let (a, b) = choose|a: int, b: int|
            0 <= a < met.len() && 0 <= b < met.len() && a != b && met[a] == met[b];
        if a < b {
            assert forall|k: nat| k < b implies moves_on(paths, #[trigger] hop(paths, c, k)) by {}
            lemma_loop_never_rests(paths, c, a as nat, b as nat, n);
        } else {
            assert forall|k: nat| k < a implies moves_on(paths, #[trigger] hop(paths, c, k)) by {}
            lemma_loop_never_rests(paths, c, b as nat, a as nat, n);
        }
    }
}

/// Whether `cur` is the cell `steps` hops on from `dest`, and the chain goes
/// on at every cell before it.
#[verifier::opaque]
pub closed spec fn followed(
    paths: Map<(u32, u32), (u32, u32)>,
    dest: (u32, u32),
    steps: nat,
    cur: (u32, u32),
) -> bool {
    &&& cur == hop(paths, dest, steps)
    &&& forall|k: nat| k < steps ==> moves_on(paths, #[trigger] hop(paths, dest, k))
}

/// Before any step the chain has been followed to its first cell.
pub proof fn lemma_followed_start(paths: Map<(u32, u32), (u32, u32)>, dest: (u32, u32))
    ensures
        followed(paths, dest, 0, dest),
{
    reveal(followed);
}

/// Where the followed chain goes on, it can be followed one step more.
pub proof fn lemma_followed_next(
    paths: Map<(u32, u32), (u32, u32)>,
    dest: (u32, u32),
    steps: nat,
    cur: (u32, u32),
)
    requires
        followed(paths, dest, steps, cur),
        moves_on(paths, cur),
    ensures
        followed(paths, dest, steps + 1, paths[cur]),
{
    reveal(followed);
    lemma_hop_next(paths, dest, steps);
}

/// Where the followed chain does not go on, it has come to rest.
pub proof fn lemma_followed_rest(
    paths: Map<(u32, u32), (u32, u32)>,
    dest: (u32, u32),
    steps: nat,
    cur: (u32, u32),
)
    requires
        followed(paths, dest, steps, cur),
        !moves_on(paths, cur),
    ensures
        comes_to_rest(paths, dest),
{
    reveal(followed);
    lemma_settles_at(paths, dest, steps);
}

/// A chain that still goes on after as many steps as `paths` holds cells
/// never comes to rest.
pub proof fn lemma_followed_long(
    paths: Map<(u32, u32), (u32, u32)>,
    dest: (u32, u32),
    steps: nat,
    cur: (u32, u32),
)
    requires
        followed(paths, dest, steps, cur),
        moves_on(paths, cur),
        paths.dom().finite(),
        steps >= paths.dom().len(),
    ensures
        !comes_to_rest(paths, dest),
{
    reveal(followed);
    assert forall|n: nat| !settles(paths, dest, n) by {
        lemma_long_chain_never_rests(paths, dest, steps + 1, n);
    }
}

} // verus!
