//! Polylines: what the consolidation of a path keeps, a consolidated path
//! read as line segments, and the proofs that unfolding the segments of a
//! consolidated lattice path gives the path back and that no polyline for
//! the path has fewer points.

use crate::grid::adjacent;
use vstd::prelude::*;

verus! {

/// Whether the path turns at its inner point `i`: of the step into the point
/// and the step out of it, exactly one stays in its column.
pub open spec fn turns_at(path: Seq<(u32, u32)>, i: int) -> bool
    recommends
        1 <= i < path.len() - 1,
{
    (path[i].0 == path[i - 1].0) != (path[i + 1].0 == path[i].0)
}

/// The first point of the path, followed by the inner points before index
/// `n` at which the path turns.
pub open spec fn corners_before(path: Seq<(u32, u32)>, n: int) -> Seq<(u32, u32)>
    recommends
        1 <= n <= path.len() - 1,
    decreases n,
{
    if n <= 1 {
        seq![path[0]]
    } else if turns_at(path, n - 1) {
        corners_before(path, n - 1).push(path[n - 1])
    } else {
        corners_before(path, n - 1)
    }
}

/// The end points of the line segments that make up `path`: its first
/// point, the inner points at which it turns, and its last point, unless the
/// last point kept so far already equals it. A path of at most one point is
/// its own consolidation.
pub open spec fn consolidated(path: Seq<(u32, u32)>) -> Seq<(u32, u32)> {
    if path.len() <= 1 {
        path
    } else {
        let corners = corners_before(path, path.len() - 1);
        if corners.last() == path.last() {
            corners
        } else {
            corners.push(path.last())
        }
    }
}

/// The corners kept so far start with the first point of the path.
pub proof fn lemma_corners_nonempty(path: Seq<(u32, u32)>, n: int)
    ensures
        corners_before(path, n).len() >= 1,
        corners_before(path, n)[0] == path[0],
    decreases n,
{
    if n > 1 {
        lemma_corners_nonempty(path, n - 1);
    }
}

/// The cells passed on the straight way from `a` to `b`, without `a` and
/// with `b`. The two cells must share a column or a row.
pub open spec fn stretch(a: (u32, u32), b: (u32, u32)) -> Seq<(u32, u32)> {
    if a.0 == b.0 {
        if a.1 <= b.1 {
            Seq::new((b.1 - a.1) as nat, |i: int| (a.0, (a.1 + i + 1) as u32))
        } else {
            Seq::new((a.1 - b.1) as nat, |i: int| (a.0, (a.1 - i - 1) as u32))
        }
    } else if a.1 == b.1 {
        if a.0 <= b.0 {
            Seq::new((b.0 - a.0) as nat, |i: int| ((a.0 + i + 1) as u32, a.1))
        } else {
            Seq::new((a.0 - b.0) as nat, |i: int| ((a.0 - i - 1) as u32, a.1))
        }
    } else {
        Seq::empty()
    }
}

/// The cell-by-cell path that the polyline through the points of `points`
/// stands for: its first point, and then the cells of each segment in turn.
pub open spec fn unfolded(points: Seq<(u32, u32)>) -> Seq<(u32, u32)>
    decreases points.len(),
{
    if points.len() <= 1 {
        points
    } else {
        unfolded(points.drop_last()) + stretch(points[points.len() - 2], points.last())
    }
}

/// Whether the step that leads to the point at index `j` leads to an
/// adjacent cell.
pub open spec fn steps_on(path: Seq<(u32, u32)>, j: int) -> bool {
    adjacent(path[j - 1], path[j])
}

/// Whether the step that leaves the point at index `j` does not lead back
/// to where the path came from.
pub open spec fn keeps_on(path: Seq<(u32, u32)>, j: int) -> bool {
    path[j + 1] != path[j - 1]
}

/// Whether `path` is a lattice path that never steps straight back: each
/// step leads to an adjacent cell, and never to the cell before the last.
pub open spec fn lattice_path(path: Seq<(u32, u32)>) -> bool {
    &&& forall|j: int| 1 <= j < path.len() ==> #[trigger] steps_on(path, j)
    &&& forall|j: int| 1 <= j < path.len() - 1 ==> #[trigger] keeps_on(path, j)
}

/// The step that leads to the point at index `j`, as a difference of
/// columns and of rows.
pub open spec fn step_into(path: Seq<(u32, u32)>, j: int) -> (int, int) {
    (path[j].0 - path[j - 1].0, path[j].1 - path[j - 1].1)
}

/// Whether all steps from index `t` to index `n` go in one direction.
pub open spec fn straight(path: Seq<(u32, u32)>, t: int, n: int) -> bool {
    forall|j: int| t < j <= n ==> #[trigger] step_into(path, j) == step_into(path, t + 1)
}

/// The index of the last point kept among the first point and the inner
/// points before index `n`.
pub open spec fn last_corner(path: Seq<(u32, u32)>, n: int) -> int
    decreases n,
{
    if n <= 1 {
        0
    } else if turns_at(path, n - 1) {
        n - 1
    } else {
        last_corner(path, n - 1)
    }
}

/// `k` steps of length `d`, where `d` is `-1`, `0` or `1`.
pub open spec fn along(k: int, d: int) -> int {
    if d > 0 {
        k
    } else if d < 0 {
        -k
    } else {
        0
    }
}

/// On a straight run, the point at index `j` lies `j - t` steps from the
/// point at index `t`.
proof fn lemma_straight_at(path: Seq<(u32, u32)>, t: int, n: int, j: int)
    requires
        lattice_path(path),
        0 <= t <= j <= n < path.len(),
        straight(path, t, n),
    ensures
        path[j].0 == path[t].0 + along(j - t, step_into(path, t + 1).0),
        path[j].1 == path[t].1 + along(j - t, step_into(path, t + 1).1),
    decreases j - t,
{
    if j > t {
        lemma_straight_at(path, t, n, j - 1);
        assert(step_into(path, j) == step_into(path, t + 1));
        assert(steps_on(path, j));
    }
}

/// The cells of a straight run are the stretch between its end points.
proof fn lemma_stretch_of_run(path: Seq<(u32, u32)>, t: int, n: int)
    requires
        lattice_path(path),
        0 <= t < n < path.len(),
        straight(path, t, n),
    ensures
        stretch(path[t], path[n]) == path.subrange(t + 1, n + 1),
        path[t] != path[n],
{
    assert(steps_on(path, t + 1));
    lemma_straight_at(path, t, n, n);
    let s = stretch(path[t], path[n]);
    let r = path.subrange(t + 1, n + 1);
    assert(s.len() == r.len());
    assert forall|i: int| 0 <= i < s.len() implies s[i] == r[i] by {
        lemma_straight_at(path, t, n, t + 1 + i);
    }
    assert(s =~= r);
}

/// A path that does not turn at an inner point, and does not step back
/// there, goes on in the direction in which it came.
proof fn lemma_goes_on(path: Seq<(u32, u32)>, j: int)
    requires
        lattice_path(path),
        1 <= j < path.len() - 1,
        !turns_at(path, j),
    ensures
        step_into(path, j + 1) == step_into(path, j),
{
    assert(steps_on(path, j));
    assert(steps_on(path, j + 1));
    assert(keeps_on(path, j));
}

/// The corners kept before index `n` unfold to the path up to the last of
/// them, and from there to index `n` the path runs straight.
proof fn lemma_corners_unfold(path: Seq<(u32, u32)>, n: int)
    requires
        lattice_path(path),
        1 <= n <= path.len() - 1,
    ensures
        0 <= last_corner(path, n) < n,
        corners_before(path, n).len() >= 1,
        corners_before(path, n)[0] == path[0],
        corners_before(path, n).last() == path[last_corner(path, n)],
        unfolded(corners_before(path, n)) == path.subrange(0, last_corner(path, n) + 1),
        straight(path, last_corner(path, n), n),
    decreases n,
{
    lemma_corners_nonempty(path, n);
    if n <= 1 {
        assert(corners_before(path, n) =~= seq![path[0]]);
        assert(unfolded(corners_before(path, n)) =~= path.subrange(0, 1));
    } else {
        lemma_corners_unfold(path, n - 1);
        let t = last_corner(path, n - 1);
        let kept = corners_before(path, n - 1);
        if turns_at(path, n - 1) {
            let more = kept.push(path[n - 1]);
            assert(corners_before(path, n) == more);
            assert(more.drop_last() =~= kept);
            assert(more[more.len() - 2] == kept.last());
            lemma_stretch_of_run(path, t, n - 1);
            assert(unfolded(more) =~= path.subrange(0, n));
        } else {
            lemma_goes_on(path, n - 1);
            assert forall|j: int| t < j <= n implies #[trigger] step_into(path, j) == step_into(
                path,
                t + 1,
            ) by {
                if j == n {
                    assert(step_into(path, n - 1) == step_into(path, t + 1));
                }
            }
        }
    }
}

/// Round trip of consolidation: a lattice path that never steps straight
/// back is given back cell by cell when the segments of its consolidation
/// are unfolded, and the consolidation has the same first and last point.
pub proof fn lemma_consolidate_round_trip(path: Seq<(u32, u32)>)
    requires
        lattice_path(path),
    ensures
        unfolded(consolidated(path)) == path,
        path.len() >= 1 ==> consolidated(path).len() >= 1 && consolidated(path)[0] == path[0]
            && consolidated(path).last() == path.last(),
{
    if path.len() >= 2 {
        let n = path.len() - 1;
        lemma_corners_unfold(path, n);
        let t = last_corner(path, n);
        let kept = corners_before(path, n);
        lemma_stretch_of_run(path, t, n);
        let all = kept.push(path.last());
        assert(consolidated(path) == all);
        assert(all.drop_last() =~= kept);
        assert(all[all.len() - 2] == kept.last());
        assert(unfolded(all) =~= path);
    }
}

/// Whether each point of the polyline shares a column or a row with the
/// point before it, so that every segment runs along a column or a row.
pub open spec fn axis_aligned(points: Seq<(u32, u32)>) -> bool {
    forall|i: int|
        1 <= i < points.len() ==> points[i - 1].0 == (#[trigger] points[i]).0 || points[i - 1].1
            == points[i].1
}

/// The path that a polyline stands for begins with the first point of the
/// polyline and ends with its last.
proof fn lemma_unfolded_ends(points: Seq<(u32, u32)>)
    requires
        axis_aligned(points),
        points.len() >= 1,
    ensures
        unfolded(points).len() >= 1,
        unfolded(points)[0] == points[0],
        unfolded(points).last() == points.last(),
    decreases points.len(),
{
    if points.len() >= 2 {
        let rest = points.drop_last();
        assert forall|i: int| 1 <= i < rest.len() implies rest[i - 1].0 == (#[trigger] rest[i]).0
            || rest[i - 1].1 == rest[i].1 by {
            assert(rest[i] == points[i]);
            assert(rest[i - 1] == points[i - 1]);
        }
        lemma_unfolded_ends(rest);
        let a = points[points.len() - 2];
        let b = points.last();
        assert(rest.last() == a);
        assert(a.0 == b.0 || a.1 == b.1);
    }
}

/// A cell followed by the stretch from it to an aligned cell turns nowhere.
proof fn lemma_stretch_turns_nowhere(a: (u32, u32), b: (u32, u32), i: int)
    requires
        a.0 == b.0 || a.1 == b.1,
        1 <= i < (seq![a] + stretch(a, b)).len() - 1,
    ensures
        !turns_at(seq![a] + stretch(a, b), i),
{
    let w = seq![a] + stretch(a, b);
    assert(w[i - 1] == if i == 1 {
        a
    } else {
        stretch(a, b)[i - 2]
    });
    assert(w[i] == stretch(a, b)[i - 1]);
    assert(w[i + 1] == stretch(a, b)[i]);
}

/// The corners kept before index `n` depend on the path up to index `n`
/// only.
proof fn lemma_corners_of_prefix(p: Seq<(u32, u32)>, q: Seq<(u32, u32)>, n: int)
    requires
        1 <= n < p.len(),
        p.len() <= q.len(),
        forall|i: int| 0 <= i <= n ==> p[i] == q[i],
    ensures
        corners_before(p, n) == corners_before(q, n),
    decreases n,
{
    if n > 1 {
        lemma_corners_of_prefix(p, q, n - 1);
        assert(p[n - 2] == q[n - 2]);
        assert(p[n - 1] == q[n - 1]);
        assert(p[n] == q[n]);
    } else {
        assert(p[0] == q[0]);
    }
}

/// Where the path does not turn, no corner is kept.
proof fn lemma_no_more_corners(path: Seq<(u32, u32)>, m: int, n: int)
    requires
        1 <= m <= n,
        forall|i: int| m <= i < n ==> !#[trigger] turns_at(path, i),
    ensures
        corners_before(path, n) == corners_before(path, m),
    decreases n - m,
{
    if n > m {
        lemma_no_more_corners(path, m, n - 1);
        assert(!turns_at(path, n - 1));
    }
}

/// The path that a polyline stands for keeps at most one corner for each
/// inner point of the polyline.
proof fn lemma_unfolded_corners(points: Seq<(u32, u32)>)
    requires
        axis_aligned(points),
        points.len() >= 1,
    ensures
        unfolded(points).len() >= 2 ==> points.len() >= 2 && corners_before(
            unfolded(points),
            unfolded(points).len() - 1,
        ).len() + 1 <= points.len(),
    decreases points.len(),
{
    if points.len() >= 2 {
        let rest = points.drop_last();
        assert forall|i: int| 1 <= i < rest.len() implies rest[i - 1].0 == (#[trigger] rest[i]).0
            || rest[i - 1].1 == rest[i].1 by {
            assert(rest[i] == points[i]);
            assert(rest[i - 1] == points[i - 1]);
        }
        lemma_unfolded_corners(rest);
        lemma_unfolded_ends(rest);
        let a = points[points.len() - 2];
        let b = points.last();
        assert(rest.last() == a);
        assert(a.0 == b.0 || a.1 == b.1);
        let head = unfolded(rest);
        let tail = stretch(a, b);
        let whole = unfolded(points);
        assert(whole == head + tail);
        if tail.len() == 0 {
            assert(whole =~= head);
        } else {
            let j = head.len() - 1;
            let last = whole.len() - 1;
            lemma_corners_nonempty(whole, last);
            assert forall|i: int| j + 1 <= i < last implies !#[trigger] turns_at(whole, i) by {
                let w = seq![a] + tail;
                lemma_stretch_turns_nowhere(a, b, i - j);
                assert(whole[i - 1] == w[i - j - 1]);
                assert(whole[i] == w[i - j]);
                assert(whole[i + 1] == w[i - j + 1]);
            }
            if j == 0 {
                lemma_no_more_corners(whole, 1, last);
            } else {
                lemma_corners_of_prefix(head, whole, j);
                lemma_no_more_corners(whole, j + 1, last);
            }
        }
    }
}

/// The consolidation is as short as a polyline can be: no polyline with
/// segments along columns and rows that stands for a path has fewer points
/// than the consolidation of the path.
pub proof fn lemma_consolidation_is_shortest(path: Seq<(u32, u32)>, points: Seq<(u32, u32)>)
    requires
        axis_aligned(points),
        unfolded(points) == path,
    ensures
        consolidated(path).len() <= points.len(),
{
    if points.len() >= 1 {
        lemma_unfolded_corners(points);
        lemma_unfolded_ends(points);
    }
}

} // verus!
