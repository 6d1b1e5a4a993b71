//! The mathematical model shared by both index variants: the implicit
//! balanced-tree layout invariant, and the multiset of hits a radius query
//! must return.
//!
//! Every spec here is stated over a sequence of points `pts` (for the
//! borrowing variant, the borrowed points read through the reordered
//! permutation) together with a parallel sequence `items` of the values a
//! query reports: the points themselves, positions, or borrowed-slice
//! indices.

use vstd::prelude::*;

use vstd::multiset::Multiset;

use crate::geom::within_eps;

verus! {

/// The axis used one level below a subtree keyed on `axis`.
pub open spec fn next_axis(axis: int, dim: int) -> int {
    if axis + 1 == dim {
        0
    } else {
        axis + 1
    }
}

/// The middle position of the range `[lo, hi)`: the root of its implicit
/// subtree.
pub open spec fn mid(lo: int, hi: int) -> int {
    lo + (hi - lo) / 2
}

/// The implicit balanced-tree layout over `pts[lo..hi]`, keyed on `axis`:
/// the median element is largest on `axis` among the left half and smallest
/// among the right half (ties may fall on either side), and both halves are
/// laid out recursively on the next axis.
pub open spec fn layout_ok(pts: Seq<Seq<i64>>, dim: int, lo: int, hi: int, axis: int) -> bool
    decreases hi - lo,
{
    hi - lo <= 1 || {
        let m = mid(lo, hi);
        &&& forall|j: int| lo <= j < m ==> #[trigger] pts[j][axis] <= pts[m][axis]
        &&& forall|j: int| m < j < hi ==> #[trigger] pts[j][axis] >= pts[m][axis]
        &&& layout_ok(pts, dim, lo, m, next_axis(axis, dim))
        &&& layout_ok(pts, dim, m + 1, hi, next_axis(axis, dim))
    }
}

/// The layout invariant only reads `pts[lo..hi]`.
pub proof fn lemma_layout_frame(pts1: Seq<Seq<i64>>, pts2: Seq<Seq<i64>>, dim: int, lo: int, hi: int, axis: int)
    requires
        layout_ok(pts1, dim, lo, hi, axis),
        forall|j: int| lo <= j < hi ==> pts1[j] == #[trigger] pts2[j],
    ensures
        layout_ok(pts2, dim, lo, hi, axis),
    decreases hi - lo,
{
    if hi - lo > 1 {
        let m = mid(lo, hi);
        lemma_layout_frame(pts1, pts2, dim, lo, m, next_axis(axis, dim));
        lemma_layout_frame(pts1, pts2, dim, m + 1, hi, next_axis(axis, dim));
    }
}

/// The multiset of reported values for a radius query scanning `[lo, hi)`:
/// `items[j]` is reported exactly when `pts[j]` lies within radius `eps` of
/// the query point `q`.
pub open spec fn hits<A>(items: Seq<A>, pts: Seq<Seq<i64>>, q: Seq<i64>, eps: int, lo: int, hi: int) -> Multiset<A>
    decreases hi - lo,
{
    if hi <= lo {
        Multiset::empty()
    } else if within_eps(pts[hi - 1], q, eps) {
        hits(items, pts, q, eps, lo, hi - 1).insert(items[hi - 1])
    } else {
        hits(items, pts, q, eps, lo, hi - 1)
    }
}

/// The number of points of `pts[lo..hi]` within radius `eps` of `q`.
pub open spec fn hit_count(pts: Seq<Seq<i64>>, q: Seq<i64>, eps: int, lo: int, hi: int) -> int {
    hits(pts, pts, q, eps, lo, hi).len() as int
}

/// A query over `[lo, hi)` reports at most `hi - lo` values.
pub proof fn lemma_hits_len<A>(items: Seq<A>, pts: Seq<Seq<i64>>, q: Seq<i64>, eps: int, lo: int, hi: int)
    ensures
        hits(items, pts, q, eps, lo, hi).len() <= if hi >= lo {
            hi - lo
        } else {
            0
        },
    decreases hi - lo,
{
    if hi > lo {
        lemma_hits_len(items, pts, q, eps, lo, hi - 1);
    }
}

/// Scanning `[lo, hi)` reports the hits of `[lo, m)` and those of `[m, hi)`.
pub proof fn lemma_hits_split<A>(items: Seq<A>, pts: Seq<Seq<i64>>, q: Seq<i64>, eps: int, lo: int, m: int, hi: int)
    requires
        lo <= m <= hi,
    ensures
        hits(items, pts, q, eps, lo, hi) =~= hits(items, pts, q, eps, lo, m).add(
            hits(items, pts, q, eps, m, hi),
        ),
    decreases hi - m,
{
    if m < hi {
        lemma_hits_split(items, pts, q, eps, lo, m, hi - 1);
    }
}

/// A range none of whose points lies within the radius reports nothing.
pub proof fn lemma_hits_none<A>(items: Seq<A>, pts: Seq<Seq<i64>>, q: Seq<i64>, eps: int, lo: int, hi: int)
    requires
        forall|j: int| lo <= j < hi ==> !within_eps(#[trigger] pts[j], q, eps),
    ensures
        hits(items, pts, q, eps, lo, hi) =~= Multiset::empty(),
    decreases hi - lo,
{
    if hi > lo {
        lemma_hits_none(items, pts, q, eps, lo, hi - 1);
    }
}

/// The hits of `[lo, hi)` only read `items[lo..hi]` and `pts[lo..hi]`.
pub proof fn lemma_hits_frame<A>(
    items1: Seq<A>,
    pts1: Seq<Seq<i64>>,
    items2: Seq<A>,
    pts2: Seq<Seq<i64>>,
    q: Seq<i64>,
    eps: int,
    lo: int,
    hi: int,
)
    requires
        forall|j: int| lo <= j < hi ==> pts1[j] == #[trigger] pts2[j],
        forall|j: int| lo <= j < hi ==> items1[j] == #[trigger] items2[j],
    ensures
        hits(items1, pts1, q, eps, lo, hi) == hits(items2, pts2, q, eps, lo, hi),
    decreases hi - lo,
{
    if hi > lo {
        lemma_hits_frame(items1, pts1, items2, pts2, q, eps, lo, hi - 1);
    }
}

/// The first `n` positions, as the values a position query reports.
pub open spec fn positions(n: int) -> Seq<usize> {
    Seq::new(n as nat, |i: int| i as usize)
}

/// Each position below `n` occurs exactly once among the first `n`
/// positions.
pub proof fn lemma_positions_count(n: int, v: usize)
    requires
        0 <= n <= usize::MAX,
    ensures
        positions(n).to_multiset().count(v) == if (v as int) < n {
            1nat
        } else {
            0nat
        },
    decreases n,
{
    broadcast use vstd::seq_lib::group_to_multiset_ensures;
    broadcast use vstd::multiset::group_multiset_axioms;

    if n == 0 {
        assert(positions(0) =~= Seq::<usize>::empty());
        assert(positions(0).to_multiset().len() == 0);
    } else {
        assert(positions(n) =~= positions(n - 1).push((n - 1) as usize));
        lemma_positions_count(n - 1, v);
    }
}

/// The points a sequence of owned point rows denotes.
pub open spec fn points_view(s: Seq<Vec<i64>>) -> Seq<Seq<i64>> {
    s.map_values(|p: Vec<i64>| p@)
}

/// The points a permutation of positions denotes, read through a borrowed
/// point slice.
pub open spec fn indexed_view(ix: Seq<usize>, data: Seq<Seq<i64>>) -> Seq<Seq<i64>> {
    ix.map_values(|i: usize| data[i as int])
}

/// The hits of a whole point sequence, reporting the points themselves.
pub open spec fn point_hits(pts: Seq<Seq<i64>>, q: Seq<i64>, eps: int) -> Multiset<Seq<i64>> {
    hits(pts, pts, q, eps, 0, pts.len() as int)
}

/// The reported values of a radius query over `[lo, hi)`, in scan order.
pub open spec fn hits_seq<A>(items: Seq<A>, pts: Seq<Seq<i64>>, q: Seq<i64>, eps: int, lo: int, hi: int) -> Seq<A>
    decreases hi - lo,
{
    if hi <= lo {
        Seq::empty()
    } else if within_eps(pts[hi - 1], q, eps) {
        hits_seq(items, pts, q, eps, lo, hi - 1).push(items[hi - 1])
    } else {
        hits_seq(items, pts, q, eps, lo, hi - 1)
    }
}

/// The scan-ordered hits carry the hit multiset.
pub proof fn lemma_hits_seq_ms<A>(items: Seq<A>, pts: Seq<Seq<i64>>, q: Seq<i64>, eps: int, lo: int, hi: int)
    ensures
        hits_seq(items, pts, q, eps, lo, hi).to_multiset() == hits(items, pts, q, eps, lo, hi),
    decreases hi - lo,
{
    broadcast use vstd::seq_lib::group_to_multiset_ensures;
    broadcast use vstd::multiset::group_multiset_axioms;

    if hi <= lo {
        assert(hits_seq(items, pts, q, eps, lo, hi).to_multiset() =~= Multiset::<A>::empty());
    } else {
        lemma_hits_seq_ms(items, pts, q, eps, lo, hi - 1);
    }
}

/// Reporting `g` of each item reports `g` of each hit.
pub proof fn lemma_hits_seq_map<A, B>(
    items1: Seq<A>,
    items2: Seq<B>,
    pts: Seq<Seq<i64>>,
    q: Seq<i64>,
    eps: int,
    lo: int,
    hi: int,
    g: spec_fn(A) -> B,
)
    requires
        forall|j: int| lo <= j < hi ==> items2[j] == g(#[trigger] items1[j]),
    ensures
        hits_seq(items2, pts, q, eps, lo, hi) =~= hits_seq(items1, pts, q, eps, lo, hi).map_values(
            g,
        ),
    decreases hi - lo,
{
    if hi > lo {
        lemma_hits_seq_map(items1, items2, pts, q, eps, lo, hi - 1, g);
    }
}

/// Every reported value is the item of some scanned position.
pub proof fn lemma_hits_members<A>(items: Seq<A>, pts: Seq<Seq<i64>>, q: Seq<i64>, eps: int, lo: int, hi: int, x: A)
    requires
        hits(items, pts, q, eps, lo, hi).contains(x),
    ensures
        exists|j: int| lo <= j < hi && items[j] == x,
    decreases hi - lo,
{
    broadcast use vstd::multiset::group_multiset_axioms;

    if hi > lo {
        if within_eps(pts[hi - 1], q, eps) && items[hi - 1] == x {
        } else {
            lemma_hits_members(items, pts, q, eps, lo, hi - 1, x);
        }
    }
}

/// How often a radius query reports each point: exactly the multiplicity of
/// that point among the scanned ones when it lies within the radius, and not
/// at all otherwise.
pub proof fn lemma_hits_count_range(pts: Seq<Seq<i64>>, q: Seq<i64>, eps: int, lo: int, hi: int, x: Seq<i64>)
    requires
        0 <= lo <= hi <= pts.len(),
    ensures
        hits(pts, pts, q, eps, lo, hi).count(x) == if within_eps(x, q, eps) {
            pts.subrange(lo, hi).to_multiset().count(x)
        } else {
            0nat
        },
    decreases hi - lo,
{
    broadcast use vstd::seq_lib::group_to_multiset_ensures;
    broadcast use vstd::multiset::group_multiset_axioms;

    if hi <= lo {
        assert(pts.subrange(lo, hi) =~= Seq::<Seq<i64>>::empty());
        assert(pts.subrange(lo, hi).to_multiset().len() == 0);
    } else {
        lemma_hits_count_range(pts, q, eps, lo, hi - 1, x);
        assert(pts.subrange(lo, hi) =~= pts.subrange(lo, hi - 1).push(pts[hi - 1]));
    }
}

proof fn lemma_point_hits_remove(pts: Seq<Seq<i64>>, q: Seq<i64>, eps: int, i: int)
    requires
        0 <= i < pts.len(),
    ensures
        point_hits(pts, q, eps) =~= if within_eps(pts[i], q, eps) {
            point_hits(pts.remove(i), q, eps).insert(pts[i])
        } else {
            point_hits(pts.remove(i), q, eps)
        },
    decreases pts.len(),
{
    let n = pts.len() as int;
    if i == n - 1 {
        assert(forall|j: int| 0 <= j < n - 1 ==> pts.remove(i)[j] == #[trigger] pts[j]);
        lemma_hits_frame(pts.remove(i), pts.remove(i), pts, pts, q, eps, 0, n - 1);
    } else {
        let d = pts.drop_last();
        lemma_point_hits_remove(d, q, eps, i);
        assert(d.remove(i) =~= pts.remove(i).drop_last());
        assert(forall|j: int| 0 <= j < n - 1 ==> d[j] == #[trigger] pts[j]);
        lemma_hits_frame(d, d, pts, pts, q, eps, 0, n - 1);
        let dr = pts.remove(i);
        assert(forall|j: int| 0 <= j < n - 2 ==> dr.drop_last()[j] == #[trigger] dr[j]);
        lemma_hits_frame(dr.drop_last(), dr.drop_last(), dr, dr, q, eps, 0, n - 2);
        assert(dr[n - 2] == pts[n - 1]);
    }
}

/// The hit multiset of a point sequence depends only on its point multiset:
/// indexing the same points in any order yields the same query results.
pub proof fn lemma_point_hits_permutation(pts1: Seq<Seq<i64>>, pts2: Seq<Seq<i64>>, q: Seq<i64>, eps: int)
    requires
        pts1.to_multiset() == pts2.to_multiset(),
    ensures
        point_hits(pts1, q, eps) == point_hits(pts2, q, eps),
    decreases pts1.len(),
{
    broadcast use vstd::seq_lib::group_to_multiset_ensures;

    if pts1.len() == 0 {
        assert(pts2.to_multiset().len() == 0);
        assert(pts2.len() == 0);
    } else {
        let n1 = pts1.len() as int;
        let x = pts1[n1 - 1];
        assert(pts1.to_multiset().contains(x));
        assert(pts2.to_multiset().contains(x));
        assert(pts2.contains(x));
        let i = choose|i: int| 0 <= i < pts2.len() && pts2[i] == x;
        assert(pts1.drop_last() =~= pts1.remove(n1 - 1));
        assert(pts1.remove(n1 - 1).to_multiset() =~= pts2.remove(i).to_multiset()) by {
            assert(pts1.remove(n1 - 1).to_multiset() =~= pts1.to_multiset().remove(x));
            assert(pts2.remove(i).to_multiset() =~= pts2.to_multiset().remove(x));
        }
        lemma_point_hits_permutation(pts1.remove(n1 - 1), pts2.remove(i), q, eps);
        lemma_point_hits_remove(pts1, q, eps, n1 - 1);
        lemma_point_hits_remove(pts2, q, eps, i);
    }
}

} // verus!
