//! In-place balanced partitioning: a linear-time selection moves the median
//! (on one axis) of a range to its middle position, and recursing on both
//! halves with the next axis lays the whole range out as an implicit
//! balanced tree.

use vstd::prelude::*;

use vstd::seq_lib::to_multiset_update;

use crate::geom::wf_point;
use crate::model::{indexed_view, layout_ok, lemma_layout_frame, mid, next_axis, points_view};

verus! {

/// `s1` and `s2` agree everywhere outside `[lo, hi)`.
pub open spec fn same_outside<A>(s1: Seq<A>, s2: Seq<A>, lo: int, hi: int) -> bool {
    &&& s1.len() == s2.len()
    &&& forall|t: int| 0 <= t < s1.len() && !(lo <= t < hi) ==> s1[t] == #[trigger] s2[t]
}

/// `s2` holds the same values as `s1`, rearranged within `[lo, hi)` only.
pub open spec fn permuted_within<A>(s1: Seq<A>, s2: Seq<A>, lo: int, hi: int) -> bool {
    &&& same_outside(s1, s2, lo, hi)
    &&& 0 <= lo <= hi <= s1.len()
    &&& s1.subrange(lo, hi).to_multiset() == s2.subrange(lo, hi).to_multiset()
}

/// Rearranging a sequence preserves any pointwise property of its values.
pub proof fn lemma_ms_forall<A>(s1: Seq<A>, s2: Seq<A>, p: spec_fn(A) -> bool)
    requires
        s1.to_multiset() == s2.to_multiset(),
        forall|j: int| 0 <= j < s1.len() ==> p(#[trigger] s1[j]),
    ensures
        forall|j: int| 0 <= j < s2.len() ==> p(#[trigger] s2[j]),
{
    broadcast use vstd::seq_lib::group_to_multiset_ensures;

    assert forall|j: int| 0 <= j < s2.len() implies p(#[trigger] s2[j]) by {
        assert(s2.to_multiset().contains(s2[j]));
        assert(s1.contains(s2[j]));
    }
}

/// Exchanging two values of a sequence preserves its multiset.
proof fn lemma_swap_ms<A>(s: Seq<A>, i: int, j: int)
    requires
        0 <= i < s.len(),
        0 <= j < s.len(),
    ensures
        s.update(i, s[j]).update(j, s[i]).to_multiset() == s.to_multiset(),
{
    broadcast use vstd::multiset::group_multiset_axioms;
    broadcast use vstd::seq_lib::group_to_multiset_ensures;

    if i == j {
        assert(s.update(i, s[j]).update(j, s[i]) =~= s);
    } else {
        let s1 = s.update(i, s[j]);
        to_multiset_update(s, i, s[j]);
        to_multiset_update(s1, j, s[i]);
        assert(s.to_multiset().contains(s[i]));
        assert(s1.to_multiset().contains(s[j]));
        assert(s1.update(j, s[i]).to_multiset() =~= s.to_multiset());
    }
}

/// Exchanging two values inside `[lo, hi)` rearranges the range in place.
proof fn lemma_swap_permutes<A>(s: Seq<A>, lo: int, hi: int, i: int, j: int)
    requires
        0 <= lo <= i < hi <= s.len(),
        lo <= j < hi,
    ensures
        permuted_within(s, s.update(i, s[j]).update(j, s[i]), lo, hi),
{
    let s2 = s.update(i, s[j]).update(j, s[i]);
    let t = s.subrange(lo, hi);
    assert(s2.subrange(lo, hi) =~= t.update(i - lo, t[j - lo]).update(j - lo, t[i - lo]));
    lemma_swap_ms(t, i - lo, j - lo);
}

/// In-place rearrangement composes.
pub proof fn lemma_permuted_trans<A>(s1: Seq<A>, s2: Seq<A>, s3: Seq<A>, lo: int, hi: int)
    requires
        permuted_within(s1, s2, lo, hi),
        permuted_within(s2, s3, lo, hi),
    ensures
        permuted_within(s1, s3, lo, hi),
{
}

/// A rearrangement within a sub-range is one within any enclosing range.
pub proof fn lemma_permuted_widen<A>(s1: Seq<A>, s2: Seq<A>, lo: int, hi: int, lo2: int, hi2: int)
    requires
        permuted_within(s1, s2, lo, hi),
        0 <= lo2 <= lo,
        hi <= hi2 <= s1.len(),
    ensures
        permuted_within(s1, s2, lo2, hi2),
{
    broadcast use vstd::seq_lib::group_to_multiset_ensures;

    let a1 = s1.subrange(lo2, lo);
    let b1 = s1.subrange(lo, hi);
    let c1 = s1.subrange(hi, hi2);
    let a2 = s2.subrange(lo2, lo);
    let b2 = s2.subrange(lo, hi);
    let c2 = s2.subrange(hi, hi2);
    assert(s1.subrange(lo2, hi2) =~= a1 + b1 + c1);
    assert(s2.subrange(lo2, hi2) =~= a2 + b2 + c2);
    assert(a1 =~= a2);
    assert(c1 =~= c2);
    vstd::seq_lib::lemma_multiset_commutative(a1 + b1, c1);
    vstd::seq_lib::lemma_multiset_commutative(a1, b1);
    vstd::seq_lib::lemma_multiset_commutative(a2 + b2, c2);
    vstd::seq_lib::lemma_multiset_commutative(a2, b2);
}

/// Mapping a function over rearranged values yields rearranged results.
pub proof fn lemma_ms_map<A, B>(s1: Seq<A>, s2: Seq<A>, f: spec_fn(A) -> B)
    requires
        s1.to_multiset() == s2.to_multiset(),
    ensures
        s1.map_values(f).to_multiset() == s2.map_values(f).to_multiset(),
    decreases s1.len(),
{
    broadcast use vstd::seq_lib::group_to_multiset_ensures;
    broadcast use vstd::multiset::group_multiset_axioms;

    if s1.len() == 0 {
        assert(s2.to_multiset().len() == 0);
        assert(s2.len() == 0);
        assert(s1.map_values(f) =~= s2.map_values(f));
    } else {
        let n1 = s1.len() as int;
        let x = s1[n1 - 1];
        assert(s1.to_multiset().contains(x));
        assert(s2.to_multiset().contains(x));
        assert(s2.contains(x));
        let i = choose|i: int| 0 <= i < s2.len() && s2[i] == x;
        assert(s1.drop_last() =~= s1.remove(n1 - 1));
        assert(s1.remove(n1 - 1).to_multiset() =~= s2.remove(i).to_multiset()) by {
            assert(s1.remove(n1 - 1).to_multiset() =~= s1.to_multiset().remove(x));
            assert(s2.remove(i).to_multiset() =~= s2.to_multiset().remove(x));
        }
        lemma_ms_map(s1.remove(n1 - 1), s2.remove(i), f);
        assert(s1.remove(n1 - 1).map_values(f) =~= s1.map_values(f).remove(n1 - 1));
        assert(s2.remove(i).map_values(f) =~= s2.map_values(f).remove(i));
        assert(s1.map_values(f).remove(n1 - 1).to_multiset() =~= s1.map_values(f).to_multiset().remove(f(x)));
        assert(s2.map_values(f).remove(i).to_multiset() =~= s2.map_values(f).to_multiset().remove(f(x)));
        assert(s1.map_values(f).to_multiset().contains(f(x)));
        assert(s2.map_values(f).to_multiset().contains(f(x)));
        let m1 = s1.map_values(f).to_multiset();
        let m2 = s2.map_values(f).to_multiset();
        assert forall|y: B| m1.count(y) == m2.count(y) by {
            if y == f(x) {
                assert(m1.remove(y).count(y) == m1.count(y) - 1);
                assert(m2.remove(y).count(y) == m2.count(y) - 1);
            } else {
                assert(m1.remove(f(x)).count(y) == m1.count(y));
                assert(m2.remove(f(x)).count(y) == m2.count(y));
            }
        }
        assert(m1 =~= m2);
    }
}

/// Exchange the points at positions `i` and `j`.
fn swap_points(v: &mut Vec<Vec<i64>>, i: usize, j: usize)
    requires
        i < old(v)@.len(),
        j < old(v)@.len(),
    ensures
        final(v)@ == old(v)@.update(i as int, old(v)@[j as int]).update(j as int, old(v)@[i as int]),
        final(v)@.len() == old(v)@.len(),
        final(v)@[i as int] == old(v)@[j as int],
        final(v)@[j as int] == old(v)@[i as int],
        forall|t: int| 0 <= t < final(v)@.len() && t != i && t != j ==> final(v)@[t] == #[trigger] old(v)@[t],
{
    if i != j {
        let mut held: Vec<i64> = Vec::new();
        v.set_and_swap(i, &mut held);
        v.set_and_swap(j, &mut held);
        v.set_and_swap(i, &mut held);
        assert(v@ =~= old(v)@.update(i as int, old(v)@[j as int]).update(j as int, old(v)@[i as int]));
    } else {
        assert(v@ =~= old(v)@.update(i as int, old(v)@[j as int]).update(j as int, old(v)@[i as int]));
    }
}

/// Partition `v[lo..hi]` around a pivot on `axis`: afterwards the pivot
/// stands at the returned position, strictly greater-or-equal values follow
/// it and strictly smaller values precede it.
fn partition_by_row(v: &mut Vec<Vec<i64>>, lo: usize, hi: usize, axis: usize) -> (p: usize)
    requires
        lo < hi <= old(v)@.len(),
        forall|t: int| lo <= t < hi ==> axis < #[trigger] old(v)@[t]@.len(),
    ensures
        lo <= p < hi,
        permuted_within(old(v)@, final(v)@, lo as int, hi as int),
        forall|t: int|
            lo <= t < p ==> #[trigger] final(v)@[t]@[axis as int] < final(v)@[p as int]@[axis as int],
        forall|t: int|
            p < t < hi ==> #[trigger] final(v)@[t]@[axis as int] >= final(v)@[p as int]@[axis as int],
{
    let ghost orig = v@;
    let last = hi - 1;
    let mid0 = lo + (hi - lo) / 2;
    swap_points(v, mid0, last);
    proof {
        lemma_swap_permutes(orig, lo as int, hi as int, mid0 as int, last as int);
    }
    let pivot: i64 = v[last][axis];
    let mut store = lo;
    let mut j = lo;
    while j < last
        invariant
            lo <= store <= j <= last,
            last == hi - 1,
            hi <= v@.len(),
            permuted_within(orig, v@, lo as int, hi as int),
            forall|t: int| lo <= t < hi ==> axis < #[trigger] v@[t]@.len(),
            v@[last as int]@[axis as int] == pivot,
            forall|t: int| lo <= t < store ==> #[trigger] v@[t]@[axis as int] < pivot,
            forall|t: int| store <= t < j ==> #[trigger] v@[t]@[axis as int] >= pivot,
        decreases last - j,
    {
        let keyed: i64 = v[j][axis];
        if keyed < pivot {
            let ghost before = v@;
            swap_points(v, j, store);
            proof {
                lemma_swap_permutes(before, lo as int, hi as int, j as int, store as int);
                lemma_permuted_trans(orig, before, v@, lo as int, hi as int);
                lemma_ms_forall(
                    before.subrange(lo as int, hi as int),
                    v@.subrange(lo as int, hi as int),
                    |x: Vec<i64>| (axis as int) < x@.len(),
                );
                assert(forall|t: int|
                    lo <= t < hi ==> axis < #[trigger] v@[t]@.len()) by {
                    assert(forall|t: int|
                        lo <= t < hi ==> v@[t] == v@.subrange(lo as int, hi as int)[t - lo]);
                }
            }
            store = store + 1;
        }
        j = j + 1;
    }
    let ghost before = v@;
    swap_points(v, store, last);
    proof {
        lemma_swap_permutes(before, lo as int, hi as int, store as int, last as int);
        lemma_permuted_trans(orig, before, v@, lo as int, hi as int);
    }
    store
}

/// A pointwise property of the values of a range survives any rearrangement
/// of that range.
pub proof fn lemma_range_pointwise<A>(s1: Seq<A>, s2: Seq<A>, lo: int, hi: int, p: spec_fn(A) -> bool)
    requires
        0 <= lo <= hi <= s1.len(),
        hi <= s2.len(),
        s1.subrange(lo, hi).to_multiset() == s2.subrange(lo, hi).to_multiset(),
        forall|t: int| lo <= t < hi ==> p(#[trigger] s1[t]),
    ensures
        forall|t: int| lo <= t < hi ==> p(#[trigger] s2[t]),
{
    let sub1 = s1.subrange(lo, hi);
    let sub2 = s2.subrange(lo, hi);
    assert(forall|j: int| 0 <= j < sub1.len() ==> p(#[trigger] sub1[j])) by {
        assert(forall|j: int| 0 <= j < sub1.len() ==> sub1[j] == #[trigger] s1[j + lo]);
    }
    lemma_ms_forall(sub1, sub2, p);
    assert forall|t: int| lo <= t < hi implies p(#[trigger] s2[t]) by {
        assert(s2[t] == sub2[t - lo]);
    }
}

/// A pointwise property of the values of a range survives rearrangement.
pub proof fn lemma_permuted_pointwise<A>(s1: Seq<A>, s2: Seq<A>, lo: int, hi: int, p: spec_fn(A) -> bool)
    requires
        permuted_within(s1, s2, lo, hi),
        forall|t: int| lo <= t < hi ==> p(#[trigger] s1[t]),
    ensures
        forall|t: int| lo <= t < hi ==> p(#[trigger] s2[t]),
{
    lemma_range_pointwise(s1, s2, lo, hi, p);
}

/// Move the element with the median `axis` coordinate of `v[lo..hi]` to
/// position `m`, smaller-or-equal values before it, greater-or-equal values
/// after it.
fn select_nth_by_row(v: &mut Vec<Vec<i64>>, lo: usize, m: usize, hi: usize, axis: usize)
    requires
        lo <= m < hi <= old(v)@.len(),
        forall|t: int| lo <= t < hi ==> axis < #[trigger] old(v)@[t]@.len(),
    ensures
        permuted_within(old(v)@, final(v)@, lo as int, hi as int),
        forall|t: int|
            lo <= t < m ==> #[trigger] final(v)@[t]@[axis as int] <= final(v)@[m as int]@[axis as int],
        forall|t: int|
            m < t < hi ==> #[trigger] final(v)@[t]@[axis as int] >= final(v)@[m as int]@[axis as int],
        forall|t: int| lo <= t < hi ==> axis < #[trigger] final(v)@[t]@.len(),
    decreases hi - lo,
{
    let ghost orig = v@;
    let p = partition_by_row(v, lo, hi, axis);
    proof {
        lemma_permuted_pointwise(
            orig,
            v@,
            lo as int,
            hi as int,
            |x: Vec<i64>| (axis as int) < x@.len(),
        );
    }
    let ghost keyv = v@[p as int]@[axis as int];
    if m < p {
        let ghost after_part = v@;
        select_nth_by_row(v, lo, m, p, axis);
        proof {
            lemma_permuted_widen(after_part, v@, lo as int, p as int, lo as int, hi as int);
            lemma_permuted_trans(orig, after_part, v@, lo as int, hi as int);
            lemma_permuted_pointwise(
                after_part,
                v@,
                lo as int,
                p as int,
                |x: Vec<i64>| x@[axis as int] < keyv,
            );
            assert(v@[p as int] == after_part[p as int]);
            assert forall|t: int|
                m < t < hi implies #[trigger] v@[t]@[axis as int] >= v@[m as int]@[axis as int] by {
                if t >= p {
                    assert(v@[t] == after_part[t]);
                }
            }
        }
    } else if m > p {
        let ghost after_part = v@;
        select_nth_by_row(v, p + 1, m, hi, axis);
        proof {
            lemma_permuted_widen(after_part, v@, p as int + 1, hi as int, lo as int, hi as int);
            lemma_permuted_trans(orig, after_part, v@, lo as int, hi as int);
            lemma_permuted_pointwise(
                after_part,
                v@,
                p as int + 1,
                hi as int,
                |x: Vec<i64>| x@[axis as int] >= keyv,
            );
            assert(v@[p as int] == after_part[p as int]);
            assert forall|t: int|
                lo <= t < m implies #[trigger] v@[t]@[axis as int] <= v@[m as int]@[axis as int] by {
                if t <= p {
                    assert(v@[t] == after_part[t]);
                }
            }
        }
    }
}

/// Arrange `v[lo..hi]` in place as an implicit balanced tree keyed on
/// `axis` at the root, cycling through the axes with depth.
pub(crate) fn select_median_with_row_recursive(
    v: &mut Vec<Vec<i64>>,
    lo: usize,
    hi: usize,
    axis: usize,
    dim: usize,
)
    requires
        lo <= hi <= old(v)@.len(),
        hi - lo >= 2,
        axis < dim,
        forall|t: int| lo <= t < hi ==> wf_point(#[trigger] old(v)@[t]@, dim as int),
    ensures
        permuted_within(old(v)@, final(v)@, lo as int, hi as int),
        forall|t: int| lo <= t < hi ==> wf_point(#[trigger] final(v)@[t]@, dim as int),
        layout_ok(points_view(final(v)@), dim as int, lo as int, hi as int, axis as int),
    decreases hi - lo,
{
    let ghost orig = v@;
    let m = lo + (hi - lo) / 2;
    proof {
        assert(forall|t: int| lo <= t < hi ==> axis < #[trigger] old(v)@[t]@.len());
    }
    select_nth_by_row(v, lo, m, hi, axis);
    let ghost after_sel = v@;
    let ghost keyv = v@[m as int]@[axis as int];
    proof {
        lemma_permuted_pointwise(
            orig,
            v@,
            lo as int,
            hi as int,
            |x: Vec<i64>| wf_point(x@, dim as int),
        );
    }
    if hi - lo > 3 {
        let next = if axis + 1 == dim {
            0
        } else {
            axis + 1
        };
        select_median_with_row_recursive(v, lo, m, next, dim);
        let ghost after_left = v@;
        proof {
            lemma_permuted_widen(after_sel, v@, lo as int, m as int, lo as int, hi as int);
            lemma_permuted_trans(orig, after_sel, v@, lo as int, hi as int);
        }
        if hi - (m + 1) >= 2 {
            select_median_with_row_recursive(v, m + 1, hi, next, dim);
            proof {
                lemma_permuted_widen(after_left, v@, m as int + 1, hi as int, lo as int, hi as int);
                lemma_permuted_trans(orig, after_left, v@, lo as int, hi as int);
                lemma_layout_frame(
                    points_view(after_left),
                    points_view(v@),
                    dim as int,
                    lo as int,
                    m as int,
                    next as int,
                );
            }
        }
        proof {
            assert(layout_ok(points_view(v@), dim as int, m as int + 1, hi as int, next as int));
            assert(v@.subrange(lo as int, m as int) =~= after_left.subrange(lo as int, m as int));
            assert(after_left.subrange(m as int + 1, hi as int) =~= after_sel.subrange(
                m as int + 1,
                hi as int,
            ));
            lemma_range_pointwise(
                after_sel,
                v@,
                lo as int,
                m as int,
                |x: Vec<i64>| x@[axis as int] <= keyv,
            );
            lemma_range_pointwise(
                after_sel,
                v@,
                m as int + 1,
                hi as int,
                |x: Vec<i64>| x@[axis as int] >= keyv,
            );
            assert(v@[m as int] == after_sel[m as int]);
        }
    } else {
        proof {
            assert(layout_ok(points_view(v@), dim as int, lo as int, m as int, next_axis(axis as int, dim as int)));
            assert(layout_ok(points_view(v@), dim as int, m as int + 1, hi as int, next_axis(axis as int, dim as int)));
        }
    }
    proof {
        assert(mid(lo as int, hi as int) == m as int);
        assert(forall|j: int|
            lo <= j < m ==> #[trigger] points_view(v@)[j][axis as int] <= points_view(v@)[m as int][axis as int]);
        assert(forall|j: int|
            m < j < hi ==> #[trigger] points_view(v@)[j][axis as int] >= points_view(v@)[m as int][axis as int]);
    }
}


/// The `axis` coordinate of the point that position `v` references.
pub open spec fn key_of(data: Seq<Vec<i64>>, v: usize, axis: int) -> i64 {
    data[v as int]@[axis]
}

/// Exchange the positions stored at `i` and `j`.
fn swap_indices(ix: &mut Vec<usize>, i: usize, j: usize)
    requires
        i < old(ix)@.len(),
        j < old(ix)@.len(),
    ensures
        final(ix)@ == old(ix)@.update(i as int, old(ix)@[j as int]).update(j as int, old(ix)@[i as int]),
        final(ix)@.len() == old(ix)@.len(),
        final(ix)@[i as int] == old(ix)@[j as int],
        final(ix)@[j as int] == old(ix)@[i as int],
        forall|t: int| 0 <= t < final(ix)@.len() && t != i && t != j ==> final(ix)@[t] == #[trigger] old(ix)@[t],
{
    let a = ix[i];
    let b = ix[j];
    ix.set(i, b);
    ix.set(j, a);
    proof {
        assert(ix@ =~= old(ix)@.update(i as int, old(ix)@[j as int]).update(j as int, old(ix)@[i as int]));
    }
}

/// Partition `ix[lo..hi]` around a pivot position, comparing the referenced
/// points on `axis`: afterwards the pivot stands at the returned position,
/// positions of strictly smaller keyed points precede it and positions of
/// greater-or-equal keyed points follow it.
fn partition_indices_by_row(
    ix: &mut Vec<usize>,
    data: &Vec<Vec<i64>>,
    lo: usize,
    hi: usize,
    axis: usize,
) -> (p: usize)
    requires
        lo < hi <= old(ix)@.len(),
        forall|t: int| lo <= t < hi ==> (#[trigger] old(ix)@[t]) < data@.len(),
        forall|r: int| 0 <= r < data@.len() ==> axis < (#[trigger] data@[r])@.len(),
    ensures
        lo <= p < hi,
        permuted_within(old(ix)@, final(ix)@, lo as int, hi as int),
        forall|t: int| lo <= t < hi ==> (#[trigger] final(ix)@[t]) < data@.len(),
        forall|t: int|
            lo <= t < p ==> key_of(data@, #[trigger] final(ix)@[t], axis as int) < key_of(
                data@,
                final(ix)@[p as int],
                axis as int,
            ),
        forall|t: int|
            p < t < hi ==> key_of(data@, #[trigger] final(ix)@[t], axis as int) >= key_of(
                data@,
                final(ix)@[p as int],
                axis as int,
            ),
{
    let ghost orig = ix@;
    let last = hi - 1;
    let mid0 = lo + (hi - lo) / 2;
    swap_indices(ix, mid0, last);
    proof {
        lemma_swap_permutes(orig, lo as int, hi as int, mid0 as int, last as int);
        lemma_permuted_pointwise(
            orig,
            ix@,
            lo as int,
            hi as int,
            |v: usize| v < data@.len(),
        );
    }
    let pivot_at = ix[last];
    let pivot: i64 = data[pivot_at][axis];
    let mut store = lo;
    let mut j = lo;
    while j < last
        invariant
            lo <= store <= j <= last,
            last == hi - 1,
            hi <= ix@.len(),
            permuted_within(orig, ix@, lo as int, hi as int),
            forall|t: int| lo <= t < hi ==> (#[trigger] ix@[t]) < data@.len(),
            forall|r: int| 0 <= r < data@.len() ==> axis < (#[trigger] data@[r])@.len(),
            ix@[last as int] < data@.len(),
            data@[ix@[last as int] as int]@[axis as int] == pivot,
            forall|t: int|
                lo <= t < store ==> #[trigger] data@[ix@[t] as int]@[axis as int] < pivot,
            forall|t: int|
                store <= t < j ==> #[trigger] data@[ix@[t] as int]@[axis as int] >= pivot,
        decreases last - j,
    {
        let at = ix[j];
        let keyed: i64 = data[at][axis];
        if keyed < pivot {
            let ghost before = ix@;
            swap_indices(ix, j, store);
            proof {
                lemma_swap_permutes(before, lo as int, hi as int, j as int, store as int);
                lemma_permuted_trans(orig, before, ix@, lo as int, hi as int);
                lemma_permuted_pointwise(
                    before,
                    ix@,
                    lo as int,
                    hi as int,
                    |v: usize| v < data@.len(),
                );
            }
            store = store + 1;
        }
        j = j + 1;
    }
    let ghost before = ix@;
    swap_indices(ix, store, last);
    proof {
        lemma_swap_permutes(before, lo as int, hi as int, store as int, last as int);
        lemma_permuted_trans(orig, before, ix@, lo as int, hi as int);
    }
    store
}

/// Move the position of the point with the median `axis` coordinate of
/// `ix[lo..hi]` to position `m`, positions of smaller-or-equal keyed points
/// before it, positions of greater-or-equal keyed points after it.
fn select_nth_indices_by_row(
    ix: &mut Vec<usize>,
    data: &Vec<Vec<i64>>,
    lo: usize,
    m: usize,
    hi: usize,
    axis: usize,
)
    requires
        lo <= m < hi <= old(ix)@.len(),
        forall|t: int| lo <= t < hi ==> (#[trigger] old(ix)@[t]) < data@.len(),
        forall|r: int| 0 <= r < data@.len() ==> axis < (#[trigger] data@[r])@.len(),
    ensures
        permuted_within(old(ix)@, final(ix)@, lo as int, hi as int),
        forall|t: int| lo <= t < hi ==> (#[trigger] final(ix)@[t]) < data@.len(),
        forall|t: int|
            lo <= t < m ==> key_of(data@, #[trigger] final(ix)@[t], axis as int) <= key_of(
                data@,
                final(ix)@[m as int],
                axis as int,
            ),
        forall|t: int|
            m < t < hi ==> key_of(data@, #[trigger] final(ix)@[t], axis as int) >= key_of(
                data@,
                final(ix)@[m as int],
                axis as int,
            ),
    decreases hi - lo,
{
    let ghost orig = ix@;
    let p = partition_indices_by_row(ix, data, lo, hi, axis);
    let ghost keyv = data@[ix@[p as int] as int]@[axis as int];
    if m < p {
        let ghost after_part = ix@;
        select_nth_indices_by_row(ix, data, lo, m, p, axis);
        proof {
            lemma_permuted_widen(after_part, ix@, lo as int, p as int, lo as int, hi as int);
            lemma_permuted_trans(orig, after_part, ix@, lo as int, hi as int);
            lemma_permuted_pointwise(
                after_part,
                ix@,
                lo as int,
                p as int,
                |v: usize| v < data@.len() && data@[v as int]@[axis as int] < keyv,
            );
            assert(ix@[p as int] == after_part[p as int]);
            assert forall|t: int|
                m < t < hi implies #[trigger] data@[ix@[t] as int]@[axis as int] >= data@[ix@[m
                as int] as int]@[axis as int] by {
                if t >= p {
                    assert(ix@[t] == after_part[t]);
                }
            }
        }
    } else if m > p {
        let ghost after_part = ix@;
        select_nth_indices_by_row(ix, data, p + 1, m, hi, axis);
        proof {
            lemma_permuted_widen(after_part, ix@, p as int + 1, hi as int, lo as int, hi as int);
            lemma_permuted_trans(orig, after_part, ix@, lo as int, hi as int);
            lemma_permuted_pointwise(
                after_part,
                ix@,
                p as int + 1,
                hi as int,
                |v: usize| v < data@.len() && data@[v as int]@[axis as int] >= keyv,
            );
            assert(ix@[p as int] == after_part[p as int]);
            assert forall|t: int|
                lo <= t < m implies #[trigger] data@[ix@[t] as int]@[axis as int] <= data@[ix@[m
                as int] as int]@[axis as int] by {
                if t <= p {
                    assert(ix@[t] == after_part[t]);
                }
            }
        }
    }
}

/// Arrange the positions `ix[lo..hi]` in place so that the points they
/// reference form an implicit balanced tree keyed on `axis` at the root,
/// cycling through the axes with depth.
pub(crate) fn select_median_with_respect_to_row_recursive(
    ix: &mut Vec<usize>,
    data: &Vec<Vec<i64>>,
    lo: usize,
    hi: usize,
    axis: usize,
    dim: usize,
)
    requires
        lo <= hi <= old(ix)@.len(),
        hi - lo >= 2,
        axis < dim,
        forall|t: int| lo <= t < hi ==> (#[trigger] old(ix)@[t]) < data@.len(),
        forall|r: int| 0 <= r < data@.len() ==> wf_point((#[trigger] data@[r])@, dim as int),
    ensures
        permuted_within(old(ix)@, final(ix)@, lo as int, hi as int),
        forall|t: int| lo <= t < hi ==> (#[trigger] final(ix)@[t]) < data@.len(),
        layout_ok(
            indexed_view(final(ix)@, points_view(data@)),
            dim as int,
            lo as int,
            hi as int,
            axis as int,
        ),
    decreases hi - lo,
{
    let ghost orig = ix@;
    let m = lo + (hi - lo) / 2;
    select_nth_indices_by_row(ix, data, lo, m, hi, axis);
    let ghost after_sel = ix@;
    let ghost keyv = data@[ix@[m as int] as int]@[axis as int];
    if hi - lo > 3 {
        let next = if axis + 1 == dim {
            0
        } else {
            axis + 1
        };
        select_median_with_respect_to_row_recursive(ix, data, lo, m, next, dim);
        let ghost after_left = ix@;
        proof {
            lemma_permuted_widen(after_sel, ix@, lo as int, m as int, lo as int, hi as int);
            lemma_permuted_trans(orig, after_sel, ix@, lo as int, hi as int);
        }
        if hi - (m + 1) >= 2 {
            select_median_with_respect_to_row_recursive(ix, data, m + 1, hi, next, dim);
            proof {
                lemma_permuted_widen(after_left, ix@, m as int + 1, hi as int, lo as int, hi as int);
                lemma_permuted_trans(orig, after_left, ix@, lo as int, hi as int);
                lemma_layout_frame(
                    indexed_view(after_left, points_view(data@)),
                    indexed_view(ix@, points_view(data@)),
                    dim as int,
                    lo as int,
                    m as int,
                    next as int,
                );
            }
        }
        proof {
            assert(layout_ok(
                indexed_view(ix@, points_view(data@)),
                dim as int,
                m as int + 1,
                hi as int,
                next as int,
            ));
            assert(ix@.subrange(lo as int, m as int) =~= after_left.subrange(lo as int, m as int));
            assert(after_left.subrange(m as int + 1, hi as int) =~= after_sel.subrange(
                m as int + 1,
                hi as int,
            ));
            lemma_range_pointwise(
                after_sel,
                ix@,
                lo as int,
                m as int,
                |v: usize| v < data@.len() && data@[v as int]@[axis as int] <= keyv,
            );
            lemma_range_pointwise(
                after_sel,
                ix@,
                m as int + 1,
                hi as int,
                |v: usize| v < data@.len() && data@[v as int]@[axis as int] >= keyv,
            );
            assert(ix@[m as int] == after_sel[m as int]);
        }
    } else {
        proof {
            assert(layout_ok(
                indexed_view(ix@, points_view(data@)),
                dim as int,
                lo as int,
                m as int,
                next_axis(axis as int, dim as int),
            ));
            assert(layout_ok(
                indexed_view(ix@, points_view(data@)),
                dim as int,
                m as int + 1,
                hi as int,
                next_axis(axis as int, dim as int),
            ));
        }
    }
    proof {
        let iv = indexed_view(ix@, points_view(data@));
        assert(mid(lo as int, hi as int) == m as int);
        assert(forall|t: int| lo <= t < hi ==> #[trigger] iv[t] == points_view(data@)[ix@[t] as int]);
        assert(forall|j: int|
            lo <= j < m ==> #[trigger] iv[j][axis as int] <= iv[m as int][axis as int]);
        assert(forall|j: int|
            m < j < hi ==> #[trigger] iv[j][axis as int] >= iv[m as int][axis as int]);
    }
}

} // verus!
