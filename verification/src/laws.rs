//! The library's laws, stated and proved over the spec functions its
//! contracts use.

use vstd::prelude::*;

use vstd::multiset::Multiset;

use crate::geom::{dist_sq, lemma_dist_sq_prefix_nonneg, lemma_dist_sq_zero, within_eps};
use crate::knn_list::{distinct_ids, entries_sorted, reports, worst};
use crate::model::{hit_count, lemma_hits_count_range, lemma_point_hits_permutation, point_hits};

verus! {

/// A radius query reports a point exactly when it lies within the radius,
/// and then exactly as often as the index holds it: together with each
/// query's own contract, the result is precisely the set of indexed points
/// within distance `eps` of the query point, whatever the brute-force
/// threshold.
pub proof fn lemma_neighbourhood_exact(pts: Seq<Seq<i64>>, q: Seq<i64>, eps: int, x: Seq<i64>)
    ensures
        point_hits(pts, q, eps).count(x) == if within_eps(x, q, eps) {
            pts.to_multiset().count(x)
        } else {
            0nat
        },
{
    lemma_hits_count_range(pts, q, eps, 0, pts.len() as int, x);
    assert(pts.subrange(0, pts.len() as int) =~= pts);
}

/// The counting query agrees with the collecting one: the count is the size
/// of the reported multiset.
pub proof fn lemma_count_consistent(pts: Seq<Seq<i64>>, q: Seq<i64>, eps: int)
    ensures
        hit_count(pts, q, eps, 0, pts.len() as int) == point_hits(pts, q, eps).len(),
{
}

/// Radius queries depend only on which points an index holds, and how often,
/// never on their arrangement: indices built from the same points in any
/// input order, with any brute-force threshold, and of either variant answer
/// alike.
pub proof fn lemma_queries_respect_point_multiset(
    pts1: Seq<Seq<i64>>,
    pts2: Seq<Seq<i64>>,
    q: Seq<i64>,
    eps: int,
)
    requires
        pts1.to_multiset() == pts2.to_multiset(),
    ensures
        point_hits(pts1, q, eps) == point_hits(pts2, q, eps),
        hit_count(pts1, q, eps, 0, pts1.len() as int) == hit_count(pts2, q, eps, 0, pts2.len() as int),
{
    lemma_point_hits_permutation(pts1, pts2, q, eps);
}

/// Queries are functions of the indexed points and the query arguments: two
/// answers meeting the same contract are equal, so repeating a query against
/// an unmodified index cannot change the reported multiset or the count.
pub proof fn lemma_queries_deterministic(
    pts: Seq<Seq<i64>>,
    q: Seq<i64>,
    eps: int,
    m1: Multiset<Seq<i64>>,
    m2: Multiset<Seq<i64>>,
    c1: int,
    c2: int,
)
    requires
        m1 == point_hits(pts, q, eps),
        m2 == point_hits(pts, q, eps),
        c1 == hit_count(pts, q, eps, 0, pts.len() as int),
        c2 == hit_count(pts, q, eps, 0, pts.len() as int),
    ensures
        m1 == m2,
        c1 == c2,
{
}

/// With radius zero only a coincident point matches (and a negative radius
/// matches nothing at all).
pub proof fn lemma_zero_radius(p: Seq<i64>, q: Seq<i64>, eps: int)
    requires
        p.len() == q.len(),
    ensures
        eps == 0 ==> (within_eps(p, q, eps) <==> p == q),
        eps < 0 ==> !within_eps(p, q, eps),
{
    lemma_dist_sq_prefix_nonneg(p, q, p.len() as int);
    lemma_dist_sq_zero(p, q);
}

/// An empty index answers every query with nothing.
pub proof fn lemma_empty_index(q: Seq<i64>, eps: int)
    ensures
        point_hits(Seq::empty(), q, eps) == Multiset::<Seq<i64>>::empty(),
        hit_count(Seq::empty(), q, eps, 0, 0) == 0,
{
    assert(point_hits(Seq::empty(), q, eps) =~= Multiset::<Seq<i64>>::empty());
}

/// A point is always within any non-negative radius of itself.
pub proof fn lemma_self_within(q: Seq<i64>, eps: int)
    requires
        eps >= 0,
    ensures
        within_eps(q, q, eps),
{
    lemma_dist_sq_zero(q, q);
    assert(eps * eps >= 0) by (nonlinear_arith);
}

/// `r` ranks the `k` nearest accepted points: ascending by distance, over
/// distinct accepted indices paired with their exact squared distances, and
/// complete -- an accepted index missing from it can only be at least as far
/// away as its worst entry, and can be missing at all only once the ranking
/// holds `k` entries.  Both nearest-neighbour queries return such rankings,
/// the plain one with every index accepted.
pub open spec fn nearest_ranking(
    r: Seq<(u128, usize)>,
    pts: Seq<Seq<i64>>,
    q: Seq<i64>,
    acc: spec_fn(usize) -> bool,
    k: int,
) -> bool {
    &&& entries_sorted(r)
    &&& distinct_ids(r)
    &&& r.len() <= k
    &&& forall|i: int|
        0 <= i < r.len() ==> {
            let v = (#[trigger] r[i]).1;
            v < pts.len() && acc(v) && r[i].0 == dist_sq(pts[v as int], q)
        }
    &&& forall|v: usize|
        v < pts.len() && acc(v) && !reports(r, v) ==> r.len() == k && (k > 0 ==> dist_sq(
            pts[v as int],
            q,
        ) >= worst(r))
}

/// A list of distinct identities, each of which the other list reports, is
/// no longer than the other list.
proof fn lemma_ids_fit(a: Seq<(u128, usize)>, b: Seq<(u128, usize)>)
    requires
        distinct_ids(a),
        forall|i: int| 0 <= i < a.len() ==> reports(b, (#[trigger] a[i]).1),
    ensures
        a.len() <= b.len(),
{
    let ids_a = a.map_values(|e: (u128, usize)| e.1);
    let ids_b = b.map_values(|e: (u128, usize)| e.1);
    assert(ids_a.no_duplicates());
    ids_a.unique_seq_to_set();
    ids_b.lemma_cardinality_of_set();
    assert forall|x: usize| ids_a.to_set().contains(x) implies ids_b.to_set().contains(x) by {
        let i = choose|i: int| 0 <= i < ids_a.len() && ids_a[i] == x;
        assert(reports(b, a[i].1));
        let u = choose|u: int| 0 <= u < b.len() && (#[trigger] b[u]).1 == x;
        assert(ids_b[u] == x);
    }
    vstd::seq_lib::seq_to_set_is_finite(ids_b);
    vstd::set_lib::lemma_len_subset(ids_a.to_set(), ids_b.to_set());
}

/// Position by position, neither ranking's distance can undercut the
/// other's: were `r2[i]` strictly closer, `r2`'s first `i + 1` entries would
/// all have to stand strictly before position `i` in `r1`, packing `i + 1`
/// distinct identities into `i` positions.
proof fn lemma_ranking_pointwise_le(
    r1: Seq<(u128, usize)>,
    r2: Seq<(u128, usize)>,
    pts: Seq<Seq<i64>>,
    q: Seq<i64>,
    acc: spec_fn(usize) -> bool,
    k: int,
    i: int,
)
    requires
        nearest_ranking(r1, pts, q, acc, k),
        nearest_ranking(r2, pts, q, acc, k),
        r1.len() == r2.len(),
        0 <= i < r1.len(),
    ensures
        r1[i].0 <= r2[i].0,
{
    if r1[i].0 <= r2[i].0 {
        return ;
    }
    let len = r1.len() as int;
    // Every one of r2[0..=i] is reported by r1, strictly below position i.
    assert forall|t: int| #![trigger r2[t]] 0 <= t <= i implies exists|p: int|
        0 <= p < i && (#[trigger] r1[p]).1 == r2[t].1 by {
        let v = r2[t].1;
        let dv = dist_sq(pts[v as int], q);
        assert(dv == r2[t].0);
        assert(r2[t].0 <= r2[i].0);
        if !reports(r1, v) {
            assert(r1.len() == k && k > 0 ==> dv >= worst(r1));
            assert(worst(r1) == r1[len - 1].0);
            assert(r1[i].0 <= r1[len - 1].0);
        }
        let p = choose|p: int| 0 <= p < r1.len() && (#[trigger] r1[p]).1 == v;
        assert(r1[p].0 == dv);
        if p >= i {
            assert(r1[i].0 <= r1[p].0);
        }
    }
    let w = Seq::new((i + 1) as nat, |t: int| choose|p: int| 0 <= p < i && (r1[p]).1 == r2[t].1);
    assert forall|t: int| 0 <= t <= i implies 0 <= #[trigger] w[t] < i && r1[w[t]].1 == r2[t].1 by {
        assert(exists|p: int| 0 <= p < i && (#[trigger] r1[p]).1 == r2[t].1);
    }
    assert(w.no_duplicates()) by {
        assert forall|t1: int, t2: int|
            0 <= t1 < t2 <= i implies #[trigger] w[t1] != #[trigger] w[t2] by {
            assert(r2[t1].1 != r2[t2].1);
            assert(r1[w[t1]].1 == r2[t1].1);
            assert(r1[w[t2]].1 == r2[t2].1);
        }
    }
    w.unique_seq_to_set();
    vstd::set_lib::lemma_int_range(0, i);
    assert(w.to_set().subset_of(vstd::set_lib::set_int_range(0, i))) by {
        assert forall|x: int| w.to_set().contains(x) implies 0 <= x < i by {
            let t = choose|t: int| 0 <= t < w.len() && w[t] == x;
        }
    }
    vstd::set_lib::lemma_len_subset(w.to_set(), vstd::set_lib::set_int_range(0, i));
    assert(false);
}

/// The `k` nearest accepted points are unique at the distance level: any two
/// rankings of them, however produced, have the same length and report the
/// same ascending distances.  So nearest-neighbour results are pinned up to
/// the order within a group of equally distant points; the filtered query
/// answers exactly as the plain query would over the accepted points alone;
/// and repeating a query cannot change the reported distances.
pub proof fn lemma_nearest_ranking_unique(
    r1: Seq<(u128, usize)>,
    r2: Seq<(u128, usize)>,
    pts: Seq<Seq<i64>>,
    q: Seq<i64>,
    acc: spec_fn(usize) -> bool,
    k: int,
)
    requires
        nearest_ranking(r1, pts, q, acc, k),
        nearest_ranking(r2, pts, q, acc, k),
        0 <= k,
    ensures
        r1.len() == r2.len(),
        forall|i: int| 0 <= i < r1.len() ==> (#[trigger] r1[i]).0 == r2[i].0,
{
    if r1.len() < k {
        assert forall|i: int| 0 <= i < r2.len() implies reports(r1, (#[trigger] r2[i]).1) by {
            assert(r2[i].1 < pts.len() && acc(r2[i].1));
        }
        lemma_ids_fit(r2, r1);
    }
    if r2.len() < k {
        assert forall|i: int| 0 <= i < r1.len() implies reports(r2, (#[trigger] r1[i]).1) by {
            assert(r1[i].1 < pts.len() && acc(r1[i].1));
        }
        lemma_ids_fit(r1, r2);
    }
    assert(r1.len() == r2.len());
    assert forall|i: int| 0 <= i < r1.len() implies (#[trigger] r1[i]).0 == r2[i].0 by {
        lemma_ranking_pointwise_le(r1, r2, pts, q, acc, k, i);
        lemma_ranking_pointwise_le(r2, r1, pts, q, acc, k, i);
    }
}

} // verus!
