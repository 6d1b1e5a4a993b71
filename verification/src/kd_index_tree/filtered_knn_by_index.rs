//! Filtered nearest-neighbour query for the borrowing index: the `k`
//! closest points among those whose index the caller's predicate accepts.
//! Rejected candidates never consume a slot.

use vstd::prelude::*;

use crate::geom::{
    dist_sq, dist_sq_exec, lemma_separation_bound, norm_sq_exec, separates, wf_dvec, wf_point,
    wf_points,
};
use crate::kd_index_tree::knn_by_index::{among, entries_measure_base};
use crate::kd_index_tree::KdIndexTree;
use crate::knn_list::{distinct_ids, entries_sorted, knn_try_insert, reports, worst};
use crate::model::{indexed_view, layout_ok, lemma_positions_count, next_axis, points_view};

verus! {

impl<'a> KdIndexTree<'a> {
    /// Up to `k` indices of points closest to `point` among those the
    /// predicate accepts, as pairs of squared distance and index into the
    /// caller's point slice, ascending by distance.  Every reported index
    /// was accepted, and every unreported one was either rejected by the
    /// predicate or is at least as far from `point` as the worst reported
    /// one.  `k == 0` yields an empty result.
    pub fn filtered_knn_by_index<F: Fn(usize) -> bool>(
        &self,
        point: &Vec<i64>,
        k: usize,
        filter: &F,
    ) -> (found: Vec<(u128, usize)>)
        requires
            self.wf(),
            wf_point(point@, self.dims()),
            forall|v: usize| v < self.base().len() ==> call_requires(*filter, (v,)),
        ensures
            found@.len() <= k,
            entries_sorted(found@),
            distinct_ids(found@),
            entries_measure_base(found@, self.base(), point@),
            forall|i: int|
                0 <= i < found@.len() ==> call_ensures(*filter, ((#[trigger] found@[i]).1,), true),
            forall|v: usize|
                v < self.base().len() && !reports(found@, v) ==> k == 0 || call_ensures(
                    *filter,
                    (v,),
                    false,
                ) || (found@.len() == k && dist_sq(self.base()[v as int], point@) >= worst(
                    found@,
                )),
    {
        broadcast use vstd::seq_lib::group_to_multiset_ensures;
        broadcast use vstd::multiset::group_multiset_axioms;

        let mut found: Vec<(u128, usize)> = Vec::new();
        if k == 0 {
            return found;
        }
        let n = self.indices.len();
        let mut d: Vec<i64> = vec![0i64; self.dim()];
        proof {
            assert(forall|i: int| 0 <= i < d@.len() ==> #[trigger] d@[i] == 0i64);
        }
        Self::find_filtered_knn_by_index_recursive(
            self.data,
            &self.indices,
            point,
            k,
            filter,
            &mut d,
            &mut found,
            0,
            n,
            0,
            self.brute_force_size,
        );
        proof {
            assert forall|i: int|
                0 <= i < found@.len() implies call_ensures(
                *filter,
                ((#[trigger] found@[i]).1,),
                true,
            ) by {
                assert(reports(found@, found@[i].1));
            }
            assert forall|v: usize|
                v < self.base().len() && !reports(found@, v) implies k == 0 || call_ensures(
                *filter,
                (v,),
                false,
            ) || (found@.len() == k && dist_sq(self.base()[v as int], point@) >= worst(
                found@,
            )) by {
                lemma_positions_count(n as int, v);
                assert(self.perm().to_multiset().count(v) == 1);
                assert(self.perm().contains(v));
                let t = choose|t: int| 0 <= t < self.perm().len() && self.perm()[t] == v;
                assert(!reports(found@, self.perm()[t]));
                assert(indexed_view(self.perm(), self.base())[t] == self.base()[v as int]);
            }
        }
        found
    }

    /// Offer every accepted point of the subtree `[lo, hi)` of the
    /// permutation, keyed on `axis`, to the candidate list, pruning subtrees
    /// that the lower bound from the subtree-distance vector `d` rules out.
    #[verifier::loop_isolation(false)]
    #[allow(clippy::too_many_arguments)]
    fn find_filtered_knn_by_index_recursive<F: Fn(usize) -> bool>(
        data: &Vec<Vec<i64>>,
        ix: &Vec<usize>,
        q: &Vec<i64>,
        k: usize,
        filter: &F,
        d: &mut Vec<i64>,
        result: &mut Vec<(u128, usize)>,
        lo: usize,
        hi: usize,
        axis: usize,
        bfs: usize,
    )
        requires
            lo <= hi <= ix@.len(),
            forall|t: int| 0 <= t < ix@.len() ==> (#[trigger] ix@[t]) < data@.len(),
            forall|t1: int, t2: int|
                lo <= t1 < t2 < hi ==> (#[trigger] ix@[t1]) != (#[trigger] ix@[t2]),
            forall|v: usize| v < data@.len() ==> call_requires(*filter, (v,)),
            wf_point(q@, q@.len() as int),
            wf_points(points_view(data@), q@.len() as int),
            axis < q@.len(),
            1 <= k,
            layout_ok(
                indexed_view(ix@, points_view(data@)),
                q@.len() as int,
                lo as int,
                hi as int,
                axis as int,
            ),
            wf_dvec(old(d)@, q@.len() as int),
            forall|j: int|
                lo <= j < hi ==> separates(
                    old(d)@,
                    q@,
                    #[trigger] indexed_view(ix@, points_view(data@))[j],
                ),
            entries_sorted(old(result)@),
            distinct_ids(old(result)@),
            old(result)@.len() <= k,
            entries_measure_base(old(result)@, points_view(data@), q@),
            forall|i: int, t: int|
                0 <= i < old(result)@.len() && lo <= t < hi ==> (#[trigger] old(result)@[i]).1 != (
                #[trigger] ix@[t]),
        ensures
            final(d)@ == old(d)@,
            entries_sorted(final(result)@),
            distinct_ids(final(result)@),
            entries_measure_base(final(result)@, points_view(data@), q@),
            final(result)@.len() <= k,
            forall|id: usize|
                reports(final(result)@, id) ==> reports(old(result)@, id) || (among(
                    ix@,
                    lo as int,
                    hi as int,
                    id,
                ) && call_ensures(*filter, (id,), true)),
            forall|j: int|
                0 <= j < old(result)@.len() && !reports(
                    final(result)@,
                    (#[trigger] old(result)@[j]).1,
                ) ==> final(result)@.len() == k && old(result)@[j].0 >= worst(final(result)@),
            forall|t: int|
                lo <= t < hi && !reports(final(result)@, #[trigger] ix@[t]) ==> call_ensures(
                    *filter,
                    (ix@[t],),
                    false,
                ) || (final(result)@.len() == k && dist_sq(
                    indexed_view(ix@, points_view(data@))[t],
                    q@,
                ) >= worst(final(result)@)),
            old(result)@.len() == k ==> final(result)@.len() == k && worst(final(result)@)
                <= worst(old(result)@),
            final(result)@.len() >= old(result)@.len(),
        decreases hi - lo, 1int,
    {
        let ghost pts = indexed_view(ix@, points_view(data@));
        let cutoff = if bfs < 1 {
            1
        } else {
            bfs
        };
        if hi - lo <= cutoff {
            let mut j = lo;
            while j < hi
                invariant
                    lo <= j <= hi,
                    entries_sorted(result@),
                    distinct_ids(result@),
                    entries_measure_base(result@, points_view(data@), q@),
                    result@.len() <= k,
                    forall|id: usize|
                        reports(result@, id) ==> reports(old(result)@, id) || (among(
                            ix@,
                            lo as int,
                            j as int,
                            id,
                        ) && call_ensures(*filter, (id,), true)),
                    forall|jj: int|
                        0 <= jj < old(result)@.len() && !reports(
                            result@,
                            (#[trigger] old(result)@[jj]).1,
                        ) ==> result@.len() == k && old(result)@[jj].0 >= worst(result@),
                    forall|t: int|
                        lo <= t < j && !reports(result@, #[trigger] ix@[t]) ==> call_ensures(
                            *filter,
                            (ix@[t],),
                            false,
                        ) || (result@.len() == k && dist_sq(pts[t], q@) >= worst(result@)),
                    old(result)@.len() == k ==> result@.len() == k && worst(result@) <= worst(
                        old(result)@,
                    ),
                    result@.len() >= old(result)@.len(),
                decreases hi - j,
            {
                let at = ix[j];
                proof {
                    assert(pts[j as int] == points_view(data@)[at as int]);
                    assert(points_view(data@)[at as int] == data@[at as int]@);
                }
                let dist = dist_sq_exec(&data[at], q);
                let ghost before = result@;
                let keep = (*filter)(at);
                if keep {
                    proof {
                        assert(!reports(before, at)) by {
                            if reports(before, at) {
                                if among(ix@, lo as int, j as int, at) {
                                    let t = choose|t: int| lo <= t < j && ix@[t] == at;
                                } else {
                                    let i = choose|i: int|
                                        0 <= i < old(result)@.len() && (#[trigger] old(
                                            result,
                                        )@[i]).1 == at;
                                }
                            }
                        }
                    }
                    knn_try_insert(result, k, dist, at);
                }
                proof {
                    assert forall|t: int|
                        lo <= t < j + 1 && !reports(result@, #[trigger] ix@[t]) implies
                        call_ensures(*filter, (ix@[t],), false) || (result@.len() == k && dist_sq(
                        pts[t],
                        q@,
                    ) >= worst(result@)) by {
                        if t == j {
                        } else if reports(before, ix@[t]) {
                            let u = choose|u: int|
                                0 <= u < before.len() && (#[trigger] before[u]).1 == ix@[t];
                            assert(before[u].0 == dist_sq(points_view(data@)[ix@[t] as int], q@));
                            assert(pts[t] == points_view(data@)[ix@[t] as int]);
                            assert(!reports(result@, before[u].1));
                        } else {
                            assert(call_ensures(*filter, (ix@[t],), false) || (before.len() == k
                                && dist_sq(pts[t], q@) >= worst(before)));
                        }
                    }
                    assert forall|jj: int|
                        0 <= jj < old(result)@.len() && !reports(
                            result@,
                            (#[trigger] old(result)@[jj]).1,
                        ) implies result@.len() == k && old(result)@[jj].0 >= worst(result@) by {
                        let id = old(result)@[jj].1;
                        if reports(before, id) {
                            let u = choose|u: int|
                                0 <= u < before.len() && (#[trigger] before[u]).1 == id;
                            assert(before[u].0 == dist_sq(points_view(data@)[id as int], q@));
                            assert(old(result)@[jj].0 == dist_sq(points_view(data@)[id as int], q@));
                            assert(!reports(result@, before[u].1));
                        } else {
                            assert(before.len() == k && old(result)@[jj].0 >= worst(before));
                        }
                    }
                    assert forall|id: usize|
                        reports(result@, id) implies reports(old(result)@, id) || (among(
                        ix@,
                        lo as int,
                        j as int + 1,
                        id,
                    ) && call_ensures(*filter, (id,), true)) by {
                        if id == ix@[j as int] && !reports(before, id) {
                            assert(ix@[j as int] == id);
                        } else if reports(before, id) {
                            if !reports(old(result)@, id) {
                                let t = choose|t: int|
                                    lo <= t < j && ix@[t] == id && call_ensures(
                                        *filter,
                                        (id,),
                                        true,
                                    );
                            }
                        }
                    }
                }
                j = j + 1;
            }
        } else {
            let m = lo + (hi - lo) / 2;
            let med_at = ix[m];
            proof {
                assert(pts[m as int] == points_view(data@)[med_at as int]);
                assert(points_view(data@)[med_at as int] == data@[med_at as int]@);
            }
            let qa = q[axis];
            let ma = data[med_at][axis];
            if qa <= ma {
                Self::dispatch_find_filtered_knn_by_index_recursive_on_subtrees(
                    data, ix, q, k, filter, d, result, lo, m, m + 1, hi, m, axis, bfs,
                );
            } else {
                Self::dispatch_find_filtered_knn_by_index_recursive_on_subtrees(
                    data, ix, q, k, filter, d, result, m + 1, hi, lo, m, m, axis, bfs,
                );
            }
            let ghost mid_state = result@;
            let med_dist = dist_sq_exec(&data[med_at], q);
            let keep = (*filter)(med_at);
            if keep {
                proof {
                    assert(!reports(mid_state, med_at)) by {
                        if reports(mid_state, med_at) {
                            if reports(old(result)@, med_at) {
                                let i = choose|i: int|
                                    0 <= i < old(result)@.len() && (#[trigger] old(
                                        result,
                                    )@[i]).1 == med_at;
                                assert(old(result)@[i].1 != ix@[m as int]);
                            } else if among(ix@, lo as int, m as int, med_at) {
                                let t = choose|t: int| lo <= t < m && ix@[t] == med_at;
                            } else {
                                let t = choose|t: int| m + 1 <= t < hi && ix@[t] == med_at;
                            }
                        }
                    }
                }
                knn_try_insert(result, k, med_dist, med_at);
            }
            proof {
                assert forall|t: int|
                    lo <= t < hi && !reports(result@, #[trigger] ix@[t]) implies call_ensures(
                    *filter,
                    (ix@[t],),
                    false,
                ) || (result@.len() == k && dist_sq(pts[t], q@) >= worst(result@)) by {
                    if t == m {
                    } else if reports(mid_state, ix@[t]) {
                        let u = choose|u: int|
                            0 <= u < mid_state.len() && (#[trigger] mid_state[u]).1 == ix@[t];
                        assert(mid_state[u].0 == dist_sq(points_view(data@)[ix@[t] as int], q@));
                        assert(pts[t] == points_view(data@)[ix@[t] as int]);
                        assert(!reports(result@, mid_state[u].1));
                    } else {
                        if t < m {
                            assert(among(ix@, lo as int, m as int, ix@[t]));
                        } else {
                            assert(among(ix@, m as int + 1, hi as int, ix@[t]));
                        }
                    }
                }
                assert forall|jj: int|
                    0 <= jj < old(result)@.len() && !reports(
                        result@,
                        (#[trigger] old(result)@[jj]).1,
                    ) implies result@.len() == k && old(result)@[jj].0 >= worst(result@) by {
                    let id = old(result)@[jj].1;
                    if reports(mid_state, id) {
                        let u = choose|u: int|
                            0 <= u < mid_state.len() && (#[trigger] mid_state[u]).1 == id;
                        assert(mid_state[u].0 == dist_sq(points_view(data@)[id as int], q@));
                        assert(old(result)@[jj].0 == dist_sq(points_view(data@)[id as int], q@));
                        assert(!reports(result@, mid_state[u].1));
                    } else {
                        assert(mid_state.len() == k && old(result)@[jj].0 >= worst(mid_state));
                    }
                }
                assert forall|id: usize|
                    reports(result@, id) implies reports(old(result)@, id) || (among(
                    ix@,
                    lo as int,
                    hi as int,
                    id,
                ) && call_ensures(*filter, (id,), true)) by {
                    if id == med_at && !reports(mid_state, id) {
                        assert(ix@[m as int] == med_at);
                    } else if reports(mid_state, id) && !reports(old(result)@, id) {
                        if among(ix@, lo as int, m as int, id) {
                            let t = choose|t: int| lo <= t < m && ix@[t] == id;
                        } else {
                            let t = choose|t: int| m + 1 <= t < hi && ix@[t] == id;
                        }
                    }
                }
            }
        }
    }

    /// Search the near subtree, then the far subtree when it may still hold
    /// an accepted candidate closer than the current worst; the split point
    /// at `m` is offered by the caller after both.
    #[allow(clippy::too_many_arguments)]
    fn dispatch_find_filtered_knn_by_index_recursive_on_subtrees<F: Fn(usize) -> bool>(
        data: &Vec<Vec<i64>>,
        ix: &Vec<usize>,
        q: &Vec<i64>,
        k: usize,
        filter: &F,
        d: &mut Vec<i64>,
        result: &mut Vec<(u128, usize)>,
        near_lo: usize,
        near_hi: usize,
        far_lo: usize,
        far_hi: usize,
        m: usize,
        axis: usize,
        bfs: usize,
    )
        requires
            near_lo <= near_hi <= ix@.len(),
            far_lo <= far_hi <= ix@.len(),
            near_hi <= far_lo || far_hi <= near_lo,
            m < ix@.len(),
            !(near_lo <= m < near_hi),
            !(far_lo <= m < far_hi),
            forall|t: int| 0 <= t < ix@.len() ==> (#[trigger] ix@[t]) < data@.len(),
            forall|t1: int, t2: int|
                near_lo <= t1 < t2 < near_hi ==> (#[trigger] ix@[t1]) != (#[trigger] ix@[t2]),
            forall|t1: int, t2: int|
                far_lo <= t1 < t2 < far_hi ==> (#[trigger] ix@[t1]) != (#[trigger] ix@[t2]),
            forall|t1: int, t2: int|
                near_lo <= t1 < near_hi && far_lo <= t2 < far_hi ==> (#[trigger] ix@[t1]) != (
                #[trigger] ix@[t2]),
            forall|v: usize| v < data@.len() ==> call_requires(*filter, (v,)),
            wf_point(q@, q@.len() as int),
            wf_points(points_view(data@), q@.len() as int),
            axis < q@.len(),
            1 <= k,
            layout_ok(
                indexed_view(ix@, points_view(data@)),
                q@.len() as int,
                near_lo as int,
                near_hi as int,
                next_axis(axis as int, q@.len() as int),
            ),
            layout_ok(
                indexed_view(ix@, points_view(data@)),
                q@.len() as int,
                far_lo as int,
                far_hi as int,
                next_axis(axis as int, q@.len() as int),
            ),
            wf_dvec(old(d)@, q@.len() as int),
            forall|j: int|
                near_lo <= j < near_hi ==> separates(
                    old(d)@,
                    q@,
                    #[trigger] indexed_view(ix@, points_view(data@))[j],
                ),
            forall|j: int|
                far_lo <= j < far_hi ==> separates(
                    old(d)@,
                    q@,
                    #[trigger] indexed_view(ix@, points_view(data@))[j],
                ),
            (q@[axis as int] <= indexed_view(ix@, points_view(data@))[m as int][axis as int]
                && forall|j: int|
                far_lo <= j < far_hi ==> #[trigger] indexed_view(ix@, points_view(data@))[j][axis
                    as int] >= indexed_view(ix@, points_view(data@))[m as int][axis as int]) || (
            q@[axis as int] > indexed_view(ix@, points_view(data@))[m as int][axis as int]
                && forall|j: int|
                far_lo <= j < far_hi ==> #[trigger] indexed_view(ix@, points_view(data@))[j][axis
                    as int] <= indexed_view(ix@, points_view(data@))[m as int][axis as int]),
            entries_sorted(old(result)@),
            distinct_ids(old(result)@),
            old(result)@.len() <= k,
            entries_measure_base(old(result)@, points_view(data@), q@),
            forall|i: int, t: int|
                0 <= i < old(result)@.len() && near_lo <= t < near_hi ==> (#[trigger] old(
                    result,
                )@[i]).1 != (#[trigger] ix@[t]),
            forall|i: int, t: int|
                0 <= i < old(result)@.len() && far_lo <= t < far_hi ==> (#[trigger] old(
                    result,
                )@[i]).1 != (#[trigger] ix@[t]),
        ensures
            final(d)@ == old(d)@,
            entries_sorted(final(result)@),
            distinct_ids(final(result)@),
            entries_measure_base(final(result)@, points_view(data@), q@),
            final(result)@.len() <= k,
            forall|id: usize|
                reports(final(result)@, id) ==> reports(old(result)@, id) || ((among(
                    ix@,
                    near_lo as int,
                    near_hi as int,
                    id,
                ) || among(ix@, far_lo as int, far_hi as int, id)) && call_ensures(
                    *filter,
                    (id,),
                    true,
                )),
            forall|j: int|
                0 <= j < old(result)@.len() && !reports(
                    final(result)@,
                    (#[trigger] old(result)@[j]).1,
                ) ==> final(result)@.len() == k && old(result)@[j].0 >= worst(final(result)@),
            forall|t: int|
                near_lo <= t < near_hi && !reports(final(result)@, #[trigger] ix@[t])
                    ==> call_ensures(*filter, (ix@[t],), false) || (final(result)@.len() == k
                    && dist_sq(indexed_view(ix@, points_view(data@))[t], q@) >= worst(
                    final(result)@,
                )),
            forall|t: int|
                far_lo <= t < far_hi && !reports(final(result)@, #[trigger] ix@[t])
                    ==> call_ensures(*filter, (ix@[t],), false) || (final(result)@.len() == k
                    && dist_sq(indexed_view(ix@, points_view(data@))[t], q@) >= worst(
                    final(result)@,
                )),
            old(result)@.len() == k ==> final(result)@.len() == k && worst(final(result)@)
                <= worst(old(result)@),
            final(result)@.len() >= old(result)@.len(),
        decreases (near_hi - near_lo) + (far_hi - far_lo) + 1, 0int,
    {
        let ghost pts = indexed_view(ix@, points_view(data@));
        let dim = q.len();
        let next = if axis + 1 == dim {
            0
        } else {
            axis + 1
        };
        Self::find_filtered_knn_by_index_recursive(
            data, ix, q, k, filter, d, result, near_lo, near_hi, next, bfs,
        );
        let ghost near_state = result@;
        let saved = d[axis];
        let qa = q[axis];
        let med_at = ix[m];
        proof {
            assert(pts[m as int] == points_view(data@)[med_at as int]);
            assert(points_view(data@)[med_at as int] == data@[med_at as int]@);
        }
        let ma = data[med_at][axis];
        d.set(axis, qa - ma);
        let ghost dfar = d@;
        proof {
            assert forall|j: int|
                far_lo <= j < far_hi implies separates(dfar, q@, #[trigger] pts[j]) by {
                assert(separates(old(d)@, q@, pts[j]));
                assert(forall|i: int| 0 <= i < dfar.len() && i != axis ==> dfar[i] == old(d)@[i]);
            }
        }
        let bound = norm_sq_exec(d);
        let explore_far = if result.len() < k {
            true
        } else {
            bound < result[result.len() - 1].0
        };
        proof {
            assert forall|i: int, t: int|
                0 <= i < result@.len() && far_lo <= t < far_hi implies (#[trigger] result@[i]).1
                != (#[trigger] ix@[t]) by {
                let id = result@[i].1;
                assert(reports(near_state, id));
                if reports(old(result)@, id) {
                    let u = choose|u: int|
                        0 <= u < old(result)@.len() && (#[trigger] old(result)@[u]).1 == id;
                } else {
                    let u = choose|u: int| near_lo <= u < near_hi && ix@[u] == id;
                }
            }
        }
        if explore_far {
            Self::find_filtered_knn_by_index_recursive(
                data, ix, q, k, filter, d, result, far_lo, far_hi, next, bfs,
            );
        } else {
            proof {
                assert(near_state.len() == k);
                assert forall|t: int|
                    far_lo <= t < far_hi && !reports(result@, #[trigger] ix@[t]) implies
                    call_ensures(*filter, (ix@[t],), false) || (result@.len() == k && dist_sq(
                    pts[t],
                    q@,
                ) >= worst(result@)) by {
                    lemma_separation_bound(dfar, q@, pts[t]);
                }
            }
        }
        let ghost far_state = result@;
        d.set(axis, saved);
        proof {
            assert(d@ =~= old(d)@);
            assert forall|t: int|
                near_lo <= t < near_hi && !reports(far_state, #[trigger] ix@[t]) implies
                call_ensures(*filter, (ix@[t],), false) || (far_state.len() == k && dist_sq(
                pts[t],
                q@,
            ) >= worst(far_state)) by {
                if reports(near_state, ix@[t]) {
                    let u = choose|u: int|
                        0 <= u < near_state.len() && (#[trigger] near_state[u]).1 == ix@[t];
                    assert(near_state[u].0 == dist_sq(points_view(data@)[ix@[t] as int], q@));
                    assert(pts[t] == points_view(data@)[ix@[t] as int]);
                    assert(!reports(far_state, near_state[u].1));
                }
            }
            assert forall|jj: int|
                0 <= jj < old(result)@.len() && !reports(
                    far_state,
                    (#[trigger] old(result)@[jj]).1,
                ) implies far_state.len() == k && old(result)@[jj].0 >= worst(far_state) by {
                let id = old(result)@[jj].1;
                if reports(near_state, id) {
                    let u = choose|u: int|
                        0 <= u < near_state.len() && (#[trigger] near_state[u]).1 == id;
                    assert(near_state[u].0 == dist_sq(points_view(data@)[id as int], q@));
                    assert(old(result)@[jj].0 == dist_sq(points_view(data@)[id as int], q@));
                    assert(!reports(far_state, near_state[u].1));
                } else {
                    assert(near_state.len() == k && old(result)@[jj].0 >= worst(near_state));
                }
            }
        }
    }
}

} // verus!
