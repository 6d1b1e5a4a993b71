//! Nearest-neighbour query for the owning index, reporting storage
//! positions: the true `k` closest points, ascending by squared distance.

use vstd::prelude::*;

use crate::geom::{
    dist_sq, dist_sq_exec, lemma_separation_bound, norm_sq_exec, separates, wf_dvec, wf_point,
    wf_points,
};
use crate::kd_tree::KdTree;
use crate::knn_list::{distinct_ids, entries_sorted, knn_try_insert, reports, worst};
use crate::model::{layout_ok, next_axis, points_view};

verus! {

/// Every entry pairs the identity of an indexed point, here a storage
/// position, with its exact squared distance to the query point.
pub open spec fn entries_measure(r: Seq<(u128, usize)>, pts: Seq<Seq<i64>>, q: Seq<i64>) -> bool {
    forall|i: int|
        0 <= i < r.len() ==> (#[trigger] r[i]).1 < pts.len() && r[i].0 == dist_sq(
            pts[r[i].1 as int],
            q,
        )
}

impl KdTree {
    /// The `min(k, len)` indexed points closest to `point`, as pairs of
    /// squared distance and storage position, ascending by distance.  Every
    /// position left unreported is at least as far from `point` as the worst
    /// reported one; ties are broken by traversal order.  `k == 0` yields an
    /// empty result.
    pub fn knn_by_index(&self, point: &Vec<i64>, k: usize) -> (found: Vec<(u128, usize)>)
        requires
            self.wf(),
            wf_point(point@, self.dims()),
        ensures
            found@.len() == if k <= self.points().len() {
                k as nat
            } else {
                self.points().len()
            },
            entries_sorted(found@),
            distinct_ids(found@),
            entries_measure(found@, self.points(), point@),
            forall|v: usize|
                v < self.points().len() && !reports(found@, v) ==> found@.len() == k && (k == 0
                    || dist_sq(self.points()[v as int], point@) >= worst(found@)),
    {
        let mut found: Vec<(u128, usize)> = Vec::new();
        if k == 0 {
            return found;
        }
        let n = self.data.len();
        let mut d: Vec<i64> = vec![0i64; self.dim];
        proof {
            assert(forall|i: int| 0 <= i < d@.len() ==> #[trigger] d@[i] == 0i64);
        }
        Self::find_knn_by_index_recursive(
            &self.data,
            point,
            k,
            &mut d,
            &mut found,
            0,
            n,
            0,
            self.brute_force_size,
        );
        found
    }

    /// Offer every point of the subtree `[lo, hi)`, keyed on `axis`, to the
    /// candidate list, pruning subtrees that the lower bound from the
    /// subtree-distance vector `d` rules out.
    #[verifier::loop_isolation(false)]
    fn find_knn_by_index_recursive(
        data: &Vec<Vec<i64>>,
        q: &Vec<i64>,
        k: usize,
        d: &mut Vec<i64>,
        result: &mut Vec<(u128, usize)>,
        lo: usize,
        hi: usize,
        axis: usize,
        bfs: usize,
    )
        requires
            lo <= hi <= data@.len(),
            wf_point(q@, q@.len() as int),
            wf_points(points_view(data@), q@.len() as int),
            axis < q@.len(),
            1 <= k,
            layout_ok(points_view(data@), q@.len() as int, lo as int, hi as int, axis as int),
            wf_dvec(old(d)@, q@.len() as int),
            forall|j: int|
                lo <= j < hi ==> separates(old(d)@, q@, #[trigger] points_view(data@)[j]),
            entries_sorted(old(result)@),
            distinct_ids(old(result)@),
            old(result)@.len() <= k,
            entries_measure(old(result)@, points_view(data@), q@),
            forall|i: int|
                0 <= i < old(result)@.len() ==> !(lo <= (#[trigger] old(result)@[i]).1 < hi),
        ensures
            final(d)@ == old(d)@,
            entries_sorted(final(result)@),
            distinct_ids(final(result)@),
            entries_measure(final(result)@, points_view(data@), q@),
            final(result)@.len() == if old(result)@.len() + (hi - lo) < k {
                old(result)@.len() + (hi - lo)
            } else {
                k as int
            },
            forall|id: usize|
                reports(final(result)@, id) ==> reports(old(result)@, id) || lo <= id < hi,
            forall|j: int|
                0 <= j < old(result)@.len() && !reports(
                    final(result)@,
                    (#[trigger] old(result)@[j]).1,
                ) ==> final(result)@.len() == k && old(result)@[j].0 >= worst(final(result)@),
            forall|v: usize|
                lo <= v < hi && !reports(final(result)@, v) ==> final(result)@.len() == k
                    && dist_sq(points_view(data@)[v as int], q@) >= worst(final(result)@),
            old(result)@.len() == k ==> worst(final(result)@) <= worst(old(result)@),
            final(result)@.len() >= old(result)@.len(),
        decreases hi - lo, 1int,
    {
        let ghost pts = points_view(data@);
        let cutoff = if bfs < 1 {
            1
        } else {
            bfs
        };
        if hi - lo <= cutoff {
            let mut j = lo;
            while j < hi
                invariant
                    lo <= j <= hi,
                    entries_sorted(result@),
                    distinct_ids(result@),
                    entries_measure(result@, pts, q@),
                    result@.len() == if old(result)@.len() + (j - lo) < k {
                        old(result)@.len() + (j - lo)
                    } else {
                        k as int
                    },
                    forall|id: usize|
                        reports(result@, id) ==> reports(old(result)@, id) || lo <= id < j,
                    forall|jj: int|
                        0 <= jj < old(result)@.len() && !reports(
                            result@,
                            (#[trigger] old(result)@[jj]).1,
                        ) ==> result@.len() == k && old(result)@[jj].0 >= worst(result@),
                    forall|v: usize|
                        lo <= v < j && !reports(result@, v) ==> result@.len() == k && dist_sq(
                            pts[v as int],
                            q@,
                        ) >= worst(result@),
                    old(result)@.len() == k ==> worst(result@) <= worst(old(result)@),
                    result@.len() >= old(result)@.len(),
                decreases hi - j,
            {
                proof {
                    assert(pts[j as int] == data@[j as int]@);
                }
                let dist = dist_sq_exec(&data[j], q);
                let ghost before = result@;
                proof {
                    assert(!reports(before, j)) by {
                        assert(forall|id: usize|
                            reports(before, id) ==> reports(old(result)@, id) || lo <= id < j);
                    }
                }
                knn_try_insert(result, k, dist, j);
                proof {
                    assert forall|v: usize|
                        lo <= v < j + 1 && !reports(result@, v) implies result@.len() == k
                        && dist_sq(pts[v as int], q@) >= worst(result@) by {
                        if v == j {
                        } else if reports(before, v) {
                            let t = choose|t: int|
                                0 <= t < before.len() && (#[trigger] before[t]).1 == v;
                            assert(before[t].0 == dist_sq(pts[v as int], q@));
                            assert(!reports(result@, before[t].1));
                        } else {
                            assert(before.len() == k && dist_sq(pts[v as int], q@) >= worst(
                                before,
                            ));
                        }
                    }
                    assert forall|jj: int|
                        0 <= jj < old(result)@.len() && !reports(
                            result@,
                            (#[trigger] old(result)@[jj]).1,
                        ) implies result@.len() == k && old(result)@[jj].0 >= worst(result@) by {
                        let id = old(result)@[jj].1;
                        if reports(before, id) {
                            let t = choose|t: int|
                                0 <= t < before.len() && (#[trigger] before[t]).1 == id;
                            assert(before[t].0 == dist_sq(pts[id as int], q@));
                            assert(old(result)@[jj].0 == dist_sq(pts[id as int], q@));
                            assert(!reports(result@, before[t].1));
                        } else {
                            assert(before.len() == k && old(result)@[jj].0 >= worst(before));
                        }
                    }
                }
                j = j + 1;
            }
        } else {
            let m = lo + (hi - lo) / 2;
            proof {
                assert(pts[m as int] == data@[m as int]@);
            }
            let qa = q[axis];
            let ma = data[m][axis];
            if qa <= ma {
                Self::dispatch_find_knn_by_index_recursive_on_subtrees(
                    data, q, k, d, result, lo, m, m + 1, hi, m, axis, bfs,
                );
            } else {
                Self::dispatch_find_knn_by_index_recursive_on_subtrees(
                    data, q, k, d, result, m + 1, hi, lo, m, m, axis, bfs,
                );
            }
            let ghost mid_state = result@;
            proof {
                assert(pts[m as int] == data@[m as int]@);
                assert(!reports(mid_state, m)) by {
                    if reports(mid_state, m) {
                        if reports(old(result)@, m) {
                            let t = choose|t: int|
                                0 <= t < old(result)@.len() && (#[trigger] old(
                                    result,
                                )@[t]).1 == m;
                            assert(!(lo <= old(result)@[t].1 < hi));
                        }
                    }
                }
            }
            let med_dist = dist_sq_exec(&data[m], q);
            knn_try_insert(result, k, med_dist, m);
            proof {
                assert forall|v: usize|
                    lo <= v < hi && !reports(result@, v) implies result@.len() == k && dist_sq(
                    pts[v as int],
                    q@,
                ) >= worst(result@) by {
                    if v == m {
                    } else if reports(mid_state, v) {
                        let t = choose|t: int|
                            0 <= t < mid_state.len() && (#[trigger] mid_state[t]).1 == v;
                        assert(mid_state[t].0 == dist_sq(pts[v as int], q@));
                        assert(!reports(result@, mid_state[t].1));
                    } else {
                        assert(mid_state.len() == k && dist_sq(pts[v as int], q@) >= worst(
                            mid_state,
                        ));
                    }
                }
                assert forall|jj: int|
                    0 <= jj < old(result)@.len() && !reports(
                        result@,
                        (#[trigger] old(result)@[jj]).1,
                    ) implies result@.len() == k && old(result)@[jj].0 >= worst(result@) by {
                    let id = old(result)@[jj].1;
                    if reports(mid_state, id) {
                        let t = choose|t: int|
                            0 <= t < mid_state.len() && (#[trigger] mid_state[t]).1 == id;
                        assert(mid_state[t].0 == dist_sq(pts[id as int], q@));
                        assert(old(result)@[jj].0 == dist_sq(pts[id as int], q@));
                        assert(!reports(result@, mid_state[t].1));
                    } else {
                        assert(mid_state.len() == k && old(result)@[jj].0 >= worst(mid_state));
                    }
                }
            }
        }
    }

    /// Search the near subtree, then the far subtree when it may still hold
    /// a candidate closer than the current worst; the split point at `m` is
    /// offered by the caller after both.
    #[allow(clippy::too_many_arguments)]
    fn dispatch_find_knn_by_index_recursive_on_subtrees(
        data: &Vec<Vec<i64>>,
        q: &Vec<i64>,
        k: usize,
        d: &mut Vec<i64>,
        result: &mut Vec<(u128, usize)>,
        near_lo: usize,
        near_hi: usize,
        far_lo: usize,
        far_hi: usize,
        m: usize,
        axis: usize,
        bfs: usize,
    )
        requires
            near_lo <= near_hi <= data@.len(),
            far_lo <= far_hi <= data@.len(),
            near_hi <= far_lo || far_hi <= near_lo,
            m < data@.len(),
            !(near_lo <= m < near_hi),
            !(far_lo <= m < far_hi),
            wf_point(q@, q@.len() as int),
            wf_points(points_view(data@), q@.len() as int),
            axis < q@.len(),
            1 <= k,
            layout_ok(
                points_view(data@),
                q@.len() as int,
                near_lo as int,
                near_hi as int,
                next_axis(axis as int, q@.len() as int),
            ),
            layout_ok(
                points_view(data@),
                q@.len() as int,
                far_lo as int,
                far_hi as int,
                next_axis(axis as int, q@.len() as int),
            ),
            wf_dvec(old(d)@, q@.len() as int),
            forall|j: int|
                near_lo <= j < near_hi ==> separates(
                    old(d)@,
                    q@,
                    #[trigger] points_view(data@)[j],
                ),
            forall|j: int|
                far_lo <= j < far_hi ==> separates(old(d)@, q@, #[trigger] points_view(data@)[j]),
            (q@[axis as int] <= points_view(data@)[m as int][axis as int] && forall|j: int|
                far_lo <= j < far_hi ==> #[trigger] points_view(data@)[j][axis as int]
                    >= points_view(data@)[m as int][axis as int]) || (q@[axis as int]
                > points_view(data@)[m as int][axis as int] && forall|j: int|
                far_lo <= j < far_hi ==> #[trigger] points_view(data@)[j][axis as int]
                    <= points_view(data@)[m as int][axis as int]),
            entries_sorted(old(result)@),
            distinct_ids(old(result)@),
            old(result)@.len() <= k,
            entries_measure(old(result)@, points_view(data@), q@),
            forall|i: int|
                0 <= i < old(result)@.len() ==> !(near_lo <= (#[trigger] old(result)@[i]).1
                    < near_hi),
            forall|i: int|
                0 <= i < old(result)@.len() ==> !(far_lo <= (#[trigger] old(result)@[i]).1
                    < far_hi),
        ensures
            final(d)@ == old(d)@,
            entries_sorted(final(result)@),
            distinct_ids(final(result)@),
            entries_measure(final(result)@, points_view(data@), q@),
            final(result)@.len() == if old(result)@.len() + (near_hi - near_lo) + (far_hi - far_lo)
                < k {
                old(result)@.len() + (near_hi - near_lo) + (far_hi - far_lo)
            } else {
                k as int
            },
            forall|id: usize|
                reports(final(result)@, id) ==> reports(old(result)@, id) || near_lo <= id
                    < near_hi || far_lo <= id < far_hi,
            forall|j: int|
                0 <= j < old(result)@.len() && !reports(
                    final(result)@,
                    (#[trigger] old(result)@[j]).1,
                ) ==> final(result)@.len() == k && old(result)@[j].0 >= worst(final(result)@),
            forall|v: usize|
                near_lo <= v < near_hi && !reports(final(result)@, v) ==> final(result)@.len() == k
                    && dist_sq(points_view(data@)[v as int], q@) >= worst(final(result)@),
            forall|v: usize|
                far_lo <= v < far_hi && !reports(final(result)@, v) ==> final(result)@.len() == k
                    && dist_sq(points_view(data@)[v as int], q@) >= worst(final(result)@),
            old(result)@.len() == k ==> worst(final(result)@) <= worst(old(result)@),
            final(result)@.len() >= old(result)@.len(),
        decreases (near_hi - near_lo) + (far_hi - far_lo) + 1, 0int,
    {
        let ghost pts = points_view(data@);
        let dim = q.len();
        let next = if axis + 1 == dim {
            0
        } else {
            axis + 1
        };
        Self::find_knn_by_index_recursive(data, q, k, d, result, near_lo, near_hi, next, bfs);
        let ghost near_state = result@;
        let saved = d[axis];
        let qa = q[axis];
        let ma = data[m][axis];
        d.set(axis, qa - ma);
        let ghost dfar = d@;
        proof {
            assert forall|j: int|
                far_lo <= j < far_hi implies separates(dfar, q@, #[trigger] pts[j]) by {
                assert(separates(old(d)@, q@, pts[j]));
                assert(forall|i: int| 0 <= i < dfar.len() && i != axis ==> dfar[i] == old(d)@[i]);
            }
        }
        let bound = norm_sq_exec(d);
        let explore_far = if result.len() < k {
            true
        } else {
            bound < result[result.len() - 1].0
        };
        proof {
            assert forall|i: int|
                0 <= i < result@.len() implies !(far_lo <= (#[trigger] result@[i]).1
                < far_hi) by {
                let id = result@[i].1;
                assert(reports(near_state, id));
                if reports(old(result)@, id) {
                    let t = choose|t: int|
                        0 <= t < old(result)@.len() && (#[trigger] old(result)@[t]).1 == id;
                } else {
                    assert(near_lo <= id < near_hi);
                }
            }
        }
        if explore_far {
            Self::find_knn_by_index_recursive(data, q, k, d, result, far_lo, far_hi, next, bfs);
        } else {
            proof {
                assert(near_state.len() == k);
                assert forall|v: usize|
                    far_lo <= v < far_hi && !reports(result@, v) implies result@.len() == k
                    && dist_sq(pts[v as int], q@) >= worst(result@) by {
                    lemma_separation_bound(dfar, q@, pts[v as int]);
                }
            }
        }
        let ghost far_state = result@;
        d.set(axis, saved);
        proof {
            assert(d@ =~= old(d)@);
            assert forall|v: usize|
                near_lo <= v < near_hi && !reports(far_state, v) implies far_state.len() == k
                && dist_sq(pts[v as int], q@) >= worst(far_state) by {
                if reports(near_state, v) {
                    let t = choose|t: int|
                        0 <= t < near_state.len() && (#[trigger] near_state[t]).1 == v;
                    assert(near_state[t].0 == dist_sq(pts[v as int], q@));
                    assert(!reports(far_state, near_state[t].1));
                } else {
                    assert(near_state.len() == k && dist_sq(pts[v as int], q@) >= worst(
                        near_state,
                    ));
                }
            }
        }
    }
}

} // verus!
