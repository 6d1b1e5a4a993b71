//! Counting radius query for the borrowing index: how many indexed points
//! lie within the radius, without allocating the matches.

use vstd::prelude::*;

use vstd::multiset::Multiset;

use crate::geom::{
    dist_sq_exec, lemma_separation_bound, lemma_sq_bound, norm_sq_exec, separates, wf_dvec,
    wf_point, wf_points, within_eps,
};
use crate::kd_index_tree::KdIndexTree;
use crate::model::{
    hit_count, hits, indexed_view, layout_ok, lemma_hits_len, lemma_hits_none, lemma_hits_split,
    mid, next_axis, points_view,
};

verus! {

impl<'a> KdIndexTree<'a> {
    /// Number of indexed points within (inclusive) radius `epsilon` of
    /// `point`.  A negative radius matches nothing.
    pub fn count_neighbourhood(&self, point: &Vec<i64>, epsilon: i64) -> (count: usize)
        requires
            self.wf(),
            wf_point(point@, self.dims()),
        ensures
            count == hit_count(
                self.points(),
                point@,
                epsilon as int,
                0,
                self.points().len() as int,
            ),
    {
        let n = self.indices.len();
        if epsilon < 0 {
            proof {
                lemma_hits_none(
                    self.points(),
                    self.points(),
                    point@,
                    epsilon as int,
                    0,
                    n as int,
                );
            }
            return 0;
        }
        proof {
            lemma_sq_bound(epsilon as int, i64::MAX as int);
        }
        let e2: u128 = (epsilon as u128) * (epsilon as u128);
        let mut d: Vec<i64> = vec![0i64; self.dim()];
        proof {
            assert(forall|i: int| 0 <= i < d@.len() ==> #[trigger] d@[i] == 0i64);
        }
        Self::count_neighbourhood_recursive(
            self.data,
            &self.indices,
            point,
            epsilon,
            e2,
            &mut d,
            0,
            n,
            0,
            self.brute_force_size,
        )
    }

    /// Count the hits of the subtree `[lo, hi)` of the permutation, keyed on
    /// `axis`, whose bounding region the subtree-distance vector `d`
    /// describes.
    #[verifier::loop_isolation(false)]
    #[allow(clippy::too_many_arguments)]
    fn count_neighbourhood_recursive(
        data: &Vec<Vec<i64>>,
        ix: &Vec<usize>,
        q: &Vec<i64>,
        eps: i64,
        e2: u128,
        d: &mut Vec<i64>,
        lo: usize,
        hi: usize,
        axis: usize,
        bfs: usize,
    ) -> (count: usize)
        requires
            lo <= hi <= ix@.len(),
            forall|t: int| 0 <= t < ix@.len() ==> (#[trigger] ix@[t]) < data@.len(),
            wf_point(q@, q@.len() as int),
            wf_points(points_view(data@), q@.len() as int),
            axis < q@.len(),
            eps >= 0,
            e2 == eps * eps,
            layout_ok(
                indexed_view(ix@, points_view(data@)),
                q@.len() as int,
                lo as int,
                hi as int,
                axis as int,
            ),
            wf_dvec(old(d)@, q@.len() as int),
            forall|j: int|
                lo <= j < hi ==> separates(
                    old(d)@,
                    q@,
                    #[trigger] indexed_view(ix@, points_view(data@))[j],
                ),
        ensures
            final(d)@ == old(d)@,
            count == hit_count(
                indexed_view(ix@, points_view(data@)),
                q@,
                eps as int,
                lo as int,
                hi as int,
            ),
        decreases hi - lo, 1int,
    {
        broadcast use vstd::multiset::group_multiset_axioms;

        let ghost pts = indexed_view(ix@, points_view(data@));
        let cutoff = if bfs < 1 {
            1
        } else {
            bfs
        };
        if hi - lo <= cutoff {
            let mut count: usize = 0;
            let mut j = lo;
            while j < hi
                invariant
                    lo <= j <= hi,
                    count == hits(pts, pts, q@, eps as int, lo as int, j as int).len(),
                    count <= j - lo,
                decreases hi - j,
            {
                let at = ix[j];
                proof {
                    assert(pts[j as int] == points_view(data@)[at as int]);
                    assert(points_view(data@)[at as int] == data@[at as int]@);
                }
                let dist = dist_sq_exec(&data[at], q);
                if dist <= e2 {
                    count = count + 1;
                }
                j = j + 1;
            }
            count
        } else {
            let m = lo + (hi - lo) / 2;
            let med_at = ix[m];
            proof {
                assert(pts[m as int] == points_view(data@)[med_at as int]);
                assert(points_view(data@)[med_at as int] == data@[med_at as int]@);
            }
            let med_dist = dist_sq_exec(&data[med_at], q);
            let here: usize = if med_dist <= e2 {
                1
            } else {
                0
            };
            let qa = q[axis];
            let ma = data[med_at][axis];
            let rest: usize = if qa <= ma {
                Self::dispatch_count_neighbourhood_recursive_on_subtrees(
                    data, ix, q, eps, e2, d, lo, m, m + 1, hi, m, axis, bfs,
                )
            } else {
                Self::dispatch_count_neighbourhood_recursive_on_subtrees(
                    data, ix, q, eps, e2, d, m + 1, hi, lo, m, m, axis, bfs,
                )
            };
            proof {
                lemma_hits_split(pts, pts, q@, eps as int, lo as int, m as int, hi as int);
                lemma_hits_split(pts, pts, q@, eps as int, m as int, m as int + 1, hi as int);
                lemma_hits_len(pts, pts, q@, eps as int, lo as int, m as int);
                lemma_hits_len(pts, pts, q@, eps as int, m as int + 1, hi as int);
                assert(hits(pts, pts, q@, eps as int, m as int, m as int) =~= Multiset::empty());
                assert(mid(lo as int, hi as int) == m as int);
            }
            here + rest
        }
    }

    /// Count the hits of the near subtree, then of the far subtree if the
    /// lower bound on its distance admits it; the split point at `m` is
    /// counted by the caller.
    #[allow(clippy::too_many_arguments)]
    fn dispatch_count_neighbourhood_recursive_on_subtrees(
        data: &Vec<Vec<i64>>,
        ix: &Vec<usize>,
        q: &Vec<i64>,
        eps: i64,
        e2: u128,
        d: &mut Vec<i64>,
        near_lo: usize,
        near_hi: usize,
        far_lo: usize,
        far_hi: usize,
        m: usize,
        axis: usize,
        bfs: usize,
    ) -> (count: usize)
        requires
            near_lo <= near_hi <= ix@.len(),
            far_lo <= far_hi <= ix@.len(),
            (near_hi - near_lo) + (far_hi - far_lo) < ix@.len(),
            m < ix@.len(),
            forall|t: int| 0 <= t < ix@.len() ==> (#[trigger] ix@[t]) < data@.len(),
            wf_point(q@, q@.len() as int),
            wf_points(points_view(data@), q@.len() as int),
            axis < q@.len(),
            eps >= 0,
            e2 == eps * eps,
            layout_ok(
                indexed_view(ix@, points_view(data@)),
                q@.len() as int,
                near_lo as int,
                near_hi as int,
                next_axis(axis as int, q@.len() as int),
            ),
            layout_ok(
                indexed_view(ix@, points_view(data@)),
                q@.len() as int,
                far_lo as int,
                far_hi as int,
                next_axis(axis as int, q@.len() as int),
            ),
            wf_dvec(old(d)@, q@.len() as int),
            forall|j: int|
                near_lo <= j < near_hi ==> separates(
                    old(d)@,
                    q@,
                    #[trigger] indexed_view(ix@, points_view(data@))[j],
                ),
            forall|j: int|
                far_lo <= j < far_hi ==> separates(
                    old(d)@,
                    q@,
                    #[trigger] indexed_view(ix@, points_view(data@))[j],
                ),
            (q@[axis as int] <= indexed_view(ix@, points_view(data@))[m as int][axis as int]
                && forall|j: int|
                far_lo <= j < far_hi ==> #[trigger] indexed_view(ix@, points_view(data@))[j][axis
                    as int] >= indexed_view(ix@, points_view(data@))[m as int][axis as int]) || (
            q@[axis as int] > indexed_view(ix@, points_view(data@))[m as int][axis as int]
                && forall|j: int|
                far_lo <= j < far_hi ==> #[trigger] indexed_view(ix@, points_view(data@))[j][axis
                    as int] <= indexed_view(ix@, points_view(data@))[m as int][axis as int]),
        ensures
            final(d)@ == old(d)@,
            count == hit_count(
                indexed_view(ix@, points_view(data@)),
                q@,
                eps as int,
                near_lo as int,
                near_hi as int,
            ) + hit_count(
                indexed_view(ix@, points_view(data@)),
                q@,
                eps as int,
                far_lo as int,
                far_hi as int,
            ),
        decreases (near_hi - near_lo) + (far_hi - far_lo) + 1, 0int,
    {
        broadcast use vstd::multiset::group_multiset_axioms;

        let ghost pts = indexed_view(ix@, points_view(data@));
        // Reading the length bounds the two sub-range sizes by the machine
        // word, which the final sum of counts needs.
        let _n = ix.len();
        let dim = q.len();
        let next = if axis + 1 == dim {
            0
        } else {
            axis + 1
        };
        let near_count = Self::count_neighbourhood_recursive(
            data, ix, q, eps, e2, d, near_lo, near_hi, next, bfs,
        );
        let saved = d[axis];
        let qa = q[axis];
        let med_at = ix[m];
        proof {
            assert(pts[m as int] == points_view(data@)[med_at as int]);
            assert(points_view(data@)[med_at as int] == data@[med_at as int]@);
        }
        let ma = data[med_at][axis];
        d.set(axis, qa - ma);
        let ghost dfar = d@;
        proof {
            assert forall|j: int|
                far_lo <= j < far_hi implies separates(dfar, q@, #[trigger] pts[j]) by {
                assert(separates(old(d)@, q@, pts[j]));
                assert(forall|i: int| 0 <= i < dfar.len() && i != axis ==> dfar[i] == old(d)@[i]);
            }
        }
        let bound = norm_sq_exec(d);
        let far_count: usize = if bound <= e2 {
            Self::count_neighbourhood_recursive(data, ix, q, eps, e2, d, far_lo, far_hi, next, bfs)
        } else {
            proof {
                assert forall|j: int|
                    far_lo <= j < far_hi implies !within_eps(#[trigger] pts[j], q@, eps as int) by {
                    lemma_separation_bound(dfar, q@, pts[j]);
                }
                lemma_hits_none(pts, pts, q@, eps as int, far_lo as int, far_hi as int);
            }
            0
        };
        d.set(axis, saved);
        proof {
            assert(d@ =~= old(d)@);
            lemma_hits_len(pts, pts, q@, eps as int, near_lo as int, near_hi as int);
            lemma_hits_len(pts, pts, q@, eps as int, far_lo as int, far_hi as int);
            assert(near_count <= near_hi - near_lo);
            assert(far_count <= far_hi - far_lo);
        }
        near_count + far_count
    }
}

} // verus!
