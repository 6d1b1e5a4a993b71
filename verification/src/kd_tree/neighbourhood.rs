//! Radius query for the owning index, returning the matching points.

use vstd::prelude::*;

use vstd::multiset::Multiset;

use crate::geom::{
    copy_point, dist_sq_exec, lemma_separation_bound, lemma_sq_bound, norm_sq_exec, separates,
    wf_dvec, wf_point, wf_points, within_eps,
};
use crate::kd_tree::KdTree;
use crate::model::{
    hit_count, hits, layout_ok, lemma_hits_none, lemma_hits_split, mid, next_axis, point_hits,
    points_view,
};

verus! {

impl KdTree {
    /// All indexed points within (inclusive) radius `epsilon` of `point`, as
    /// owned copies, in unspecified order.  A negative radius matches
    /// nothing.
    pub fn neighbourhood(&self, point: &Vec<i64>, epsilon: i64) -> (found: Vec<Vec<i64>>)
        requires
            self.wf(),
            wf_point(point@, self.dims()),
        ensures
            points_view(found@).to_multiset() == point_hits(self.points(), point@, epsilon as int),
            found@.len() == hit_count(self.points(), point@, epsilon as int, 0, self.points().len() as int),
    {
        broadcast use vstd::multiset::group_multiset_axioms;
        broadcast use vstd::seq_lib::group_to_multiset_ensures;
        broadcast use vstd::multiset::lemma_multiset_empty_len;

        let n = self.data.len();
        let mut found: Vec<Vec<i64>> = Vec::new();
        if epsilon < 0 {
            proof {
                lemma_hits_none(self.points(), self.points(), point@, epsilon as int, 0, n as int);
                assert(points_view(found@) =~= Seq::<Seq<i64>>::empty());
                assert(points_view(found@).to_multiset() =~= Multiset::<Seq<i64>>::empty());
            }
            return found;
        }
        proof {
            lemma_sq_bound(epsilon as int, i64::MAX as int);
        }
        let e2: u128 = (epsilon as u128) * (epsilon as u128);
        let mut d: Vec<i64> = vec![0i64; self.dim];
        proof {
            assert(forall|i: int| 0 <= i < d@.len() ==> #[trigger] d@[i] == 0i64);
            assert(points_view(found@) =~= Seq::<Seq<i64>>::empty());
            assert(points_view(found@).to_multiset() =~= Multiset::<Seq<i64>>::empty());
        }
        Self::find_neighbourhood_recursive(
            &self.data,
            point,
            epsilon,
            e2,
            &mut d,
            &mut found,
            0,
            n,
            0,
            self.brute_force_size,
        );
        proof {
            vstd::seq_lib::to_multiset_len(points_view(found@));
        }
        found
    }

    /// Collect the hits of the subtree `[lo, hi)`, keyed on `axis`, whose
    /// bounding region the subtree-distance vector `d` describes.
    #[verifier::loop_isolation(false)]
    fn find_neighbourhood_recursive(
        data: &Vec<Vec<i64>>,
        q: &Vec<i64>,
        eps: i64,
        e2: u128,
        d: &mut Vec<i64>,
        result: &mut Vec<Vec<i64>>,
        lo: usize,
        hi: usize,
        axis: usize,
        bfs: usize,
    )
        requires
            lo <= hi <= data@.len(),
            wf_point(q@, q@.len() as int),
            wf_points(points_view(data@), q@.len() as int),
            axis < q@.len(),
            eps >= 0,
            e2 == eps * eps,
            layout_ok(points_view(data@), q@.len() as int, lo as int, hi as int, axis as int),
            wf_dvec(old(d)@, q@.len() as int),
            forall|j: int|
                lo <= j < hi ==> separates(old(d)@, q@, #[trigger] points_view(data@)[j]),
        ensures
            final(d)@ == old(d)@,
            points_view(final(result)@).to_multiset() == points_view(old(result)@).to_multiset()
                .add(
                hits(
                    points_view(data@),
                    points_view(data@),
                    q@,
                    eps as int,
                    lo as int,
                    hi as int,
                ),
            ),
        decreases hi - lo, 1int,
    {
        broadcast use vstd::multiset::group_multiset_axioms;
        broadcast use vstd::seq_lib::group_to_multiset_ensures;

        let ghost pts = points_view(data@);
        let cutoff = if bfs < 1 {
            1
        } else {
            bfs
        };
        if hi - lo <= cutoff {
            let mut j = lo;
            while j < hi
                invariant
                    lo <= j <= hi,
                    points_view(result@).to_multiset() =~= points_view(old(result)@).to_multiset()
                        .add(hits(pts, pts, q@, eps as int, lo as int, j as int)),
                decreases hi - j,
            {
                proof {
                    assert(points_view(data@)[j as int] == data@[j as int]@);
                }
                let dist = dist_sq_exec(&data[j], q);
                if dist <= e2 {
                    let pt = copy_point(&data[j]);
                    let ghost before = result@;
                    result.push(pt);
                    proof {
                        assert(points_view(result@) =~= points_view(before).push(pt@));
                    }
                }
                j = j + 1;
            }
        } else {
            let m = lo + (hi - lo) / 2;
            proof {
                assert(points_view(data@)[m as int] == data@[m as int]@);
            }
            let med_dist = dist_sq_exec(&data[m], q);
            if med_dist <= e2 {
                let pt = copy_point(&data[m]);
                let ghost before = result@;
                result.push(pt);
                proof {
                    assert(points_view(result@) =~= points_view(before).push(pt@));
                }
            }
            let qa = q[axis];
            let ma = data[m][axis];
            if qa <= ma {
                Self::dispatch_find_neighbourhood_recursive_on_subtrees(
                    data, q, eps, e2, d, result, lo, m, m + 1, hi, m, axis, bfs,
                );
            } else {
                Self::dispatch_find_neighbourhood_recursive_on_subtrees(
                    data, q, eps, e2, d, result, m + 1, hi, lo, m, m, axis, bfs,
                );
            }
            proof {
                lemma_hits_split(pts, pts, q@, eps as int, lo as int, m as int, hi as int);
                lemma_hits_split(pts, pts, q@, eps as int, m as int, m as int + 1, hi as int);
                assert(hits(pts, pts, q@, eps as int, m as int, m as int) =~= Multiset::empty());
                assert(mid(lo as int, hi as int) == m as int);
                assert(points_view(result@).to_multiset() =~= points_view(old(result)@)
                    .to_multiset().add(
                    hits(pts, pts, q@, eps as int, lo as int, hi as int),
                ));
            }
        }
    }

    /// Collect the hits of the near subtree, then of the far subtree if the
    /// lower bound on its distance admits it; the split point at `m` is
    /// handled by the caller.
    #[allow(clippy::too_many_arguments)]
    fn dispatch_find_neighbourhood_recursive_on_subtrees(
        data: &Vec<Vec<i64>>,
        q: &Vec<i64>,
        eps: i64,
        e2: u128,
        d: &mut Vec<i64>,
        result: &mut Vec<Vec<i64>>,
        near_lo: usize,
        near_hi: usize,
        far_lo: usize,
        far_hi: usize,
        m: usize,
        axis: usize,
        bfs: usize,
    )
        requires
            near_lo <= near_hi <= data@.len(),
            far_lo <= far_hi <= data@.len(),
            m < data@.len(),
            wf_point(q@, q@.len() as int),
            wf_points(points_view(data@), q@.len() as int),
            axis < q@.len(),
            eps >= 0,
            e2 == eps * eps,
            layout_ok(
                points_view(data@),
                q@.len() as int,
                near_lo as int,
                near_hi as int,
                next_axis(axis as int, q@.len() as int),
            ),
            layout_ok(
                points_view(data@),
                q@.len() as int,
                far_lo as int,
                far_hi as int,
                next_axis(axis as int, q@.len() as int),
            ),
            wf_dvec(old(d)@, q@.len() as int),
            forall|j: int|
                near_lo <= j < near_hi ==> separates(
                    old(d)@,
                    q@,
                    #[trigger] points_view(data@)[j],
                ),
            forall|j: int|
                far_lo <= j < far_hi ==> separates(old(d)@, q@, #[trigger] points_view(data@)[j]),
            (q@[axis as int] <= points_view(data@)[m as int][axis as int] && forall|j: int|
                far_lo <= j < far_hi ==> #[trigger] points_view(data@)[j][axis as int]
                    >= points_view(data@)[m as int][axis as int]) || (q@[axis as int]
                > points_view(data@)[m as int][axis as int] && forall|j: int|
                far_lo <= j < far_hi ==> #[trigger] points_view(data@)[j][axis as int]
                    <= points_view(data@)[m as int][axis as int]),
        ensures
            final(d)@ == old(d)@,
            points_view(final(result)@).to_multiset() == points_view(old(result)@).to_multiset()
                .add(
                hits(
                    points_view(data@),
                    points_view(data@),
                    q@,
                    eps as int,
                    near_lo as int,
                    near_hi as int,
                ),
            ).add(
                hits(
                    points_view(data@),
                    points_view(data@),
                    q@,
                    eps as int,
                    far_lo as int,
                    far_hi as int,
                ),
            ),
        decreases (near_hi - near_lo) + (far_hi - far_lo) + 1, 0int,
    {
        broadcast use vstd::multiset::group_multiset_axioms;

        let ghost pts = points_view(data@);
        let dim = q.len();
        let next = if axis + 1 == dim {
            0
        } else {
            axis + 1
        };
        Self::find_neighbourhood_recursive(
            data, q, eps, e2, d, result, near_lo, near_hi, next, bfs,
        );
        let saved = d[axis];
        let qa = q[axis];
        let ma = data[m][axis];
        d.set(axis, qa - ma);
        let ghost dfar = d@;
        proof {
            assert forall|j: int|
                far_lo <= j < far_hi implies separates(dfar, q@, #[trigger] pts[j]) by {
                assert(separates(old(d)@, q@, pts[j]));
                assert(forall|i: int| 0 <= i < dfar.len() && i != axis ==> dfar[i] == old(d)@[i]);
            }
        }
        let bound = norm_sq_exec(d);
        if bound <= e2 {
            Self::find_neighbourhood_recursive(data, q, eps, e2, d, result, far_lo, far_hi, next, bfs);
        } else {
            proof {
                assert forall|j: int|
                    far_lo <= j < far_hi implies !within_eps(#[trigger] pts[j], q@, eps as int) by {
                    lemma_separation_bound(dfar, q@, pts[j]);
                }
                lemma_hits_none(pts, pts, q@, eps as int, far_lo as int, far_hi as int);
            }
        }
        d.set(axis, saved);
        proof {
            assert(d@ =~= old(d)@);
            assert(points_view(result@).to_multiset() =~= points_view(old(result)@)
                .to_multiset().add(
                hits(pts, pts, q@, eps as int, near_lo as int, near_hi as int),
            ).add(hits(pts, pts, q@, eps as int, far_lo as int, far_hi as int)));
        }
    }
}

} // verus!
