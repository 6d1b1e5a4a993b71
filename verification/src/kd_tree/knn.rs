//! Nearest-neighbour query for the owning index, returning owned copies of
//! the points together with their squared distances.

use vstd::prelude::*;

use crate::geom::{copy_point, dist_sq, wf_point};
use crate::kd_tree::knn_by_index::entries_measure;
use crate::kd_tree::KdTree;
use crate::knn_list::{distinct_ids, entries_sorted, reports, worst};

verus! {

/// `found` spells out the entries `ids`: the same squared distances, with
/// each storage position replaced by a copy of the point standing there.
pub open spec fn entries_spelled_out(
    found: Seq<(u128, Vec<i64>)>,
    ids: Seq<(u128, usize)>,
    pts: Seq<Seq<i64>>,
) -> bool {
    &&& found.len() == ids.len()
    &&& forall|i: int|
        0 <= i < found.len() ==> {
            let at = ids[i].1 as int;
            (#[trigger] found[i]).0 == ids[i].0 && found[i].1@ == pts[at]
        }
}

impl KdTree {
    /// The `min(k, len)` indexed points closest to `point`, as pairs of
    /// squared distance and point copy, ascending by distance: the reported
    /// positions are distinct, and every unreported point is at least as far
    /// from `point` as the worst reported one.  `k == 0` yields an empty
    /// result.
    pub fn knn(&self, point: &Vec<i64>, k: usize) -> (found: Vec<(u128, Vec<i64>)>)
        requires
            self.wf(),
            wf_point(point@, self.dims()),
        ensures
            found@.len() == if k <= self.points().len() {
                k as nat
            } else {
                self.points().len()
            },
            forall|a: int, b: int|
                0 <= a < b < found@.len() ==> (#[trigger] found@[a]).0 <= (#[trigger] found@[b]).0,
            forall|i: int|
                0 <= i < found@.len() ==> (#[trigger] found@[i]).0 == dist_sq(
                    found@[i].1@,
                    point@,
                ),
            exists|ids: Seq<(u128, usize)>|
                {
                    &&& #[trigger] entries_spelled_out(found@, ids, self.points())
                    &&& entries_sorted(ids)
                    &&& distinct_ids(ids)
                    &&& entries_measure(ids, self.points(), point@)
                    &&& forall|v: usize|
                        v < self.points().len() && !reports(ids, v) ==> ids.len() == k && (k == 0
                            || dist_sq(self.points()[v as int], point@) >= worst(ids))
                },
    {
        let ghost pts = self.points();
        let ids = self.knn_by_index(point, k);
        let mut found: Vec<(u128, Vec<i64>)> = Vec::new();
        let mut i: usize = 0;
        while i < ids.len()
            invariant
                i <= ids@.len(),
                found@.len() == i,
                entries_measure(ids@, pts, point@),
                forall|t: int| 0 <= t < ids@.len() ==> (#[trigger] ids@[t]).1 < self.data@.len(),
                pts == self.points(),
                forall|t: int|
                    0 <= t < i ==> {
                        let at = ids@[t].1 as int;
                        (#[trigger] found@[t]).0 == ids@[t].0 && found@[t].1@ == pts[at]
                    },
            decreases ids@.len() - i,
        {
            let (dst, at) = (ids[i].0, ids[i].1);
            proof {
                assert(pts[at as int] == self.data@[at as int]@);
            }
            let pt = copy_point(&self.data[at]);
            found.push((dst, pt));
            i = i + 1;
        }
        proof {
            assert(entries_spelled_out(found@, ids@, pts));
        }
        found
    }
}

} // verus!
