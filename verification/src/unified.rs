//! One query interface over both index variants, convenient for comparing
//! their answers: each implementation must report exactly the points within
//! the radius, so any two implementations over the same points must agree.

use vstd::prelude::*;

use crate::geom::wf_point;
use crate::model::{hit_count, point_hits, points_view};

verus! {

/// A unified query interface over spatial indices.
pub trait UnifiedKdTreeTestApi {
    /// The indexed points, in the implementation's internal order.
    spec fn api_points(&self) -> Seq<Seq<i64>>;

    /// The dimension of indexed and query points.
    spec fn api_dims(&self) -> int;

    /// The implementation's validity invariant.
    spec fn api_wf(&self) -> bool;

    /// Owned copies of exactly the indexed points within (inclusive) radius
    /// `eps` of `p`, in unspecified order.  The `points` argument carries
    /// the indexed points for implementations that only store positions.
    fn query_within(&self, p: &Vec<i64>, eps: i64, points: &Vec<Vec<i64>>) -> (found: Vec<Vec<i64>>)
        requires
            self.api_wf(),
            wf_point(p@, self.api_dims()),
        ensures
            points_view(found@).to_multiset() == point_hits(self.api_points(), p@, eps as int),
    ;

    /// Number of indexed points within (inclusive) radius `eps` of `p`.
    fn count_within(&self, p: &Vec<i64>, eps: i64) -> (count: usize)
        requires
            self.api_wf(),
            wf_point(p@, self.api_dims()),
        ensures
            count == hit_count(
                self.api_points(),
                p@,
                eps as int,
                0,
                self.api_points().len() as int,
            ),
    ;
}

} // verus!
