//! The owning index: stores the points themselves, reordered in place during
//! construction into an implicit balanced tree.

use vstd::prelude::*;

pub mod count_neighbourhood;
pub mod knn;
pub mod knn_by_index;
pub mod neighbourhood;
pub mod neighbourhood_by_index;

use crate::geom::{wf_point, wf_points};
use crate::model::{layout_ok, points_view};
use crate::select::{lemma_ms_map, select_median_with_row_recursive};

verus! {

/// The brute-force threshold an owning index starts with: subtrees of at
/// most this many points are scanned linearly.  Empirically tuned; queries
/// return the same results for every threshold.
pub const DEFAULT_BRUTE_FORCE_SIZE: usize = 34;

/// A static spatial index owning a reordered copy of its points.
pub struct KdTree {
    data: Vec<Vec<i64>>,
    dim: usize,
    /// Subtree size at or below which queries switch to a linear scan
    /// instead of recursing further.  May be changed at any time; it affects
    /// only the cost of queries, never their results.
    pub brute_force_size: usize,
}

impl KdTree {
    /// The indexed points, in their reordered storage order.
    pub closed spec fn points(&self) -> Seq<Seq<i64>> {
        points_view(self.data@)
    }

    /// The dimension every indexed point and every query point has.
    pub closed spec fn dims(&self) -> int {
        self.dim as int
    }

    /// The current brute-force threshold.
    pub closed spec fn threshold(&self) -> usize {
        self.brute_force_size
    }

    /// A valid index: a positive dimension, well-formed points, and the
    /// implicit balanced-tree layout over the whole storage.
    pub open spec fn wf(&self) -> bool {
        &&& self.dims() >= 1
        &&& wf_points(self.points(), self.dims())
        &&& layout_ok(self.points(), self.dims(), 0, self.points().len() as int, 0)
    }

    /// Create a new index over `data`, points of dimension `dim`, reordering
    /// the storage into the implicit balanced-tree layout.
    pub fn new(data: Vec<Vec<i64>>, dim: usize) -> (tree: Self)
        requires
            dim >= 1,
            forall|j: int| 0 <= j < data@.len() ==> wf_point(#[trigger] data@[j]@, dim as int),
        ensures
            tree.wf(),
            tree.dims() == dim,
            tree.points().len() == data@.len(),
            tree.points().to_multiset() == points_view(data@).to_multiset(),
            tree.threshold() == DEFAULT_BRUTE_FORCE_SIZE,
    {
        let ghost orig = data@;
        let mut data = data;
        let n = data.len();
        if n >= 2 {
            select_median_with_row_recursive(&mut data, 0, n, 0, dim);
            proof {
                assert(data@.subrange(0, n as int) =~= data@);
                assert(orig.subrange(0, n as int) =~= orig);
                lemma_ms_map(data@, orig, |p: Vec<i64>| p@);
            }
        }
        let tree = KdTree { data, dim, brute_force_size: DEFAULT_BRUTE_FORCE_SIZE };
        proof {
            assert(wf_points(tree.points(), dim as int));
        }
        tree
    }

    /// Create a new index and set its brute-force threshold.
    pub fn with_brute_force_size(data: Vec<Vec<i64>>, dim: usize, brute_force_size: usize) -> (tree: Self)
        requires
            dim >= 1,
            forall|j: int| 0 <= j < data@.len() ==> wf_point(#[trigger] data@[j]@, dim as int),
        ensures
            tree.wf(),
            tree.dims() == dim,
            tree.points().len() == data@.len(),
            tree.points().to_multiset() == points_view(data@).to_multiset(),
            tree.threshold() == brute_force_size,
    {
        let mut tree = Self::new(data, dim);
        tree.brute_force_size = brute_force_size;
        tree
    }

    /// Number of points in the index.
    pub fn len(&self) -> (n: usize)
        ensures
            n == self.points().len(),
    {
        self.data.len()
    }

    /// Whether the index holds no points.
    pub fn is_empty(&self) -> (e: bool)
        ensures
            e <==> self.points().len() == 0,
    {
        self.data.is_empty()
    }

    /// The dimension of the indexed points.
    pub fn dim(&self) -> (d: usize)
        ensures
            d == self.dims(),
    {
        self.dim
    }

    /// Read-only access to the indexed points, in storage order.
    pub fn data(&self) -> (rows: &Vec<Vec<i64>>)
        ensures
            points_view(rows@) == self.points(),
    {
        &self.data
    }
}

impl crate::unified::UnifiedKdTreeTestApi for KdTree {
    open spec fn api_points(&self) -> Seq<Seq<i64>> {
        self.points()
    }

    open spec fn api_dims(&self) -> int {
        self.dims()
    }

    open spec fn api_wf(&self) -> bool {
        self.wf()
    }

    fn query_within(&self, p: &Vec<i64>, eps: i64, _points: &Vec<Vec<i64>>) -> (found: Vec<
        Vec<i64>,
    >) {
        self.neighbourhood(p, eps)
    }

    fn count_within(&self, p: &Vec<i64>, eps: i64) -> (count: usize) {
        self.count_neighbourhood(p, eps)
    }
}

} // verus!
