//! The borrowing index: owns only a reordered permutation of positions into
//! a caller-owned, immutable point slice, which construction never mutates.

use vstd::prelude::*;

pub mod count_neighbourhood;
pub mod filtered_knn_by_index;
pub mod knn_by_index;
pub mod neighbourhood_by_index;

use crate::geom::{copy_point, wf_point, wf_points};
use crate::model::{hits_seq, indexed_view, layout_ok, lemma_hits_members, lemma_hits_seq_map, lemma_hits_seq_ms, lemma_positions_count, points_view, positions};
use crate::select::{lemma_ms_map, select_median_with_respect_to_row_recursive};

verus! {

/// A static spatial index over borrowed points, owning a reordered
/// permutation of their positions.
pub struct KdIndexTree<'a> {
    indices: Vec<usize>,
    /// The borrowed points, in the caller's original order; the index never
    /// reorders or otherwise mutates them.
    pub data: &'a Vec<Vec<i64>>,
    dim: usize,
    /// Subtree size at or below which queries switch to a linear scan
    /// instead of recursing further.  May be changed at any time; it affects
    /// only the cost of queries, never their results.
    pub brute_force_size: usize,
}

impl<'a> KdIndexTree<'a> {
    /// The borrowed points, in the caller's original order.
    pub closed spec fn base(&self) -> Seq<Seq<i64>> {
        points_view(self.data@)
    }

    /// The owned permutation of positions into the borrowed points.
    pub closed spec fn perm(&self) -> Seq<usize> {
        self.indices@
    }

    /// The borrowed points read through the permutation: the index's
    /// reordered view of them.
    pub open spec fn points(&self) -> Seq<Seq<i64>> {
        indexed_view(self.perm(), self.base())
    }

    /// The dimension every indexed point and every query point has.
    pub closed spec fn dims(&self) -> int {
        self.dim as int
    }

    /// The current brute-force threshold.
    pub closed spec fn threshold(&self) -> usize {
        self.brute_force_size
    }

    /// A valid index: a positive dimension, well-formed borrowed points, a
    /// permutation that names every borrowed point exactly once, and the
    /// implicit balanced-tree layout over the permuted view.
    pub open spec fn wf(&self) -> bool {
        &&& self.dims() >= 1
        &&& wf_points(self.base(), self.dims())
        &&& self.perm().len() == self.base().len()
        &&& forall|t: int|
            0 <= t < self.perm().len() ==> (#[trigger] self.perm()[t]) < self.base().len()
        &&& self.perm().no_duplicates()
        &&& self.perm().to_multiset() == positions(self.base().len() as int).to_multiset()
        &&& layout_ok(self.points(), self.dims(), 0, self.points().len() as int, 0)
    }

    /// Create a new index over the borrowed points, of dimension `dim`,
    /// reordering only the owned permutation.
    pub fn new(data: &'a Vec<Vec<i64>>, dim: usize) -> (tree: Self)
        requires
            dim >= 1,
            forall|j: int| 0 <= j < data@.len() ==> wf_point(#[trigger] data@[j]@, dim as int),
        ensures
            tree.wf(),
            tree.dims() == dim,
            tree.base() == points_view(data@),
            tree.points().len() == data@.len(),
            tree.points().to_multiset() == points_view(data@).to_multiset(),
            tree.threshold() == 0,
    {
        broadcast use vstd::seq_lib::group_to_multiset_ensures;
        broadcast use vstd::multiset::group_multiset_axioms;

        let n = data.len();
        let mut indices: Vec<usize> = Vec::new();
        let mut i: usize = 0;
        while i < n
            invariant
                i <= n,
                indices@ =~= positions(i as int),
            decreases n - i,
        {
            indices.push(i);
            proof {
                assert(indices@ =~= positions(i as int).push(i));
                assert(indices@ =~= positions(i as int + 1));
            }
            i = i + 1;
        }
        if n >= 2 {
            select_median_with_respect_to_row_recursive(&mut indices, data, 0, n, 0, dim);
            proof {
                assert(indices@.subrange(0, n as int) =~= indices@);
                assert(positions(n as int).subrange(0, n as int) =~= positions(n as int));
            }
        }
        let tree = KdIndexTree { indices, data, dim, brute_force_size: 0 };
        proof {
            Self::lemma_permutation_wf(tree.perm(), tree.base());
            lemma_ms_map(tree.perm(), positions(n as int), |v: usize| points_view(data@)[v as int]);
            assert(positions(n as int).map_values(|v: usize| points_view(data@)[v as int])
                =~= points_view(data@));
            if n < 2 {
                assert(layout_ok(tree.points(), dim as int, 0, n as int, 0));
            }
        }
        tree
    }

    /// A permutation with the multiset of all positions names each position
    /// exactly once.
    proof fn lemma_permutation_wf(perm: Seq<usize>, base: Seq<Seq<i64>>)
        requires
            perm.to_multiset() == positions(base.len() as int).to_multiset(),
            base.len() <= usize::MAX,
        ensures
            perm.len() == base.len(),
            forall|t: int| 0 <= t < perm.len() ==> (#[trigger] perm[t]) < base.len(),
            perm.no_duplicates(),
    {
        broadcast use vstd::seq_lib::group_to_multiset_ensures;
        broadcast use vstd::multiset::group_multiset_axioms;

        let n = base.len() as int;
        assert(positions(n).len() == n);
        assert(perm.to_multiset().len() == perm.len());
        assert(positions(n).to_multiset().len() == positions(n).len());
        assert forall|t: int| 0 <= t < perm.len() implies (#[trigger] perm[t]) < base.len() by {
            assert(perm.to_multiset().contains(perm[t]));
            lemma_positions_count(n, perm[t]);
        }
        assert forall|x: usize|
            perm.to_multiset().contains(x) implies perm.to_multiset().count(x) == 1 by {
            lemma_positions_count(n, x);
        }
        perm.lemma_multiset_has_no_duplicates_conv();
    }

    /// Create a new index and set its brute-force threshold.
    pub fn with_brute_force_size(data: &'a Vec<Vec<i64>>, dim: usize, brute_force_size: usize) -> (tree: Self)
        requires
            dim >= 1,
            forall|j: int| 0 <= j < data@.len() ==> wf_point(#[trigger] data@[j]@, dim as int),
        ensures
            tree.wf(),
            tree.dims() == dim,
            tree.base() == points_view(data@),
            tree.points().len() == data@.len(),
            tree.points().to_multiset() == points_view(data@).to_multiset(),
            tree.threshold() == brute_force_size,
    {
        let mut tree = Self::new(data, dim);
        tree.brute_force_size = brute_force_size;
        tree
    }

    /// Whether the index holds no points.
    pub fn is_empty(&self) -> (e: bool)
        ensures
            e <==> self.points().len() == 0,
    {
        self.indices.is_empty()
    }

    /// Number of points in the index.
    pub fn len(&self) -> (n: usize)
        ensures
            n == self.points().len(),
    {
        self.indices.len()
    }

    /// The dimension of the indexed points.
    pub fn dim(&self) -> (d: usize)
        ensures
            d == self.dims(),
    {
        self.dim
    }
}

impl<'a> crate::unified::UnifiedKdTreeTestApi for KdIndexTree<'a> {
    open spec fn api_points(&self) -> Seq<Seq<i64>> {
        self.points()
    }

    open spec fn api_dims(&self) -> int {
        self.dims()
    }

    open spec fn api_wf(&self) -> bool {
        self.wf()
    }

    fn query_within(&self, p: &Vec<i64>, eps: i64, _points: &Vec<Vec<i64>>) -> (found: Vec<
        Vec<i64>,
    >) {
        let ghost base = self.base();
        let ghost pts = self.points();
        let ghost n = pts.len() as int;
        let at_list = self.neighbourhood_by_index(p, eps);
        let mut found: Vec<Vec<i64>> = Vec::new();
        proof {
            broadcast use vstd::multiset::group_multiset_axioms;

            assert forall|i: int| 0 <= i < at_list@.len() implies (#[trigger] at_list@[i])
                < self.data@.len() by {
                assert(at_list@.to_multiset().contains(at_list@[i])) by {
                    vstd::seq_lib::to_multiset_contains(at_list@, at_list@[i]);
                    assert(at_list@.contains(at_list@[i]));
                }
                lemma_hits_members(self.perm(), pts, p@, eps as int, 0, n, at_list@[i]);
            }
        }
        let mut i: usize = 0;
        while i < at_list.len()
            invariant
                i <= at_list@.len(),
                found@.len() == i,
                forall|t: int|
                    0 <= t < at_list@.len() ==> (#[trigger] at_list@[t]) < self.data@.len(),
                base == self.base(),
                forall|t: int| 0 <= t < i ==> (#[trigger] found@[t])@ == base[at_list@[t] as int],
            decreases at_list@.len() - i,
        {
            let at = at_list[i];
            proof {
                assert(base[at as int] == self.data@[at as int]@);
            }
            let pt = copy_point(&self.data[at]);
            found.push(pt);
            i = i + 1;
        }
        proof {
            broadcast use vstd::multiset::group_multiset_axioms;

            let g = |v: usize| base[v as int];
            assert(points_view(found@) =~= at_list@.map_values(g));
            lemma_hits_seq_ms(self.perm(), pts, p@, eps as int, 0, n);
            lemma_ms_map(at_list@, hits_seq(self.perm(), pts, p@, eps as int, 0, n), g);
            lemma_hits_seq_map(self.perm(), pts, pts, p@, eps as int, 0, n, g);
            lemma_hits_seq_ms(pts, pts, p@, eps as int, 0, n);
        }
        found
    }

    fn count_within(&self, p: &Vec<i64>, eps: i64) -> (count: usize) {
        self.count_neighbourhood(p, eps)
    }
}

} // verus!
