//! Distance arithmetic shared by both index variants: exact squared
//! Euclidean distances, the per-axis subtree-distance vector, and the lower
//! bound it yields on the distance to an unexplored subtree.

use vstd::prelude::*;

use crate::COORD_LIMIT;

verus! {

/// The square of an integer.
pub open spec fn sq(x: int) -> int {
    x * x
}

/// Sum of squared coordinate differences over the first `n` axes.
pub open spec fn dist_sq_prefix(p: Seq<i64>, q: Seq<i64>, n: int) -> int
    decreases n,
{
    if n <= 0 {
        0
    } else {
        dist_sq_prefix(p, q, n - 1) + sq(p[n - 1] - q[n - 1])
    }
}

/// Squared Euclidean distance between two points of equal dimension.
pub open spec fn dist_sq(p: Seq<i64>, q: Seq<i64>) -> int {
    dist_sq_prefix(p, q, p.len() as int)
}

/// Sum of squares of the first `n` entries of a vector.
pub open spec fn norm_sq_prefix(d: Seq<i64>, n: int) -> int
    decreases n,
{
    if n <= 0 {
        0
    } else {
        norm_sq_prefix(d, n - 1) + sq(d[n - 1] as int)
    }
}

/// Squared Euclidean norm of a vector.
pub open spec fn norm_sq(d: Seq<i64>) -> int {
    norm_sq_prefix(d, d.len() as int)
}

/// A point of dimension `dim` whose coordinates the indices accept.
pub open spec fn wf_point(p: Seq<i64>, dim: int) -> bool {
    &&& p.len() == dim
    &&& forall|i: int| 0 <= i < dim ==> -COORD_LIMIT <= #[trigger] p[i] <= COORD_LIMIT
}

/// Every point of `pts` is a well-formed point of dimension `dim`.
pub open spec fn wf_points(pts: Seq<Seq<i64>>, dim: int) -> bool {
    forall|j: int| 0 <= j < pts.len() ==> wf_point(#[trigger] pts[j], dim)
}

/// A subtree-distance vector: one entry per axis, each the difference of two
/// accepted coordinates.
pub open spec fn wf_dvec(d: Seq<i64>, dim: int) -> bool {
    &&& d.len() == dim
    &&& forall|i: int| 0 <= i < dim ==> -2 * COORD_LIMIT <= #[trigger] d[i] <= 2 * COORD_LIMIT
}

/// `p` lies within (inclusive) radius `eps` of `q`.  A negative radius
/// matches nothing.
pub open spec fn within_eps(p: Seq<i64>, q: Seq<i64>, eps: int) -> bool {
    eps >= 0 && dist_sq(p, q) <= eps * eps
}

/// The subtree-distance vector `d` separates the query point `q` from the
/// point `p`: on every axis where `d` records a boundary crossing, `p` lies
/// on the far side of that boundary, at least `|d[i]|` away from `q[i]`.
pub open spec fn separates(d: Seq<i64>, q: Seq<i64>, p: Seq<i64>) -> bool {
    forall|i: int|
        0 <= i < d.len() ==> {
            &&& (#[trigger] d[i] > 0 ==> p[i] <= q[i] - d[i])
            &&& (d[i] < 0 ==> p[i] >= q[i] - d[i])
        }
}

proof fn lemma_sq_nonneg(x: int)
    by (nonlinear_arith)
    ensures
        sq(x) >= 0,
{
}

proof fn lemma_sq_mono(x: int, y: int)
    by (nonlinear_arith)
    requires
        0 <= y <= x || x <= y <= 0,
    ensures
        sq(x) >= sq(y),
{
}

proof fn lemma_sq_sym(x: int)
    by (nonlinear_arith)
    ensures
        sq(x) == sq(-x),
{
}

pub proof fn lemma_sq_bound(x: int, b: int)
    by (nonlinear_arith)
    requires
        -b <= x <= b,
    ensures
        sq(x) <= b * b,
{
}

/// A sum of squares is never negative.
pub proof fn lemma_dist_sq_prefix_nonneg(p: Seq<i64>, q: Seq<i64>, n: int)
    ensures
        dist_sq_prefix(p, q, n) >= 0,
    decreases n,
{
    if n > 0 {
        lemma_dist_sq_prefix_nonneg(p, q, n - 1);
        lemma_sq_nonneg(p[n - 1] - q[n - 1]);
    }
}

proof fn lemma_separation_prefix(d: Seq<i64>, q: Seq<i64>, p: Seq<i64>, n: int)
    requires
        separates(d, q, p),
        n <= d.len(),
        n <= q.len(),
        n <= p.len(),
    ensures
        dist_sq_prefix(p, q, n) >= norm_sq_prefix(d, n),
    decreases n,
{
    if n > 0 {
        lemma_separation_prefix(d, q, p, n - 1);
        let dv = d[n - 1] as int;
        let diff = p[n - 1] - q[n - 1];
        if dv > 0 {
            lemma_sq_mono(-diff, dv);
            lemma_sq_sym(diff);
        } else if dv < 0 {
            lemma_sq_mono(diff, -dv);
            lemma_sq_sym(dv);
        } else {
            lemma_sq_nonneg(diff);
        }
    }
}

/// The norm of the subtree-distance vector is an exact lower bound on the
/// distance from the query point to any point it separates.
pub proof fn lemma_separation_bound(d: Seq<i64>, q: Seq<i64>, p: Seq<i64>)
    requires
        separates(d, q, p),
        d.len() == q.len(),
        p.len() == q.len(),
    ensures
        dist_sq(p, q) >= norm_sq(d),
{
    lemma_separation_prefix(d, q, p, d.len() as int);
}

/// Exact squared Euclidean distance between two points.
pub fn dist_sq_exec(p: &Vec<i64>, q: &Vec<i64>) -> (r: u128)
    requires
        p@.len() == q@.len(),
        wf_point(p@, p@.len() as int),
        wf_point(q@, q@.len() as int),
    ensures
        r == dist_sq(p@, q@),
{
    let n = p.len();
    let mut acc: u128 = 0;
    for i in 0..n
        invariant
            n == p@.len(),
            n == q@.len(),
            wf_point(p@, n as int),
            wf_point(q@, n as int),
            acc == dist_sq_prefix(p@, q@, i as int),
            acc <= i * 0x4000000000000000,
    {
        let diff: i64 = p[i] - q[i];
        proof {
            lemma_sq_nonneg(diff as int);
            lemma_sq_bound(diff as int, 2 * COORD_LIMIT);
        }
        let term: i128 = (diff as i128) * (diff as i128);
        acc = acc + (term as u128);
    }
    acc
}

/// Exact squared Euclidean norm of a subtree-distance vector.
pub fn norm_sq_exec(d: &Vec<i64>) -> (r: u128)
    requires
        wf_dvec(d@, d@.len() as int),
    ensures
        r == norm_sq(d@),
{
    let n = d.len();
    let mut acc: u128 = 0;
    for i in 0..n
        invariant
            n == d@.len(),
            wf_dvec(d@, n as int),
            acc == norm_sq_prefix(d@, i as int),
            acc <= i * 0x4000000000000000,
    {
        let e = d[i];
        proof {
            lemma_sq_nonneg(e as int);
            lemma_sq_bound(e as int, 2 * COORD_LIMIT);
        }
        let term: i128 = (e as i128) * (e as i128);
        acc = acc + (term as u128);
    }
    acc
}

/// An owned copy of a point.
pub fn copy_point(p: &Vec<i64>) -> (r: Vec<i64>)
    ensures
        r@ == p@,
{
    let n = p.len();
    let mut r: Vec<i64> = Vec::new();
    for i in 0..n
        invariant
            n == p@.len(),
            r@ =~= p@.subrange(0, i as int),
    {
        r.push(p[i]);
    }
    proof {
        assert(r@ =~= p@);
    }
    r
}

/// A squared distance of zero means the two points coincide.
pub proof fn lemma_dist_sq_zero_prefix(p: Seq<i64>, q: Seq<i64>, n: int)
    requires
        n <= p.len(),
        n <= q.len(),
    ensures
        dist_sq_prefix(p, q, n) == 0 <==> forall|i: int| 0 <= i < n ==> p[i] == #[trigger] q[i],
    decreases n,
{
    if n > 0 {
        lemma_dist_sq_zero_prefix(p, q, n - 1);
        lemma_dist_sq_prefix_nonneg(p, q, n - 1);
        lemma_sq_nonneg(p[n - 1] - q[n - 1]);
        assert(sq(p[n - 1] - q[n - 1]) == 0 <==> p[n - 1] == q[n - 1]) by (nonlinear_arith);
        if forall|i: int| 0 <= i < n ==> p[i] == #[trigger] q[i] {
            assert(p[n - 1] == q[n - 1]);
            assert(dist_sq_prefix(p, q, n - 1) == 0);
        }
    }
}

/// Two points of equal dimension are at squared distance zero exactly when
/// they are equal: with radius zero only coincident points match.
pub proof fn lemma_dist_sq_zero(p: Seq<i64>, q: Seq<i64>)
    requires
        p.len() == q.len(),
    ensures
        dist_sq(p, q) == 0 <==> p == q,
{
    lemma_dist_sq_zero_prefix(p, q, p.len() as int);
    if dist_sq(p, q) == 0 {
        assert(p =~= q);
    } else {
        if p == q {
            assert(forall|i: int| 0 <= i < p.len() ==> p[i] == #[trigger] q[i]);
        }
    }
}

} // verus!
