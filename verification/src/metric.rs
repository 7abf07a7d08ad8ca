//! The distance-metric contract consumed by the query engine, and two
//! concrete metrics (Manhattan and squared Euclidean).
//!
//! A metric must decompose axis-wise: the full distance is the sum of
//! independent per-axis costs, and the cost from `a` to a value `s` lying
//! between `a` and `b` never exceeds the cost from `a` to `b`. Pruning
//! correctness rests on exactly these two facts.

use vstd::prelude::*;

use crate::limits::{in_coord_range, point_in_range, AXIS_COST_LIMIT};

verus! {

/// A pluggable distance metric over fixed-point coordinates.
///
/// The full distance between two points is, by definition, the sum over all
/// axes of `axis_cost`; implementors supply the per-axis cost, an executable
/// evaluator for it, and proofs that the cost is bounded, non-negative, and
/// monotone toward intermediate values (the lower-bound-decomposability
/// contract that makes distance-bound pruning sound).
pub trait Metric: Sized {
    /// The mathematical per-axis cost contributed by coordinates `a` and `b`.
    spec fn axis_cost(&self, a: i64, b: i64) -> int;

    /// The per-axis cost of in-range coordinates is non-negative and bounded.
    proof fn lemma_axis_cost_bounds(&self, a: i64, b: i64)
        requires
            in_coord_range(a),
            in_coord_range(b),
        ensures
            0 <= self.axis_cost(a, b) <= AXIS_COST_LIMIT as int,
    ;

    /// Moving the far endpoint inward never increases the per-axis cost:
    /// if `s` lies between `a` and `b`, the cost from `a` to `s` is at most
    /// the cost from `a` to `b`.
    proof fn lemma_axis_cost_between(&self, a: i64, s: i64, b: i64)
        requires
            a <= s <= b || b <= s <= a,
        ensures
            self.axis_cost(a, s) <= self.axis_cost(a, b),
    ;

    /// Evaluates the per-axis cost.
    fn axis_dist(&self, a: i64, b: i64) -> (r: i64)
        requires
            in_coord_range(a),
            in_coord_range(b),
        ensures
            r as int == self.axis_cost(a, b),
    ;
}

/// The sum of the per-axis costs over the first `n` axes.
pub open spec fn dist_sum<M: Metric>(m: M, a: Seq<i64>, b: Seq<i64>, n: int) -> int
    decreases n,
{
    if n <= 0 {
        0
    } else {
        dist_sum(m, a, b, n - 1) + m.axis_cost(a[n - 1], b[n - 1])
    }
}

/// The full distance between two points of equal dimension: the sum of the
/// per-axis costs over every axis of `a`.
pub open spec fn dist_full<M: Metric>(m: M, a: Seq<i64>, b: Seq<i64>) -> int {
    dist_sum(m, a, b, a.len() as int)
}

/// The distance over `n` in-range axes is non-negative and at most
/// `n * AXIS_COST_LIMIT`.
pub proof fn lemma_dist_sum_bounds<M: Metric>(m: M, a: Seq<i64>, b: Seq<i64>, n: int)
    requires
        0 <= n <= a.len(),
        n <= b.len(),
        point_in_range(a),
        point_in_range(b),
    ensures
        0 <= dist_sum(m, a, b, n) <= n * (AXIS_COST_LIMIT as int),
    decreases n,
{
    if n > 0 {
        lemma_dist_sum_bounds(m, a, b, n - 1);
        m.lemma_axis_cost_bounds(a[n - 1], b[n - 1]);
        assert((n - 1) * (AXIS_COST_LIMIT as int) + AXIS_COST_LIMIT as int
            == n * (AXIS_COST_LIMIT as int)) by (nonlinear_arith);
    }
}

/// If every axis cost is at least the matching entry of `lo`, the distance
/// is at least the sum of `lo`'s entries.
pub proof fn lemma_dist_sum_lower<M: Metric>(m: M, a: Seq<i64>, b: Seq<i64>, lo: Seq<i64>, n: int)
    requires
        0 <= n <= a.len(),
        n <= b.len(),
        n <= lo.len(),
        forall|d: int| 0 <= d < n ==> (#[trigger] lo[d]) as int <= m.axis_cost(a[d], b[d]),
    ensures
        lo_sum(lo, n) <= dist_sum(m, a, b, n),
    decreases n,
{
    if n > 0 {
        lemma_dist_sum_lower(m, a, b, lo, n - 1);
    }
}

/// The sum of the first `n` entries of a lower-bound vector.
pub open spec fn lo_sum(lo: Seq<i64>, n: int) -> int
    decreases n,
{
    if n <= 0 {
        0
    } else {
        lo_sum(lo, n - 1) + lo[n - 1]
    }
}

/// Replacing one entry of a lower-bound vector changes the sum by exactly
/// the difference at that entry.
pub proof fn lemma_lo_sum_update(lo: Seq<i64>, d: int, v: i64, n: int)
    requires
        0 <= d < lo.len(),
        0 <= n <= lo.len(),
    ensures
        d < n ==> lo_sum(lo.update(d, v), n) == lo_sum(lo, n) - lo[d] + v,
        d >= n ==> lo_sum(lo.update(d, v), n) == lo_sum(lo, n),
    decreases n,
{
    if n > 0 {
        lemma_lo_sum_update(lo, d, v, n - 1);
    }
}

/// A lower-bound vector of in-range per-axis costs has a non-negative sum,
/// bounded by `n` times the per-axis cost limit.
pub proof fn lemma_lo_sum_bounds(lo: Seq<i64>, n: int)
    requires
        0 <= n <= lo.len(),
        forall|d: int| 0 <= d < n ==> 0 <= (#[trigger] lo[d]) as int <= AXIS_COST_LIMIT as int,
    ensures
        0 <= lo_sum(lo, n) <= n * (AXIS_COST_LIMIT as int),
    decreases n,
{
    if n > 0 {
        lemma_lo_sum_bounds(lo, n - 1);
        assert((n - 1) * (AXIS_COST_LIMIT as int) + AXIS_COST_LIMIT as int
            == n * (AXIS_COST_LIMIT as int)) by (nonlinear_arith);
    }
}

/// The Manhattan (taxicab) metric: the per-axis cost is the absolute
/// difference of the coordinates.
pub struct Manhattan;

impl Metric for Manhattan {
    open spec fn axis_cost(&self, a: i64, b: i64) -> int {
        if a >= b {
            a as int - b as int
        } else {
            b as int - a as int
        }
    }

    proof fn lemma_axis_cost_bounds(&self, a: i64, b: i64) {
    }

    proof fn lemma_axis_cost_between(&self, a: i64, s: i64, b: i64) {
    }

    fn axis_dist(&self, a: i64, b: i64) -> (r: i64) {
        if a >= b {
            a - b
        } else {
            b - a
        }
    }
}

/// The squared Euclidean metric: the per-axis cost is the squared
/// difference of the coordinates.
pub struct SquaredEuclidean;

impl Metric for SquaredEuclidean {
    open spec fn axis_cost(&self, a: i64, b: i64) -> int {
        (a as int - b as int) * (a as int - b as int)
    }

    proof fn lemma_axis_cost_bounds(&self, a: i64, b: i64) {
        let d = a as int - b as int;
        assert(0 <= d * d) by (nonlinear_arith);
        assert(-2097152 <= d <= 2097152 ==> d * d <= 4398046511104) by (nonlinear_arith);
    }

    proof fn lemma_axis_cost_between(&self, a: i64, s: i64, b: i64) {
        let ds = a as int - s as int;
        let db = a as int - b as int;
        assert((ds <= db && -ds <= db) || (ds <= -db && -ds <= -db) ==> ds * ds <= db * db)
            by (nonlinear_arith);
    }

    fn axis_dist(&self, a: i64, b: i64) -> (r: i64) {
        let d: i64 = a - b;
        proof {
            assert(-2097152 <= d as int <= 2097152 ==> 0 <= d as int * d as int
                <= 4398046511104) by (nonlinear_arith);
        }
        d * d
    }
}

/// Evaluates the full metric distance between two in-range points of equal
/// dimension.
pub fn dist_of<M: Metric>(m: &M, a: &Vec<i64>, b: &Vec<i64>) -> (r: i64)
    requires
        a@.len() == b@.len(),
        a@.len() <= crate::limits::DIMS_LIMIT,
        point_in_range(a@),
        point_in_range(b@),
    ensures
        r as int == dist_full(*m, a@, b@),
        0 <= r,
{
    let ghost gm: M = *m;
    let n: usize = a.len();
    let mut acc: i64 = 0;
    let mut d: usize = 0;
    proof {
        lemma_dist_sum_bounds(gm, a@, b@, n as int);
    }
    while d < n
        invariant
            0 <= d <= n,
            n == a@.len(),
            n == b@.len(),
            n <= crate::limits::DIMS_LIMIT,
            point_in_range(a@),
            point_in_range(b@),
            acc as int == dist_sum(gm, a@, b@, d as int),
            gm == *m,
        decreases n - d,
    {
        proof {
            lemma_dist_sum_bounds(gm, a@, b@, d as int);
            lemma_dist_sum_bounds(gm, a@, b@, d as int + 1);
        }
        let c: i64 = m.axis_dist(a[d], b[d]);
        acc = acc + c;
        d = d + 1;
    }
    acc
}

} // verus!
