//! Bulk construction: a balanced stem layout from a batch of points by
//! recursive median partition with round-robin axis selection, then
//! placement of every point through the checked insertion path.
//!
//! Construction is a mathematical function of the batch: the stem layout
//! and the final tree are pinned to spec-level mirrors, so building twice
//! from the same batch provably yields identical trees.

use vstd::prelude::*;

use vstd::relations::total_ordering;

use crate::limits::{in_coord_range, point_in_range, BUCKET_LIMIT, DIMS_LIMIT, LEAVES_LIMIT};
use crate::model::{
    add_model, all_entries, entries_upto, next_dim, route, wf_model, LeafModel, TreeModel,
};
use crate::tree::{clone_point, ImmutableKdTree, KdError};

verus! {

/// The coordinate order used to find medians.
pub open spec fn coord_leq() -> spec_fn(i64, i64) -> bool {
    |a: i64, b: i64| a <= b
}

/// The coordinate order is total, so a sorted arrangement of coordinates
/// is unique.
pub proof fn lemma_coord_total()
    ensures
        total_ordering(coord_leq()),
{
}

/// A batch as its mathematical view: one (point, item) pair per entry.
pub open spec fn batch_view(b: Seq<(Vec<i64>, u64)>) -> Seq<(Seq<i64>, u64)> {
    b.map_values(|e: (Vec<i64>, u64)| (e.0@, e.1))
}

/// Every point of the batch has dimension `k` and in-range coordinates.
pub open spec fn batch_wf(b: Seq<(Seq<i64>, u64)>, k: int) -> bool {
    forall|i: int|
        0 <= i < b.len() ==> (#[trigger] b[i]).0.len() == k && point_in_range(b[i].0)
}

/// The first power of two at least `need`, grown from `l` by doubling.
pub open spec fn grow_pow2(l: int, need: int) -> int
    decreases 2 * need - l when 1 <= l
{
    if l >= need {
        l
    } else {
        grow_pow2(2 * l, need)
    }
}

/// The number of leaves a batch of `n` points gets under bucket capacity
/// `cap`: the smallest power of two at least `ceil(n / cap)`, and at least
/// one.
pub open spec fn leaves_for(n: int, cap: int) -> int {
    grow_pow2(1, (n + cap - 1) / cap)
}

/// Doubling from below `2 * need` stays below `2 * need`.
pub proof fn lemma_grow_pow2_bound(l: int, need: int)
    requires
        1 <= l,
    ensures
        grow_pow2(l, need) >= l,
        grow_pow2(l, need) >= need,
        l < 2 * need ==> grow_pow2(l, need) < 2 * need,
    decreases 2 * need - l
{
    if l < need {
        lemma_grow_pow2_bound(2 * l, need);
    }
}

/// The splitting value for a sub-batch on one axis: the upper-median of
/// its coordinates on that axis (zero for an empty sub-batch).
pub open spec fn split_value(b: Seq<(Seq<i64>, u64)>, dim: int) -> i64 {
    if b.len() == 0 {
        0i64
    } else {
        b.map_values(|e: (Seq<i64>, u64)| e.0[dim]).sort_by(coord_leq())[b.len() as int / 2]
    }
}

/// The stem array produced by recursive median partition: at each stem,
/// the sub-batch's median coordinate on the round-robin axis becomes the
/// split value, points below it go left, the rest go right.
pub open spec fn fill_spec(
    st: Seq<i64>,
    b: Seq<(Seq<i64>, u64)>,
    idx: int,
    dim: int,
    k: int,
    h: int,
) -> Seq<i64>
    decreases h,
{
    if idx >= st.len() || h <= 0 {
        st
    } else {
        let s = split_value(b, dim);
        let st1 = st.update(idx, s);
        let lf = b.filter(|e: (Seq<i64>, u64)| e.0[dim] < s);
        let rt = b.filter(|e: (Seq<i64>, u64)| e.0[dim] >= s);
        let st2 = fill_spec(st1, lf, 2 * idx, next_dim(dim, k), k, h - 1);
        fill_spec(st2, rt, 2 * idx + 1, next_dim(dim, k), k, h - 1)
    }
}

/// The empty layout a batch is built into: all-zero stems (before filling)
/// over empty leaves.
pub open spec fn empty_layout(k: int, cap: int, ln: int) -> TreeModel {
    TreeModel {
        stems: Seq::new(ln as nat, |i: int| 0i64),
        leaves: Seq::new(ln as nat, |j: int| LeafModel { points: Seq::empty(), items: Seq::empty() }),
        k: k,
        cap: cap,
        size: 0,
    }
}

/// Placement of the batch's entries from index `i` on, each through
/// routing; `None` when some placement would overflow its bucket.
pub open spec fn insert_all(m: TreeModel, b: Seq<(Seq<i64>, u64)>, i: int) -> Option<TreeModel>
    decreases b.len() - i when i >= 0
{
    if i >= b.len() {
        Option::Some(m)
    } else {
        let e = b[i];
        let j = route(m.stems, m.k, e.0, 1, 0) - m.stems.len();
        if m.leaves[j].points.len() >= m.cap {
            Option::None
        } else {
            insert_all(add_model(m, e.0, e.1), b, i + 1)
        }
    }
}

/// What bulk construction produces for a batch: the capacity check, the
/// filled stem layout, and the placement of every point, as one function
/// of the input.
pub open spec fn build_model(k: int, cap: int, maxc: int, b: Seq<(Seq<i64>, u64)>) -> Result<
    TreeModel,
    KdError,
> {
    if b.len() > maxc {
        Result::Err(KdError::CapacityExceeded)
    } else {
        let ln = leaves_for(b.len() as int, cap);
        let st = fill_spec(empty_layout(k, cap, ln).stems, b, 1, 0, k, ln);
        let t0 = TreeModel { stems: st, ..empty_layout(k, cap, ln) };
        match insert_all(t0, b, 0) {
            Option::Some(t) => Result::Ok(t),
            Option::None => Result::Err(KdError::BucketOverflow),
        }
    }
}

/// Bulk constructs trees of a fixed dimension, bucket capacity, and
/// declared maximum batch size.
pub struct TreeBuilder {
    pub dims: usize,
    pub cap: usize,
    pub max_capacity: usize,
}

impl TreeBuilder {
    /// Creates a builder for `dims`-dimensional trees with bucket capacity
    /// `cap`, accepting batches of at most `max_capacity` points.
    pub fn new(dims: usize, cap: usize, max_capacity: usize) -> (r: TreeBuilder)
        requires
            1 <= dims <= DIMS_LIMIT,
            1 <= cap <= BUCKET_LIMIT,
            max_capacity <= cap * 32768,
        ensures
            r.dims == dims,
            r.cap == cap,
            r.max_capacity == max_capacity,
            r.wf(),
    {
        TreeBuilder { dims, cap, max_capacity }
    }

    /// The builder's parameters are in range.
    pub open spec fn wf(self) -> bool {
        &&& 1 <= self.dims <= DIMS_LIMIT
        &&& 1 <= self.cap <= BUCKET_LIMIT
        &&& self.max_capacity <= self.cap * 32768
    }
}

/// Sorts a coordinate vector ascending (by merging), pinned to the unique
/// sorted arrangement of its contents.
fn sort_coords(v: Vec<i64>) -> (r: Vec<i64>)
    ensures
        r@ == v@.sort_by(coord_leq()),
    decreases v@.len(),
{
    broadcast use vstd::seq_lib::group_to_multiset_ensures;
    broadcast use vstd::multiset::group_multiset_axioms;

    let n: usize = v.len();
    proof {
        lemma_coord_total();
        v@.lemma_sort_by_ensures(coord_leq());
    }
    if n <= 1 {
        proof {
            vstd::seq_lib::lemma_sorted_unique(v@, v@.sort_by(coord_leq()), coord_leq());
        }
        return v;
    }
    let mid: usize = n / 2;
    let mut left: Vec<i64> = Vec::new();
    let mut right: Vec<i64> = Vec::new();
    let mut i: usize = 0;
    while i < mid
        invariant
            0 <= i <= mid <= n,
            n == v@.len(),
            left@ == v@.take(i as int),
        decreases mid - i,
    {
        left.push(v[i]);
        proof {
            assert(left@ =~= v@.take(i as int + 1));
        }
        i = i + 1;
    }
    let mut i2: usize = mid;
    while i2 < n
        invariant
            mid <= i2 <= n,
            n == v@.len(),
            right@ == v@.subrange(mid as int, i2 as int),
        decreases n - i2,
    {
        right.push(v[i2]);
        proof {
            assert(right@ =~= v@.subrange(mid as int, i2 as int + 1));
        }
        i2 = i2 + 1;
    }
    proof {
        assert(v@ =~= v@.take(mid as int) + v@.subrange(mid as int, n as int));
    }
    let ls = sort_coords(left);
    let rs = sort_coords(right);
    let ghost lv = left@;
    let ghost rv = right@;
    proof {
        lv.lemma_sort_by_ensures(coord_leq());
        rv.lemma_sort_by_ensures(coord_leq());
    }
    let ln: usize = ls.len();
    let rn: usize = rs.len();
    let mut out: Vec<i64> = Vec::new();
    let mut a: usize = 0;
    let mut b: usize = 0;
    while a < ln || b < rn
        invariant
            0 <= a <= ln,
            0 <= b <= rn,
            ln == ls@.len(),
            rn == rs@.len(),
            out@.len() == a + b,
            vstd::relations::sorted_by(ls@, coord_leq()),
            vstd::relations::sorted_by(rs@, coord_leq()),
            vstd::relations::sorted_by(out@, coord_leq()),
            out@.to_multiset() == ls@.take(a as int).to_multiset().add(
                rs@.take(b as int).to_multiset(),
            ),
            a < ln ==> forall|x: int| 0 <= x < out@.len() ==> (#[trigger] out@[x]) <= ls@[a as int],
            b < rn ==> forall|x: int| 0 <= x < out@.len() ==> (#[trigger] out@[x]) <= rs@[b as int],
        decreases (ln - a) + (rn - b),
    {
        broadcast use vstd::seq_lib::group_to_multiset_ensures;
        broadcast use vstd::multiset::group_multiset_axioms;

        let take_left: bool = if a < ln {
            if b < rn {
                ls[a] <= rs[b]
            } else {
                true
            }
        } else {
            false
        };
        if take_left {
            let ghost av = ls@[a as int];
            out.push(ls[a]);
            proof {
                assert(ls@.take(a as int + 1) =~= ls@.take(a as int).push(av));
                assert forall|x: int| 0 <= x < out@.len() implies (#[trigger] out@[x]) <= av by {}
                if a as int + 1 < ln as int {
                    assert(coord_leq()(av, ls@[a as int + 1]));
                }
                if (b as int) < rn as int {
                    assert(av <= rs@[b as int]);
                }
            }
            a = a + 1;
        } else {
            let ghost bv = rs@[b as int];
            out.push(rs[b]);
            proof {
                assert(rs@.take(b as int + 1) =~= rs@.take(b as int).push(bv));
                assert forall|x: int| 0 <= x < out@.len() implies (#[trigger] out@[x]) <= bv by {}
                if b as int + 1 < rn as int {
                    assert(coord_leq()(bv, rs@[b as int + 1]));
                }
                if (a as int) < ln as int {
                    assert(bv <= ls@[a as int]);
                }
            }
            b = b + 1;
        }
    }
    proof {
        assert(ls@.take(ln as int) =~= ls@);
        assert(rs@.take(rn as int) =~= rs@);
        vstd::seq_lib::lemma_multiset_commutative(lv, rv);
        assert(out@.to_multiset() =~= v@.to_multiset());
        vstd::seq_lib::lemma_sorted_unique(out@, v@.sort_by(coord_leq()), coord_leq());
    }
    out
}

/// Filtering a one-longer sequence keeps the new element exactly when it
/// satisfies the predicate.
proof fn lemma_filter_push<A>(s: Seq<A>, e: A, pred: spec_fn(A) -> bool)
    ensures
        pred(e) ==> s.push(e).filter(pred) == s.filter(pred).push(e),
        !pred(e) ==> s.push(e).filter(pred) == s.filter(pred),
{
    reveal_with_fuel(Seq::filter, 2);
    assert(s.push(e).drop_last() =~= s);
    assert(s.push(e).last() == e);
}

/// Copies a batch entry-for-entry.
fn clone_batch(b: &Vec<(Vec<i64>, u64)>) -> (r: Vec<(Vec<i64>, u64)>)
    ensures
        batch_view(r@) == batch_view(b@),
        r@.len() == b@.len(),
{
    let n: usize = b.len();
    let mut r: Vec<(Vec<i64>, u64)> = Vec::new();
    let mut i: usize = 0;
    while i < n
        invariant
            0 <= i <= n,
            n == b@.len(),
            r@.len() == i,
            forall|x: int| 0 <= x < i ==> (#[trigger] r@[x]).0@ == b@[x].0@ && r@[x].1 == b@[x].1,
        decreases n - i,
    {
        let p = clone_point(&b[i].0);
        let it: u64 = b[i].1;
        r.push((p, it));
        i = i + 1;
    }
    proof {
        assert(batch_view(r@) =~= batch_view(b@));
    }
    r
}

/// Writes the stem values of the subtree rooted at `idx` from a sub-batch:
/// the sub-batch's median coordinate on the current axis becomes the split
/// value, and the two value-partitioned halves fill the two child
/// subtrees. Mirrors `fill_spec` exactly.
fn fill_stems(
    stems: &mut Vec<i64>,
    b: Vec<(Vec<i64>, u64)>,
    idx: usize,
    dim: usize,
    dims: usize,
    h: usize,
)
    requires
        1 <= old(stems)@.len() <= LEAVES_LIMIT,
        1 <= idx < 2 * old(stems)@.len(),
        dim < dims,
        1 <= dims <= DIMS_LIMIT,
        batch_wf(batch_view(b@), dims as int),
        forall|i: int| 0 <= i < old(stems)@.len() ==> in_coord_range(#[trigger] old(stems)@[i]),
    ensures
        final(stems)@ == fill_spec(
            old(stems)@,
            batch_view(b@),
            idx as int,
            dim as int,
            dims as int,
            h as int,
        ),
        final(stems)@.len() == old(stems)@.len(),
        forall|i: int| 0 <= i < final(stems)@.len() ==> in_coord_range(#[trigger] final(stems)@[i]),
    decreases h,
{
    broadcast use vstd::seq_lib::group_to_multiset_ensures;
    broadcast use vstd::multiset::group_multiset_axioms;

    let ghost st0 = stems@;
    let ghost bv = batch_view(b@);
    let ln: usize = stems.len();
    if idx >= ln || h == 0 {
        return;
    }
    let n: usize = b.len();
    let mut coords: Vec<i64> = Vec::new();
    let mut i: usize = 0;
    while i < n
        invariant
            0 <= i <= n,
            n == b@.len(),
            bv == batch_view(b@),
            batch_wf(bv, dims as int),
            dim < dims,
            coords@.len() == i,
            forall|x: int| 0 <= x < i ==> (#[trigger] coords@[x]) == bv[x].0[dim as int],
        decreases n - i,
    {
        proof {
            assert(bv[i as int].0 == b@[i as int].0@);
            assert(bv[i as int].0.len() == dims as int);
        }
        let c: i64 = b[i].0[dim];
        coords.push(c);
        i = i + 1;
    }
    proof {
        assert(coords@ =~= bv.map_values(|e: (Seq<i64>, u64)| e.0[dim as int]));
    }
    let s: i64 = if n == 0 {
        0
    } else {
        let sc = sort_coords(coords);
        proof {
            lemma_coord_total();
            bv.map_values(|e: (Seq<i64>, u64)| e.0[dim as int]).lemma_sort_by_ensures(coord_leq());
            assert(sc@.to_multiset() =~= coords@.to_multiset());
            assert(sc@.to_multiset().len() == sc@.len());
            assert(coords@.to_multiset().len() == coords@.len());
            assert(sc@.len() == coords@.len());
            assert(sc@.contains(sc@[n as int / 2]));
            assert(coords@.to_multiset().contains(sc@[n as int / 2]));
            assert(coords@.contains(sc@[n as int / 2]));
        }
        sc[n / 2]
    };
    proof {
        assert(s == split_value(bv, dim as int));
        assert(in_coord_range(s));
    }
    stems[idx] = s;
    proof {
        assert(stems@ =~= st0.update(idx as int, s));
    }
    let mut lf: Vec<(Vec<i64>, u64)> = Vec::new();
    let mut rt: Vec<(Vec<i64>, u64)> = Vec::new();
    let mut i2: usize = 0;
    while i2 < n
        invariant
            0 <= i2 <= n,
            n == b@.len(),
            bv == batch_view(b@),
            batch_wf(bv, dims as int),
            dim < dims,
            batch_view(lf@) == bv.take(i2 as int).filter(
                |e: (Seq<i64>, u64)| e.0[dim as int] < s,
            ),
            batch_view(rt@) == bv.take(i2 as int).filter(
                |e: (Seq<i64>, u64)| e.0[dim as int] >= s,
            ),
        decreases n - i2,
    {
        proof {
            assert(bv[i2 as int].0 == b@[i2 as int].0@);
            assert(bv[i2 as int].0.len() == dims as int);
        }
        let p = clone_point(&b[i2].0);
        let it: u64 = b[i2].1;
        let ghost e = bv[i2 as int];
        proof {
            assert(bv.take(i2 as int + 1) =~= bv.take(i2 as int).push(e));
            lemma_filter_push(
                bv.take(i2 as int),
                e,
                |e: (Seq<i64>, u64)| e.0[dim as int] < s,
            );
            lemma_filter_push(
                bv.take(i2 as int),
                e,
                |e: (Seq<i64>, u64)| e.0[dim as int] >= s,
            );
        }
        if b[i2].0[dim] < s {
            lf.push((p, it));
            proof {
                assert(batch_view(lf@) =~= bv.take(i2 as int).filter(
                    |e: (Seq<i64>, u64)| e.0[dim as int] < s,
                ).push(e));
            }
        } else {
            rt.push((p, it));
            proof {
                assert(batch_view(rt@) =~= bv.take(i2 as int).filter(
                    |e: (Seq<i64>, u64)| e.0[dim as int] >= s,
                ).push(e));
            }
        }
        i2 = i2 + 1;
    }
    proof {
        assert(bv.take(n as int) =~= bv);
        assert forall|x: int|
            0 <= x < batch_view(lf@).len() implies (#[trigger] batch_view(lf@)[x]).0.len()
            == dims as int && point_in_range(batch_view(lf@)[x].0) by {
            let fe = batch_view(lf@)[x];
            assert(bv.filter(|e: (Seq<i64>, u64)| e.0[dim as int] < s).contains(fe));
            bv.lemma_filter_contains_rev(|e: (Seq<i64>, u64)| e.0[dim as int] < s, fe);
            let w = choose|w: int| 0 <= w < bv.len() && bv[w] == fe;
            assert(bv[w].0.len() == dims as int);
        }
        assert forall|x: int|
            0 <= x < batch_view(rt@).len() implies (#[trigger] batch_view(rt@)[x]).0.len()
            == dims as int && point_in_range(batch_view(rt@)[x].0) by {
            let fe = batch_view(rt@)[x];
            assert(bv.filter(|e: (Seq<i64>, u64)| e.0[dim as int] >= s).contains(fe));
            bv.lemma_filter_contains_rev(|e: (Seq<i64>, u64)| e.0[dim as int] >= s, fe);
            let w = choose|w: int| 0 <= w < bv.len() && bv[w] == fe;
            assert(bv[w].0.len() == dims as int);
        }
    }
    let ndim: usize = if dim + 1 == dims {
        0
    } else {
        dim + 1
    };
    fill_stems(stems, lf, 2 * idx, ndim, dims, h - 1);
    fill_stems(stems, rt, 2 * idx + 1, ndim, dims, h - 1);
}

impl TreeBuilder {
    /// Bulk constructs a tree from a batch: computes the stem layout by
    /// recursive median partition (round-robin axes), then places every
    /// (point, item) pair through the checked insertion path, so the union
    /// of the bucket contents is exactly the batch. Fails with
    /// `CapacityExceeded` when the batch exceeds the declared maximum, and
    /// with `BucketOverflow` when value partitioning cannot separate enough
    /// equal coordinates to respect the bucket capacity. The result is a
    /// function of the batch alone: building twice from the same batch
    /// yields identical trees.
    pub fn build(&self, batch: &Vec<(Vec<i64>, u64)>) -> (r: Result<ImmutableKdTree, KdError>)
        requires
            self.wf(),
            batch_wf(batch_view(batch@), self.dims as int),
        ensures
            match r {
                Result::Ok(t) => t.inv() && t.dims == self.dims && t.cap == self.cap
                    && build_model(
                    self.dims as int,
                    self.cap as int,
                    self.max_capacity as int,
                    batch_view(batch@),
                ) == Result::<TreeModel, KdError>::Ok(t.model()),
                Result::Err(e) => build_model(
                    self.dims as int,
                    self.cap as int,
                    self.max_capacity as int,
                    batch_view(batch@),
                ) == Result::<TreeModel, KdError>::Err(e),
            },
    {
        let ghost bv = batch_view(batch@);
        let n: usize = batch.len();
        if n > self.max_capacity {
            return Err(KdError::CapacityExceeded);
        }
        let cap: usize = self.cap;
        let need: usize = (n + cap - 1) / cap;
        proof {
            assert(need as int <= 32768) by (nonlinear_arith)
                requires
                    n as int <= cap as int * 32768,
                    1 <= cap as int,
                    need as int == (n as int + cap as int - 1) / (cap as int),
            ;
        }
        let mut l: usize = 1;
        while l < need
            invariant
                1 <= l <= 65536,
                need <= 32768,
                grow_pow2(l as int, need as int) == grow_pow2(1, need as int),
            decreases 2 * need - l,
        {
            l = 2 * l;
        }
        proof {
            lemma_grow_pow2_bound(1, need as int);
            assert(grow_pow2(l as int, need as int) == l as int);
            assert(l as int == leaves_for(n as int, cap as int));
        }
        let mut stems: Vec<i64> = Vec::new();
        let mut zi: usize = 0;
        while zi < l
            invariant
                0 <= zi <= l,
                stems@.len() == zi,
                forall|x: int| 0 <= x < zi ==> (#[trigger] stems@[x]) == 0i64,
            decreases l - zi,
        {
            stems.push(0);
            zi = zi + 1;
        }
        let ghost lay = empty_layout(self.dims as int, cap as int, l as int);
        proof {
            assert(stems@ =~= lay.stems);
        }
        let cb = clone_batch(batch);
        fill_stems(&mut stems, cb, 1, 0, self.dims, l);
        let ghost filled = fill_spec(lay.stems, bv, 1, 0, self.dims as int, l as int);
        proof {
            assert(stems@ == filled);
        }
        let mut tree = ImmutableKdTree::with_layout(self.dims, cap, stems);
        let ghost t0m = TreeModel { stems: filled, ..lay };
        proof {
            assert(tree.model().leaves =~= t0m.leaves);
            assert(tree.model() =~= t0m);
        }
        let mut i: usize = 0;
        while i < n
            invariant
                0 <= i <= n,
                n == batch@.len(),
                bv == batch_view(batch@),
                batch_wf(bv, self.dims as int),
                tree.inv(),
                tree.dims == self.dims,
                tree.cap == self.cap,
                self.wf(),
                n <= self.max_capacity,
                bv.len() == n as int,
                l as int == leaves_for(bv.len() as int, self.cap as int),
                lay == empty_layout(self.dims as int, self.cap as int, l as int),
                t0m == (TreeModel {
                    stems: fill_spec(lay.stems, bv, 1, 0, self.dims as int, l as int),
                    ..lay
                }),
                insert_all(t0m, bv, 0) == insert_all(tree.model(), bv, i as int),
            decreases n - i,
        {
            proof {
                assert(bv[i as int].0 == batch@[i as int].0@);
                assert(bv[i as int].0.len() == self.dims as int);
            }
            let ghost cur = tree.model();
            let res = tree.safe_add_to_optimized(&batch[i].0, batch[i].1);
            if res.is_err() {
                proof {
                    assert(insert_all(cur, bv, i as int) == Option::<TreeModel>::None);
                    assert(insert_all(t0m, bv, 0) == Option::<TreeModel>::None);
                    assert(bv.len() == n as int);
                    assert(leaves_for(bv.len() as int, self.cap as int) == l as int);
                    assert(lay == empty_layout(
                        self.dims as int,
                        self.cap as int,
                        leaves_for(bv.len() as int, self.cap as int),
                    ));
                    assert(t0m == TreeModel {
                        stems: fill_spec(
                            lay.stems,
                            bv,
                            1,
                            0,
                            self.dims as int,
                            leaves_for(bv.len() as int, self.cap as int),
                        ),
                        ..lay
                    });
                    assert(build_model(
                        self.dims as int,
                        self.cap as int,
                        self.max_capacity as int,
                        bv,
                    ) == Result::<TreeModel, KdError>::Err(KdError::BucketOverflow));
                }
                return Err(KdError::BucketOverflow);
            }
            proof {
                assert(insert_all(cur, bv, i as int) == insert_all(
                    add_model(cur, bv[i as int].0, bv[i as int].1),
                    bv,
                    i as int + 1,
                ));
            }
            i = i + 1;
        }
        proof {
            assert(insert_all(tree.model(), bv, n as int) == Option::Some(tree.model()));
        }
        Ok(tree)
    }
}

} // verus!
