//! The flat-array k-d tree: stem array, leaf buckets, and the two
//! single-point insertion paths (one with its safety obligations placed on
//! the caller as a precondition, one fully checked at run time).

use vstd::prelude::*;

use crate::limits::{
    in_coord_range, point_in_range, BUCKET_LIMIT, DIMS_LIMIT, LEAVES_LIMIT,
};
use crate::model::{
    add_model, all_entries, lemma_entries_upto_add, lemma_entries_upto_empty, route, wf_model,
    LeafModel, TreeModel,
};

verus! {

/// Failures surfaced by construction and checked insertion.
#[derive(Clone, Copy, PartialEq, Eq, Structural, Debug)]
pub enum KdError {
    /// A bulk input was larger than the declared maximum capacity.
    CapacityExceeded,
    /// A checked insertion targeted a leaf bucket already at capacity.
    BucketOverflow,
}

/// One fixed-capacity leaf bucket: parallel point and item arrays plus the
/// occupancy implied by their shared length.
pub struct LeafBucket {
    pub points: Vec<Vec<i64>>,
    pub items: Vec<u64>,
}

impl LeafBucket {
    /// The bucket's mathematical model.
    pub open spec fn model(self) -> LeafModel {
        LeafModel { points: self.points.deep_view(), items: self.items@ }
    }
}

/// A k-d tree over a fixed stem layout: an implicit complete binary tree of
/// splitting values over fixed-capacity leaf buckets, with a running total
/// of stored points.
pub struct ImmutableKdTree {
    pub stems: Vec<i64>,
    pub leaves: Vec<LeafBucket>,
    pub size: usize,
    pub dims: usize,
    pub cap: usize,
}

impl ImmutableKdTree {
    /// The tree's mathematical model.
    pub open spec fn model(self) -> TreeModel {
        TreeModel {
            stems: self.stems@,
            leaves: Seq::new(self.leaves@.len(), |j: int| self.leaves@[j].model()),
            k: self.dims as int,
            cap: self.cap as int,
            size: self.size as int,
        }
    }

    /// The tree is well formed.
    pub open spec fn inv(self) -> bool {
        wf_model(self.model())
    }

    /// Creates an empty tree over a given stem layout: one leaf bucket per
    /// stem slot, each empty. Any in-range stem values form a valid layout;
    /// balance, not correctness, depends on how they were chosen.
    pub fn with_layout(dims: usize, cap: usize, stems: Vec<i64>) -> (r: ImmutableKdTree)
        requires
            1 <= dims <= DIMS_LIMIT,
            1 <= cap <= BUCKET_LIMIT,
            1 <= stems@.len() <= LEAVES_LIMIT,
            forall|i: int| 0 <= i < stems@.len() ==> in_coord_range(#[trigger] stems@[i]),
        ensures
            r.inv(),
            r.model().stems == stems@,
            r.model().k == dims as int,
            r.model().cap == cap as int,
            r.model().size == 0,
            forall|j: int| 0 <= j < r.model().leaves.len() ==> (#[trigger] r.model().leaves[j])
                =~= (LeafModel { points: Seq::empty(), items: Seq::empty() }),
    {
        let n: usize = stems.len();
        let mut leaves: Vec<LeafBucket> = Vec::new();
        let mut j: usize = 0;
        while j < n
            invariant
                0 <= j <= n,
                leaves@.len() == j,
                forall|x: int| 0 <= x < j ==> (#[trigger] leaves@[x]).points@.len() == 0
                    && leaves@[x].items@.len() == 0,
            decreases n - j,
        {
            leaves.push(LeafBucket { points: Vec::new(), items: Vec::new() });
            j = j + 1;
        }
        let r = ImmutableKdTree { stems, leaves, size: 0, dims, cap };
        proof {
            let m = r.model();
            assert forall|x: int| 0 <= x < m.leaves.len() implies (#[trigger] m.leaves[x])
                =~= (LeafModel { points: Seq::empty(), items: Seq::empty() }) by {
                assert(m.leaves[x].points =~= Seq::<Seq<i64>>::empty());
                assert(m.leaves[x].items =~= Seq::<u64>::empty());
            }
            lemma_entries_upto_empty(m, m.leaves.len() as int);
        }
        r
    }

    /// The number of points the tree holds.
    pub fn size(&self) -> (r: usize)
        ensures
            r as int == self.model().size,
    {
        self.size
    }

    /// The leaf index a point is routed to by the stem layout.
    fn find_leaf(&self, query: &Vec<i64>) -> (r: usize)
        requires
            self.inv(),
            query@.len() == self.dims as int,
        ensures
            r as int == route(self.model().stems, self.model().k, query@, 1, 0)
                - self.model().stems.len(),
            r < self.leaves@.len(),
    {
        let ghost m = self.model();
        let n: usize = self.stems.len();
        let mut idx: usize = 1;
        let mut dim: usize = 0;
        proof {
            crate::model::lemma_route_range(m.stems, m.k, query@, 1, 0);
        }
        while idx < n
            invariant
                self.inv(),
                query@.len() == self.dims as int,
                m == self.model(),
                n == m.stems.len(),
                1 <= idx < 2 * n,
                dim < self.dims,
                route(m.stems, m.k, query@, idx as int, dim as int) == route(m.stems, m.k, query@, 1, 0),
            decreases 2 * n - idx,
        {
            let val: i64 = self.stems[idx];
            let step: usize = if query[dim] >= val {
                1
            } else {
                0
            };
            idx = 2 * idx + step;
            dim = if dim + 1 == self.dims {
                0
            } else {
                dim + 1
            };
        }
        idx - n
    }

    /// The fast insertion path: places one (point, item) pair into the leaf
    /// its routing reaches. The caller must have proven that the destination
    /// bucket is not full; nothing is checked at run time.
    pub fn add_to_optimized(&mut self, query: &Vec<i64>, item: u64)
        requires
            old(self).inv(),
            query@.len() == old(self).dims as int,
            point_in_range(query@),
            ({
                let m = old(self).model();
                m.leaves[route(m.stems, m.k, query@, 1, 0) - m.stems.len()].points.len() < m.cap
            }),
        ensures
            final(self).inv(),
            final(self).model() == add_model(old(self).model(), query@, item),
    {
        let ghost m1 = self.model();
        let ghost e = (query@, item);
        let j: usize = self.find_leaf(query);
        let p: Vec<i64> = clone_point(query);
        proof {
            lemma_entries_upto_empty(m1, 0);
            crate::model::lemma_route_range(m1.stems, m1.k, query@, 1, 0);
        }
        let bucket: &mut LeafBucket = &mut self.leaves[j];
        bucket.points.push(p);
        bucket.items.push(item);
        proof {
            // The size counter cannot overflow: it equals the entry count,
            // which is at most LEAVES_LIMIT * BUCKET_LIMIT.
            lemma_occupancy_bound(m1, m1.leaves.len() as int);
            assert(m1.size == all_entries(m1).len());
            assert(m1.leaves.len() <= 0x10000 && m1.cap <= 0x4000
                ==> m1.leaves.len() * m1.cap <= 0x40000000) by (nonlinear_arith);
        }
        self.size = self.size + 1;
        proof {
            let m2 = self.model();
            let mm = add_model(m1, query@, item);
            let jj = route(m1.stems, m1.k, query@, 1, 0) - m1.stems.len();
            assert(jj == j as int);
            assert(m2.leaves[jj].points =~~= m1.leaves[jj].points.push(query@));
            assert(m2.leaves[jj].items =~~= m1.leaves[jj].items.push(item));
            assert forall|x: int| 0 <= x < m1.leaves.len() && x != jj implies m2.leaves[x] == (
            #[trigger] m1.leaves[x]) by {
                assert(m2.leaves[x].points =~~= m1.leaves[x].points);
                assert(m2.leaves[x].items =~~= m1.leaves[x].items);
            }
            assert(m2.leaves[jj].entries() =~= m1.leaves[jj].entries().push(e));
            lemma_entries_upto_add(m1, m2, jj, e, m1.leaves.len() as int);
            assert(m2.leaves =~= mm.leaves);
            assert(m2 =~= mm);
            assert(wf_model(m2));
        }
    }

    /// The checked insertion path: identical traversal to the fast path, but
    /// the destination bucket's occupancy is tested first, and an insertion
    /// into a full bucket is refused with `BucketOverflow`, leaving the tree
    /// untouched.
    pub fn safe_add_to_optimized(&mut self, query: &Vec<i64>, item: u64) -> (r: Result<(), KdError>)
        requires
            old(self).inv(),
            query@.len() == old(self).dims as int,
            point_in_range(query@),
        ensures
            final(self).inv(),
            ({
                let m = old(self).model();
                let full = m.leaves[route(m.stems, m.k, query@, 1, 0) - m.stems.len()].points.len()
                    >= m.cap;
                if full {
                    r == Result::<(), KdError>::Err(KdError::BucketOverflow) && final(self).model()
                        == old(self).model()
                } else {
                    r == Result::<(), KdError>::Ok(()) && final(self).model() == add_model(
                        old(self).model(),
                        query@,
                        item,
                    )
                }
            }),
    {
        let j: usize = self.find_leaf(query);
        if self.leaves[j].points.len() >= self.cap {
            proof {
                assert(self.model() =~= old(self).model());
            }
            Err(KdError::BucketOverflow)
        } else {
            self.add_to_optimized(query, item);
            Ok(())
        }
    }
}

/// Copies a point coordinate-for-coordinate.
pub fn clone_point(p: &Vec<i64>) -> (r: Vec<i64>)
    ensures
        r@ == p@,
{
    let n: usize = p.len();
    let mut r: Vec<i64> = Vec::new();
    let mut i: usize = 0;
    while i < n
        invariant
            0 <= i <= n,
            n == p@.len(),
            r@ == p@.take(i as int),
        decreases n - i,
    {
        r.push(p[i]);
        proof {
            assert(r@ =~= p@.take(i as int + 1));
        }
        i = i + 1;
    }
    proof {
        assert(r@ =~= p@);
    }
    r
}

/// The entry count of a well-formed prefix of leaves is at most the number
/// of leaves times the bucket capacity.
pub proof fn lemma_occupancy_bound(m: TreeModel, j: int)
    requires
        wf_model(m),
        0 <= j <= m.leaves.len(),
    ensures
        crate::model::entries_upto(m, j).len() <= j * m.cap,
    decreases j,
{
    if j > 0 {
        lemma_occupancy_bound(m, j - 1);
        assert(m.leaves[j - 1].wf(m.k, m.cap));
        assert((j - 1) * m.cap + m.cap == j * m.cap) by (nonlinear_arith);
    }
}

} // verus!
