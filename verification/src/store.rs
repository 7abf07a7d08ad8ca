//! The traversal interface the query engine reads a tree through.
//!
//! Both the live tree and the archived byte view expose the same stem read
//! and leaf scan operations, so one verified engine serves both.

use vstd::prelude::*;

use crate::model::{wf_model, TreeModel};
use crate::tree::{clone_point, ImmutableKdTree};

verus! {

/// Read access to a stem array and its leaf buckets, abstracted over how
/// the data is laid out in memory.
pub trait Store: Sized {
    /// The mathematical tree the storage represents.
    spec fn store_model(&self) -> TreeModel;

    /// The storage is well formed.
    spec fn store_inv(&self) -> bool;

    /// A well-formed storage represents a well-formed tree.
    proof fn lemma_store_wf(&self)
        requires
            self.store_inv(),
        ensures
            wf_model(self.store_model()),
    ;

    /// The number of coordinate axes.
    fn dim_count(&self) -> (r: usize)
        requires
            self.store_inv(),
        ensures
            r as int == self.store_model().k,
    ;

    /// The stem array length (equal to the number of leaf buckets).
    fn stem_count(&self) -> (r: usize)
        requires
            self.store_inv(),
        ensures
            r as int == self.store_model().stems.len(),
    ;

    /// The splitting value stored at stem index `i`.
    fn stem(&self, i: usize) -> (r: i64)
        requires
            self.store_inv(),
            1 <= i < self.store_model().stems.len(),
        ensures
            r == self.store_model().stems[i as int],
    ;

    /// The occupancy of leaf bucket `j`.
    fn leaf_len(&self, j: usize) -> (r: usize)
        requires
            self.store_inv(),
            j < self.store_model().leaves.len(),
        ensures
            r as int == self.store_model().leaves[j as int].points.len(),
    ;

    /// The point in slot `s` of leaf bucket `j`.
    fn leaf_point(&self, j: usize, s: usize) -> (r: Vec<i64>)
        requires
            self.store_inv(),
            j < self.store_model().leaves.len(),
            s < self.store_model().leaves[j as int].points.len(),
        ensures
            r@ == self.store_model().leaves[j as int].points[s as int],
    ;

    /// The content item in slot `s` of leaf bucket `j`.
    fn leaf_item(&self, j: usize, s: usize) -> (r: u64)
        requires
            self.store_inv(),
            j < self.store_model().leaves.len(),
            s < self.store_model().leaves[j as int].items.len(),
        ensures
            r == self.store_model().leaves[j as int].items[s as int],
    ;
}

impl Store for ImmutableKdTree {
    open spec fn store_model(&self) -> TreeModel {
        self.model()
    }

    open spec fn store_inv(&self) -> bool {
        self.inv()
    }

    proof fn lemma_store_wf(&self) {
    }

    fn dim_count(&self) -> (r: usize) {
        self.dims
    }

    fn stem_count(&self) -> (r: usize) {
        self.stems.len()
    }

    fn stem(&self, i: usize) -> (r: i64) {
        self.stems[i]
    }

    fn leaf_len(&self, j: usize) -> (r: usize) {
        self.leaves[j].points.len()
    }

    fn leaf_point(&self, j: usize, s: usize) -> (r: Vec<i64>) {
        let r = clone_point(&self.leaves[j].points[s]);
        proof {
            assert(r@ =~= self.store_model().leaves[j as int].points[s as int]);
        }
        r
    }

    fn leaf_item(&self, j: usize, s: usize) -> (r: u64) {
        self.leaves[j].items[s]
    }
}

} // verus!
