//! The query result record and the order results are reported in.

use vstd::prelude::*;

verus! {

/// One query result: the metric distance from the query point to a stored
/// point, and that point's content item.
#[derive(Clone, Copy, PartialEq, Eq, Structural, Debug)]
pub struct NearestNeighbour {
    pub distance: i64,
    pub item: u64,
}

/// The result order: ascending distance, ties broken by ascending item.
pub open spec fn nn_le(a: NearestNeighbour, b: NearestNeighbour) -> bool {
    a.distance < b.distance || (a.distance == b.distance && a.item <= b.item)
}

/// The result order as a relation value, for sorting specifications.
pub open spec fn nn_leq() -> spec_fn(NearestNeighbour, NearestNeighbour) -> bool {
    |a: NearestNeighbour, b: NearestNeighbour| nn_le(a, b)
}

/// The result order is a total order, so a sorted arrangement of any
/// multiset of results is unique.
pub proof fn lemma_nn_total()
    ensures
        vstd::relations::total_ordering(nn_leq()),
{
    assert forall|a: NearestNeighbour, b: NearestNeighbour| #[trigger] nn_leq()(a, b) && nn_leq()(
        b,
        a,
    ) implies a == b by {
        assert(nn_le(a, b) && nn_le(b, a));
    }
    assert forall|a: NearestNeighbour, b: NearestNeighbour|
        !(#[trigger] nn_leq()(a, b)) implies nn_leq()(b, a) by {
        assert(!nn_le(a, b));
        assert(nn_le(b, a));
    }
}

} // verus!
