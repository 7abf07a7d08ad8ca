//! Mathematical model of the flat-array k-d tree.
//!
//! A tree is a 1-indexed stem array (a complete binary tree of splitting
//! values, node `i`'s children at `2i` and `2i+1`, index 0 unused) over a
//! matching sequence of leaf buckets; leaf `j` corresponds to tree node
//! `stems.len() + j`. A point is routed from the root by branching right
//! exactly when its coordinate on the node's axis is at least the stored
//! split value, cycling axes with depth. The well-formedness invariant
//! states that every stored point lies in the leaf its routing reaches —
//! the fact all query pruning rests on.

use vstd::prelude::*;

use crate::limits::{in_coord_range, point_in_range, BUCKET_LIMIT, DIMS_LIMIT, LEAVES_LIMIT};

verus! {

/// Model of one leaf bucket: parallel point and item sequences.
pub struct LeafModel {
    pub points: Seq<Seq<i64>>,
    pub items: Seq<u64>,
}

impl LeafModel {
    /// The (point, item) pairs the bucket holds, in slot order.
    pub open spec fn entries(self) -> Seq<(Seq<i64>, u64)> {
        Seq::new(self.points.len(), |i: int| (self.points[i], self.items[i]))
    }

    /// Parallel arrays agree, occupancy respects the capacity, and every
    /// stored point has dimension `k` with in-range coordinates.
    pub open spec fn wf(self, k: int, cap: int) -> bool {
        &&& self.points.len() == self.items.len()
        &&& self.points.len() <= cap
        &&& forall|i: int|
            0 <= i < self.points.len() ==> (#[trigger] self.points[i]).len() == k
                && point_in_range(self.points[i])
    }
}

/// Model of a whole tree: stems, leaves, dimensions, bucket capacity, and
/// the running total of stored points.
pub struct TreeModel {
    pub stems: Seq<i64>,
    pub leaves: Seq<LeafModel>,
    pub k: int,
    pub cap: int,
    pub size: int,
}

/// The tree node a point is routed to, starting from node `idx` on axis
/// `dim`: at each stem, branch right exactly when the point's coordinate on
/// the current axis is at least the split value; stop at the first index
/// past the stem range.
pub open spec fn route(stems: Seq<i64>, k: int, p: Seq<i64>, idx: int, dim: int) -> int
    decreases 2 * stems.len() - idx when 1 <= idx < 2 * stems.len()
{
    if idx < stems.len() {
        let b: int = if p[dim] >= stems[idx] {
            1
        } else {
            0
        };
        route(stems, k, p, 2 * idx + b, next_dim(dim, k))
    } else {
        idx
    }
}

/// The axis examined one level deeper: axes cycle round-robin.
pub open spec fn next_dim(dim: int, k: int) -> int {
    if dim + 1 == k {
        0
    } else {
        dim + 1
    }
}

/// Node `a` lies on the root path of node `b` (equivalently, `b` is in the
/// subtree rooted at `a`).
pub open spec fn is_ancestor(a: int, b: int) -> bool
    decreases b when a >= 1 && b >= 1
{
    if b == a {
        true
    } else if b <= a {
        false
    } else {
        is_ancestor(a, b / 2)
    }
}

/// The leaf buckets of a well-formed tree hold exactly the points their
/// routing reaches, and all bounds hold.
pub open spec fn wf_model(m: TreeModel) -> bool {
    &&& 1 <= m.k <= DIMS_LIMIT as int
    &&& 1 <= m.cap <= BUCKET_LIMIT as int
    &&& 1 <= m.stems.len() <= LEAVES_LIMIT as int
    &&& m.leaves.len() == m.stems.len()
    &&& forall|i: int| 0 <= i < m.stems.len() ==> in_coord_range(#[trigger] m.stems[i])
    &&& forall|j: int| 0 <= j < m.leaves.len() ==> (#[trigger] m.leaves[j]).wf(m.k, m.cap)
    &&& forall|j: int, s: int|
        0 <= j < m.leaves.len() && 0 <= s < m.leaves[j].points.len() ==> route(
            m.stems,
            m.k,
            #[trigger] m.leaves[j].points[s],
            1,
            0,
        ) == m.stems.len() + j
    &&& m.size == all_entries(m).len()
}

/// The entries of the first `j` leaves, concatenated in leaf order.
pub open spec fn entries_upto(m: TreeModel, j: int) -> Seq<(Seq<i64>, u64)>
    decreases j,
{
    if j <= 0 {
        Seq::empty()
    } else {
        entries_upto(m, j - 1) + m.leaves[j - 1].entries()
    }
}

/// Every (point, item) pair the tree holds, in leaf-then-slot order.
pub open spec fn all_entries(m: TreeModel) -> Seq<(Seq<i64>, u64)> {
    entries_upto(m, m.leaves.len() as int)
}

/// The root is an ancestor of every node.
pub proof fn lemma_root_ancestor(b: int)
    requires
        b >= 1,
    ensures
        is_ancestor(1, b),
    decreases b,
{
    if b > 1 {
        lemma_root_ancestor(b / 2);
    }
}

/// A node at leaf level is an ancestor of a leaf-level node only if the two
/// are equal.
pub proof fn lemma_leaf_level_ancestor(a: int, b: int, len: int)
    requires
        len <= a,
        len <= b < 2 * len,
        1 <= len,
        is_ancestor(a, b),
    ensures
        a == b,
{
    if b != a {
        assert(b > a);
        assert(is_ancestor(a, b / 2));
        assert(b / 2 < len);
    }
}

/// The two children of a node have disjoint subtrees.
pub proof fn lemma_children_disjoint(idx: int, f: int)
    requires
        1 <= idx,
        1 <= f,
        is_ancestor(2 * idx, f),
    ensures
        !is_ancestor(2 * idx + 1, f),
    decreases f,
{
    if f == 2 * idx {
    } else if f == 2 * idx + 1 {
        assert(is_ancestor(2 * idx, f / 2));
        assert(f / 2 == idx);
    } else {
        assert(f > 2 * idx);
        if f > 2 * idx + 1 {
            lemma_children_disjoint(idx, f / 2);
        }
    }
}

/// A strict descendant of a node lies in the subtree of exactly one of its
/// children.
pub proof fn lemma_ancestor_child(idx: int, f: int)
    requires
        1 <= idx < f,
        is_ancestor(idx, f),
    ensures
        is_ancestor(2 * idx, f) || is_ancestor(2 * idx + 1, f),
    decreases f,
{
    assert(is_ancestor(idx, f / 2));
    if f / 2 == idx {
        assert(f == 2 * idx || f == 2 * idx + 1);
    } else {
        assert(f / 2 > idx);
        lemma_ancestor_child(idx, f / 2);
        assert(f >= 2 * (idx + 1));
    }
}

/// Routing never leaves the subtree of its starting node.
pub proof fn lemma_route_descendant(stems: Seq<i64>, k: int, p: Seq<i64>, idx: int, dim: int)
    requires
        1 <= idx < 2 * stems.len(),
    ensures
        is_ancestor(idx, route(stems, k, p, idx, dim)),
        route(stems, k, p, idx, dim) >= idx,
    decreases 2 * stems.len() - idx,
{
    if idx < stems.len() {
        let b: int = if p[dim] >= stems[idx] {
            1
        } else {
            0
        };
        let c = 2 * idx + b;
        lemma_route_descendant(stems, k, p, c, next_dim(dim, k));
        lemma_ancestor_extend(idx, c, route(stems, k, p, c, next_dim(dim, k)));
    }
}

/// Being an ancestor of a child of `c` extends through `c` to `idx` when
/// `c` is a child of `idx`.
pub proof fn lemma_ancestor_extend(idx: int, c: int, f: int)
    requires
        1 <= idx,
        c == 2 * idx || c == 2 * idx + 1,
        is_ancestor(c, f),
        f >= c,
    ensures
        is_ancestor(idx, f),
        f >= idx,
    decreases f,
{
    assert(c / 2 == idx);
    if f == c {
        assert(is_ancestor(idx, c / 2));
        assert(is_ancestor(idx, c));
    } else {
        assert(f > c);
        assert(is_ancestor(c, f / 2));
        lemma_ancestor_le(c, f / 2);
        lemma_ancestor_extend(idx, c, f / 2);
    }
}

/// An ancestor's index never exceeds its descendant's.
pub proof fn lemma_ancestor_le(a: int, b: int)
    requires
        a >= 1,
        b >= 1,
        is_ancestor(a, b),
    ensures
        b >= a,
{
}

/// Routing from within the stem range lands at leaf level.
pub proof fn lemma_route_range(stems: Seq<i64>, k: int, p: Seq<i64>, idx: int, dim: int)
    requires
        1 <= idx < 2 * stems.len(),
        stems.len() >= 1,
    ensures
        stems.len() <= route(stems, k, p, idx, dim) < 2 * stems.len(),
    decreases 2 * stems.len() - idx,
{
    if idx < stems.len() {
        let b: int = if p[dim] >= stems[idx] {
            1
        } else {
            0
        };
        lemma_route_range(stems, k, p, 2 * idx + b, next_dim(dim, k));
    }
}

/// If a point routed from stem node `idx` ends in the subtree of child `c`
/// of `idx`, the branch taken at `idx` is exactly toward `c`, and the rest
/// of the routing continues from `c`.
pub proof fn lemma_route_step(
    stems: Seq<i64>,
    k: int,
    p: Seq<i64>,
    idx: int,
    dim: int,
    c: int,
)
    requires
        1 <= idx < stems.len(),
        c == 2 * idx || c == 2 * idx + 1,
        is_ancestor(c, route(stems, k, p, idx, dim)),
    ensures
        route(stems, k, p, idx, dim) == route(stems, k, p, c, next_dim(dim, k)),
        (c == 2 * idx + 1) <==> p[dim] >= stems[idx],
{
    let b: int = if p[dim] >= stems[idx] {
        1
    } else {
        0
    };
    let taken = 2 * idx + b;
    let f = route(stems, k, p, idx, dim);
    assert(f == route(stems, k, p, taken, next_dim(dim, k)));
    lemma_route_descendant(stems, k, p, taken, next_dim(dim, k));
    if taken != c {
        if taken == 2 * idx {
            lemma_children_disjoint(idx, f);
        } else {
            lemma_children_disjoint(idx, f);
        }
    }
}


/// The model after one point is placed by routing: the reached leaf gains
/// the (point, item) pair in its last slot and the size grows by one.
pub open spec fn add_model(m: TreeModel, p: Seq<i64>, item: u64) -> TreeModel {
    let j = route(m.stems, m.k, p, 1, 0) - m.stems.len();
    TreeModel {
        leaves: m.leaves.update(
            j,
            LeafModel {
                points: m.leaves[j].points.push(p),
                items: m.leaves[j].items.push(item),
            },
        ),
        size: m.size + 1,
        ..m
    }
}

/// A tree whose leaves are all empty holds no entries.
pub proof fn lemma_entries_upto_empty(m: TreeModel, j: int)
    requires
        forall|x: int| 0 <= x < j ==> (#[trigger] m.leaves[x]).points.len() == 0,
    ensures
        entries_upto(m, j).len() == 0,
    decreases j,
{
    if j > 0 {
        lemma_entries_upto_empty(m, j - 1);
    }
}

/// How the concatenated entries change when exactly one leaf gains one
/// entry at its end: prefixes before that leaf are untouched, and past it
/// the length grows by one and the multiset gains exactly the new entry.
pub proof fn lemma_entries_upto_add(m1: TreeModel, m2: TreeModel, jj: int, e: (Seq<i64>, u64), j: int)
    requires
        0 <= jj < m1.leaves.len(),
        m2.leaves.len() == m1.leaves.len(),
        forall|x: int| 0 <= x < m1.leaves.len() && x != jj ==> m2.leaves[x] == (#[trigger] m1.leaves[x]),
        m2.leaves[jj].entries() == m1.leaves[jj].entries().push(e),
        0 <= j <= m1.leaves.len(),
    ensures
        j <= jj ==> entries_upto(m2, j) == entries_upto(m1, j),
        j > jj ==> entries_upto(m2, j).len() == entries_upto(m1, j).len() + 1
            && entries_upto(m2, j).to_multiset() == entries_upto(m1, j).to_multiset().insert(e),
    decreases j,
{
    broadcast use vstd::seq_lib::lemma_multiset_commutative;
    broadcast use vstd::seq_lib::group_to_multiset_ensures;

    if j > 0 {
        lemma_entries_upto_add(m1, m2, jj, e, j - 1);
        if j - 1 == jj {
            let a1 = entries_upto(m1, j - 1);
            let l1 = m1.leaves[jj].entries();
            assert(entries_upto(m2, j) == a1 + l1.push(e));
            assert((a1 + l1.push(e)).to_multiset() == a1.to_multiset().add(
                l1.push(e).to_multiset(),
            ));
            assert(l1.push(e).to_multiset() == l1.to_multiset().insert(e));
            assert((a1 + l1).to_multiset() == a1.to_multiset().add(l1.to_multiset()));
            assert(a1.to_multiset().add(l1.to_multiset().insert(e)) == a1.to_multiset().add(
                l1.to_multiset(),
            ).insert(e));
        } else if j - 1 > jj {
            let a1 = entries_upto(m1, j - 1);
            let a2 = entries_upto(m2, j - 1);
            let l = m1.leaves[j - 1].entries();
            assert(m2.leaves[j - 1] == m1.leaves[j - 1]);
            assert(entries_upto(m2, j) == a2 + l);
            assert((a2 + l).to_multiset() == a2.to_multiset().add(l.to_multiset()));
            assert((a1 + l).to_multiset() == a1.to_multiset().add(l.to_multiset()));
            assert(a1.to_multiset().insert(e).add(l.to_multiset()) == a1.to_multiset().add(
                l.to_multiset(),
            ).insert(e));
        } else {
            assert(m2.leaves[j - 1] == m1.leaves[j - 1]);
        }
    }
}


/// Every entry of a well-formed tree's concatenated leaves carries a point
/// of dimension `k` with in-range coordinates.
pub proof fn lemma_entries_wf(m: TreeModel, j: int)
    requires
        wf_model(m),
        0 <= j <= m.leaves.len(),
    ensures
        forall|i: int|
            0 <= i < entries_upto(m, j).len() ==> (#[trigger] entries_upto(m, j)[i]).0.len() == m.k
                && crate::limits::point_in_range(entries_upto(m, j)[i].0),
    decreases j,
{
    if j > 0 {
        lemma_entries_wf(m, j - 1);
        assert(m.leaves[j - 1].wf(m.k, m.cap));
        let prev = entries_upto(m, j - 1);
        let es = m.leaves[j - 1].entries();
        assert forall|i: int| 0 <= i < entries_upto(m, j).len() implies (#[trigger] entries_upto(
            m,
            j,
        )[i]).0.len() == m.k && crate::limits::point_in_range(entries_upto(m, j)[i].0) by {
            if i < prev.len() {
                assert(entries_upto(m, j)[i] == prev[i]);
            } else {
                assert(entries_upto(m, j)[i] == es[i - prev.len()]);
                assert(es[i - prev.len()].0 == m.leaves[j - 1].points[i - prev.len()]);
            }
        }
    }
}

} // verus!


