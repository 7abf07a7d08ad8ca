//! The query engine: radius search (`within`) and bounded nearest-neighbour
//! search (`nearest_n`) by branch-and-bound traversal of the stem array with
//! per-axis lower-bound pruning, over any [`Store`].

use vstd::prelude::*;

use vstd::seq_lib::*;
use vstd::multiset::Multiset;

use crate::limits::{point_in_range, AXIS_COST_LIMIT};
use crate::metric::{
    dist_full, dist_of, lemma_dist_sum_bounds, lemma_dist_sum_lower, lemma_lo_sum_bounds,
    lemma_lo_sum_update, lo_sum, Metric,
};
use crate::model::{
    all_entries, entries_upto, is_ancestor, lemma_ancestor_child, lemma_ancestor_extend,
    lemma_children_disjoint, lemma_leaf_level_ancestor, lemma_root_ancestor, lemma_route_step,
    next_dim, route, wf_model, TreeModel,
};
use crate::nearest_neighbour::{lemma_nn_total, nn_le, nn_leq, NearestNeighbour};
use crate::store::Store;
use crate::tree::clone_point;

verus! {

/// The result record for one entry: its metric distance and its item.
pub open spec fn record_of<M: Metric>(met: M, q: Seq<i64>, e: (Seq<i64>, u64)) -> NearestNeighbour {
    NearestNeighbour { distance: dist_full(met, q, e.0) as i64, item: e.1 }
}

/// The entries of a sequence strictly closer to the query than `radius`,
/// as result records in entry order.
pub open spec fn matches_of<M: Metric>(
    met: M,
    q: Seq<i64>,
    radius: i64,
    es: Seq<(Seq<i64>, u64)>,
) -> Seq<NearestNeighbour> {
    es.filter(|e: (Seq<i64>, u64)| dist_full(met, q, e.0) < radius as int).map_values(
        |e: (Seq<i64>, u64)| record_of(met, q, e),
    )
}

/// What a radius query returns: every stored entry closer than `radius`,
/// sorted ascending by distance with ties broken by ascending item.
pub open spec fn within_model<M: Metric>(
    met: M,
    q: Seq<i64>,
    radius: i64,
    m: TreeModel,
) -> Seq<NearestNeighbour> {
    matches_of(met, q, radius, all_entries(m)).sort_by(nn_leq())
}

/// What a nearest-`n` query returns: all stored entries sorted by distance
/// (ties by item), truncated to the first `n`.
pub open spec fn nearest_model<M: Metric>(
    met: M,
    q: Seq<i64>,
    n: int,
    m: TreeModel,
) -> Seq<NearestNeighbour> {
    let full = all_entries(m).map_values(|e: (Seq<i64>, u64)| record_of(met, q, e)).sort_by(
        nn_leq(),
    );
    full.take(if n <= full.len() { n } else { full.len() as int })
}

/// The multiset of matches found in the leaves of the subtree of `node`,
/// accumulated over the first `j` leaves.
pub open spec fn found_upto<M: Metric>(
    met: M,
    q: Seq<i64>,
    radius: i64,
    m: TreeModel,
    node: int,
    j: int,
) -> Multiset<NearestNeighbour>
    decreases j,
{
    if j <= 0 {
        Multiset::empty()
    } else {
        found_upto(met, q, radius, m, node, j - 1).add(
            if is_ancestor(node, m.stems.len() + j - 1) {
                matches_of(met, q, radius, m.leaves[j - 1].entries()).to_multiset()
            } else {
                Multiset::empty()
            },
        )
    }
}

/// The multiset of matches in the subtree of `node`.
pub open spec fn found<M: Metric>(
    met: M,
    q: Seq<i64>,
    radius: i64,
    m: TreeModel,
    node: int,
) -> Multiset<NearestNeighbour> {
    found_upto(met, q, radius, m, node, m.leaves.len() as int)
}

/// Every point of every leaf in the subtree of `node` routes from `node`
/// (on axis `dim`) back to its own leaf.
pub open spec fn routed_under(m: TreeModel, node: int, dim: int) -> bool {
    forall|j: int, s: int|
        0 <= j < m.leaves.len() && is_ancestor(node, m.stems.len() + j) && 0 <= s
            < m.leaves[j].points.len() ==> route(
            m.stems,
            m.k,
            #[trigger] m.leaves[j].points[s],
            node,
            dim,
        ) == m.stems.len() + j
}

/// Every point of every leaf in the subtree of `node` respects the per-axis
/// lower bounds `lo` against the query.
pub open spec fn lower_ok<M: Metric>(
    met: M,
    q: Seq<i64>,
    lo: Seq<i64>,
    m: TreeModel,
    node: int,
) -> bool {
    forall|j: int, s: int, d: int|
        0 <= j < m.leaves.len() && is_ancestor(node, m.stems.len() + j) && 0 <= s
            < m.leaves[j].points.len() && 0 <= d < m.k ==> (lo[d] as int) <= #[trigger] met.axis_cost(
            q[d],
            m.leaves[j].points[s][d],
        )
}

/// Matching distributes over concatenation of entry sequences.
pub proof fn lemma_matches_concat<M: Metric>(
    met: M,
    q: Seq<i64>,
    radius: i64,
    a: Seq<(Seq<i64>, u64)>,
    b: Seq<(Seq<i64>, u64)>,
)
    ensures
        matches_of(met, q, radius, a + b) == matches_of(met, q, radius, a) + matches_of(
            met,
            q,
            radius,
            b,
        ),
{
    let pred = |e: (Seq<i64>, u64)| dist_full(met, q, e.0) < radius as int;
    let f = |e: (Seq<i64>, u64)| record_of(met, q, e);
    Seq::filter_distributes_over_add(a, b, pred);
    assert((a.filter(pred) + b.filter(pred)).map_values(f) =~= a.filter(pred).map_values(f)
        + b.filter(pred).map_values(f));
}

/// Matching a one-longer entry sequence appends the new entry's record
/// exactly when it is within the radius.
pub proof fn lemma_matches_push<M: Metric>(
    met: M,
    q: Seq<i64>,
    radius: i64,
    es: Seq<(Seq<i64>, u64)>,
    e: (Seq<i64>, u64),
)
    ensures
        dist_full(met, q, e.0) < radius as int ==> matches_of(met, q, radius, es.push(e))
            == matches_of(met, q, radius, es).push(record_of(met, q, e)),
        dist_full(met, q, e.0) >= radius as int ==> matches_of(met, q, radius, es.push(e))
            == matches_of(met, q, radius, es),
{
    let pred = |e: (Seq<i64>, u64)| dist_full(met, q, e.0) < radius as int;
    let f = |e: (Seq<i64>, u64)| record_of(met, q, e);
    let single = seq![e];
    assert(es.push(e) =~= es + single);
    lemma_matches_concat(met, q, radius, es, single);
    reveal_with_fuel(Seq::filter, 3);
    assert(single.drop_last() =~= Seq::<(Seq<i64>, u64)>::empty());
    if pred(e) {
        assert(single.filter(pred) =~= single);
        assert(single.map_values(f) =~= seq![record_of(met, q, e)]);
        assert(matches_of(met, q, radius, es) + seq![record_of(met, q, e)] =~= matches_of(
            met,
            q,
            radius,
            es,
        ).push(record_of(met, q, e)));
    } else {
        assert(single.filter(pred) =~= Seq::<(Seq<i64>, u64)>::empty());
        assert(matches_of(met, q, radius, single) =~= Seq::<NearestNeighbour>::empty());
        assert(matches_of(met, q, radius, es) + Seq::<NearestNeighbour>::empty() =~= matches_of(
            met,
            q,
            radius,
            es,
        ));
    }
}

/// In the subtree of a leaf-level node there is exactly that node's leaf.
pub proof fn lemma_found_leaf<M: Metric>(met: M, q: Seq<i64>, radius: i64, m: TreeModel, node: int)
    requires
        wf_model(m),
        m.stems.len() <= node < 2 * m.stems.len(),
    ensures
        found(met, q, radius, m, node) == matches_of(
            met,
            q,
            radius,
            m.leaves[node - m.stems.len()].entries(),
        ).to_multiset(),
{
    lemma_found_upto_leaf(met, q, radius, m, node, m.leaves.len() as int);
}

proof fn lemma_found_upto_leaf<M: Metric>(
    met: M,
    q: Seq<i64>,
    radius: i64,
    m: TreeModel,
    node: int,
    j: int,
)
    requires
        wf_model(m),
        m.stems.len() <= node < 2 * m.stems.len(),
        0 <= j <= m.leaves.len(),
    ensures
        found_upto(met, q, radius, m, node, j) == if j > node - m.stems.len() {
            matches_of(met, q, radius, m.leaves[node - m.stems.len()].entries()).to_multiset()
        } else {
            Multiset::<NearestNeighbour>::empty()
        },
    decreases j,
{
    if j > 0 {
        lemma_found_upto_leaf(met, q, radius, m, node, j - 1);
        let l = m.stems.len() + j - 1;
        if is_ancestor(node, l) {
            lemma_leaf_level_ancestor(node, l, m.stems.len() as int);
            assert(j - 1 == node - m.stems.len());
            assert(found_upto(met, q, radius, m, node, j - 1)
                =~= Multiset::<NearestNeighbour>::empty());
            assert(Multiset::<NearestNeighbour>::empty().add(
                matches_of(met, q, radius, m.leaves[j - 1].entries()).to_multiset(),
            ) =~= matches_of(met, q, radius, m.leaves[j - 1].entries()).to_multiset());
        } else {
            assert(j - 1 != node - m.stems.len());
            assert(found_upto(met, q, radius, m, node, j) =~= found_upto(
                met,
                q,
                radius,
                m,
                node,
                j - 1,
            ));
        }
    }
}

/// The matches in a stem's subtree are exactly those of its two children's
/// subtrees together.
pub proof fn lemma_found_split<M: Metric>(met: M, q: Seq<i64>, radius: i64, m: TreeModel, idx: int)
    requires
        wf_model(m),
        1 <= idx < m.stems.len(),
    ensures
        found(met, q, radius, m, idx) == found(met, q, radius, m, 2 * idx).add(
            found(met, q, radius, m, 2 * idx + 1),
        ),
{
    lemma_found_upto_split(met, q, radius, m, idx, m.leaves.len() as int);
}

proof fn lemma_found_upto_split<M: Metric>(
    met: M,
    q: Seq<i64>,
    radius: i64,
    m: TreeModel,
    idx: int,
    j: int,
)
    requires
        wf_model(m),
        1 <= idx < m.stems.len(),
        0 <= j <= m.leaves.len(),
    ensures
        found_upto(met, q, radius, m, idx, j) == found_upto(met, q, radius, m, 2 * idx, j).add(
            found_upto(met, q, radius, m, 2 * idx + 1, j),
        ),
    decreases j,
{
    if j > 0 {
        lemma_found_upto_split(met, q, radius, m, idx, j - 1);
        let l = m.stems.len() + j - 1;
        assert(l > idx);
        if is_ancestor(idx, l) {
            lemma_ancestor_child(idx, l);
            if is_ancestor(2 * idx, l) {
                lemma_children_disjoint(idx, l);
            }
        } else {
            if is_ancestor(2 * idx, l) {
                lemma_ancestor_extend(idx, 2 * idx, l);
            }
            if is_ancestor(2 * idx + 1, l) {
                lemma_ancestor_extend(idx, 2 * idx + 1, l);
            }
        }
        assert(found_upto(met, q, radius, m, idx, j) =~= found_upto(
            met,
            q,
            radius,
            m,
            2 * idx,
            j,
        ).add(found_upto(met, q, radius, m, 2 * idx + 1, j)));
    } else {
        assert(found_upto(met, q, radius, m, idx, j) =~= found_upto(
            met,
            q,
            radius,
            m,
            2 * idx,
            j,
        ).add(found_upto(met, q, radius, m, 2 * idx + 1, j)));
    }
}

/// The matches in the root's subtree are the matches among all entries.
pub proof fn lemma_found_root<M: Metric>(met: M, q: Seq<i64>, radius: i64, m: TreeModel)
    requires
        wf_model(m),
    ensures
        found(met, q, radius, m, 1) == matches_of(met, q, radius, all_entries(m)).to_multiset(),
{
    lemma_found_upto_root(met, q, radius, m, m.leaves.len() as int);
}

proof fn lemma_found_upto_root<M: Metric>(met: M, q: Seq<i64>, radius: i64, m: TreeModel, j: int)
    requires
        wf_model(m),
        0 <= j <= m.leaves.len(),
    ensures
        found_upto(met, q, radius, m, 1, j) == matches_of(
            met,
            q,
            radius,
            entries_upto(m, j),
        ).to_multiset(),
    decreases j,
{
    broadcast use vstd::seq_lib::lemma_multiset_commutative;
    broadcast use vstd::seq_lib::group_to_multiset_ensures;
    broadcast use vstd::multiset::group_multiset_axioms;

    if j > 0 {
        lemma_found_upto_root(met, q, radius, m, j - 1);
        lemma_root_ancestor(m.stems.len() + j - 1);
        lemma_matches_concat(met, q, radius, entries_upto(m, j - 1), m.leaves[j - 1].entries());
        assert(found_upto(met, q, radius, m, 1, j) =~= matches_of(
            met,
            q,
            radius,
            entries_upto(m, j),
        ).to_multiset());
    } else {
        assert(entries_upto(m, j) =~= Seq::<(Seq<i64>, u64)>::empty());
        assert(matches_of(met, q, radius, entries_upto(m, j)) =~= Seq::<NearestNeighbour>::empty());
        assert(Seq::<NearestNeighbour>::empty().to_multiset() =~= Multiset::<
            NearestNeighbour,
        >::empty());
    }
}

/// A subtree none of whose points is within the radius contributes no
/// matches.
pub proof fn lemma_found_none<M: Metric>(met: M, q: Seq<i64>, radius: i64, m: TreeModel, node: int)
    requires
        wf_model(m),
        forall|j: int, s: int|
            0 <= j < m.leaves.len() && is_ancestor(node, m.stems.len() + j) && 0 <= s
                < m.leaves[j].points.len() ==> dist_full(
                met,
                q,
                #[trigger] m.leaves[j].points[s],
            ) >= radius as int,
    ensures
        found(met, q, radius, m, node) == Multiset::<NearestNeighbour>::empty(),
{
    lemma_found_upto_none(met, q, radius, m, node, m.leaves.len() as int);
}

proof fn lemma_found_upto_none<M: Metric>(
    met: M,
    q: Seq<i64>,
    radius: i64,
    m: TreeModel,
    node: int,
    j: int,
)
    requires
        wf_model(m),
        0 <= j <= m.leaves.len(),
        forall|jj: int, s: int|
            0 <= jj < m.leaves.len() && is_ancestor(node, m.stems.len() + jj) && 0 <= s
                < m.leaves[jj].points.len() ==> dist_full(
                met,
                q,
                #[trigger] m.leaves[jj].points[s],
            ) >= radius as int,
    ensures
        found_upto(met, q, radius, m, node, j) == Multiset::<NearestNeighbour>::empty(),
    decreases j,
{
    broadcast use vstd::seq_lib::group_to_multiset_ensures;
    broadcast use vstd::multiset::group_multiset_axioms;

    if j > 0 {
        lemma_found_upto_none(met, q, radius, m, node, j - 1);
        if is_ancestor(node, m.stems.len() + j - 1) {
            let es = m.leaves[j - 1].entries();
            let pred = |e: (Seq<i64>, u64)| dist_full(met, q, e.0) < radius as int;
            assert forall|i: int| 0 <= i < es.len() implies !(#[trigger] pred(es[i])) by {
                assert(es[i].0 == m.leaves[j - 1].points[i]);
            }
            assert(es.all(|e: (Seq<i64>, u64)| !pred(e)));
            es.lemma_all_neg_filter_empty(pred);
            assert(es.filter(pred) =~= Seq::<(Seq<i64>, u64)>::empty());
            assert(matches_of(met, q, radius, es) =~= Seq::<NearestNeighbour>::empty());
            assert(Seq::<NearestNeighbour>::empty().to_multiset() =~= Multiset::<
                NearestNeighbour,
            >::empty());
        }
        assert(found_upto(met, q, radius, m, node, j) =~= Multiset::<NearestNeighbour>::empty());
    }
}

/// One step of the branch-and-bound traversal: collects into `out` every
/// match found in the subtree of `idx`, given per-axis lower bounds `lo`
/// (summing to `bound`) that every point of that subtree respects.
fn within_rec<S: Store, M: Metric>(
    s: &S,
    met: &M,
    q: &Vec<i64>,
    radius: i64,
    idx: usize,
    dim: usize,
    lo: &Vec<i64>,
    bound: i64,
    out: &mut Vec<NearestNeighbour>,
)
    requires
        s.store_inv(),
        q@.len() == s.store_model().k,
        point_in_range(q@),
        1 <= idx < 2 * s.store_model().stems.len(),
        dim < s.store_model().k,
        lo@.len() == s.store_model().k,
        forall|d: int|
            0 <= d < lo@.len() ==> 0 <= (#[trigger] lo@[d]) as int <= AXIS_COST_LIMIT as int,
        bound as int == lo_sum(lo@, lo@.len() as int),
        routed_under(s.store_model(), idx as int, dim as int),
        lower_ok(*met, q@, lo@, s.store_model(), idx as int),
    ensures
        final(out)@.to_multiset() == old(out)@.to_multiset().add(
            found(*met, q@, radius, s.store_model(), idx as int),
        ),
    decreases 2 * s.store_model().stems.len() - idx,
{
    broadcast use vstd::seq_lib::group_to_multiset_ensures;
    broadcast use vstd::multiset::group_multiset_axioms;

    let ghost m = s.store_model();
    proof {
        s.lemma_store_wf();
    }
    let ln: usize = s.stem_count();
    if idx >= ln {
        let j: usize = idx - ln;
        let n: usize = s.leaf_len(j);
        proof {
            lemma_found_leaf(*met, q@, radius, m, idx as int);
        }
        let ghost es = m.leaves[j as int].entries();
        let ghost out0 = out@;
        let mut ss: usize = 0;
        proof {
            assert(es.take(0) =~= Seq::<(Seq<i64>, u64)>::empty());
            assert(matches_of(*met, q@, radius, es.take(0)) =~= Seq::<NearestNeighbour>::empty());
            assert(out@.to_multiset() =~= out0.to_multiset().add(
                matches_of(*met, q@, radius, es.take(0)).to_multiset(),
            ));
        }
        while ss < n
            invariant
                s.store_inv(),
                m == s.store_model(),
                wf_model(m),
                q@.len() == m.k,
                point_in_range(q@),
                m.stems.len() <= idx < 2 * m.stems.len(),
                j == idx - m.stems.len(),
                es == m.leaves[j as int].entries(),
                n as int == m.leaves[j as int].points.len(),
                0 <= ss <= n,
                out@.to_multiset() == out0.to_multiset().add(
                    matches_of(*met, q@, radius, es.take(ss as int)).to_multiset(),
                ),
            decreases n - ss,
        {
            broadcast use vstd::seq_lib::group_to_multiset_ensures;
            broadcast use vstd::multiset::group_multiset_axioms;

            proof {
                assert(m.leaves[j as int].wf(m.k, m.cap));
            }
            let p: Vec<i64> = s.leaf_point(j, ss);
            let dst: i64 = dist_of(met, q, &p);
            let ghost e = es[ss as int];
            proof {
                assert(e.0 == p@ && e.1 == m.leaves[j as int].items[ss as int]);
                assert(es.take(ss as int + 1) =~= es.take(ss as int).push(e));
                lemma_matches_push(*met, q@, radius, es.take(ss as int), e);
            }
            if dst < radius {
                let it: u64 = s.leaf_item(j, ss);
                out.push(NearestNeighbour { distance: dst, item: it });
                proof {
                    assert(NearestNeighbour { distance: dst, item: it } == record_of(*met, q@, e));
                    assert(out@.to_multiset() =~= out0.to_multiset().add(
                        matches_of(*met, q@, radius, es.take(ss as int + 1)).to_multiset(),
                    ));
                }
            } else {
                proof {
                    assert(out@.to_multiset() =~= out0.to_multiset().add(
                        matches_of(*met, q@, radius, es.take(ss as int + 1)).to_multiset(),
                    ));
                }
            }
            ss = ss + 1;
        }
        proof {
            assert(es.take(n as int) =~= es);
        }
    } else {
        let split: i64 = s.stem(idx);
        let qd: i64 = q[dim];
        let kdims: usize = s.dim_count();
        let ndim: usize = if dim + 1 == kdims {
            0
        } else {
            dim + 1
        };
        let right_is_near: bool = qd >= split;
        let near: usize = 2 * idx + (if right_is_near {
            1
        } else {
            0
        });
        let far: usize = 2 * idx + (if right_is_near {
            0
        } else {
            1
        });
        proof {
            lemma_found_split(*met, q@, radius, m, idx as int);
            lemma_child_hypotheses(m, idx as int, dim as int, near as int);
            lemma_child_hypotheses(m, idx as int, dim as int, far as int);
            assert forall|j: int, sx: int, d: int|
                0 <= j < m.leaves.len() && is_ancestor(near as int, m.stems.len() + j) && 0 <= sx
                    < m.leaves[j].points.len() && 0 <= d < m.k implies (lo@[d] as int)
                <= #[trigger] (*met).axis_cost(q@[d], m.leaves[j].points[sx][d]) by {
                lemma_ancestor_extend(idx as int, near as int, m.stems.len() + j);
            }
        }
        let ghost out0 = out@;
        within_rec(s, met, q, radius, near, ndim, lo, bound, out);
        let g: i64 = met.axis_dist(qd, split);
        let lod: i64 = lo[dim];
        let nl: i64 = if g > lod {
            g
        } else {
            lod
        };
        proof {
            met.lemma_axis_cost_bounds(qd, split);
            lemma_lo_sum_bounds(lo@, lo@.len() as int);
            assert(m.k * (AXIS_COST_LIMIT as int) <= 32768 * (AXIS_COST_LIMIT as int))
                by (nonlinear_arith)
                requires 0 <= m.k <= 32768;
            lemma_lo_sum_update(lo@, dim as int, nl, lo@.len() as int);
        }
        let nb: i64 = bound - lod + nl;
        let ghost lo2s = lo@.update(dim as int, nl);
        proof {
            // Every point in the far subtree respects the raised bound on
            // this axis: it lies on the far side of the split, which lies
            // between it and the query coordinate.
            assert forall|j: int, sx: int, d: int|
                0 <= j < m.leaves.len() && is_ancestor(far as int, m.stems.len() + j) && 0 <= sx
                    < m.leaves[j].points.len() && 0 <= d < m.k implies (lo2s[d] as int)
                <= #[trigger] (*met).axis_cost(q@[d], m.leaves[j].points[sx][d]) by {
                let p = m.leaves[j].points[sx];
                lemma_ancestor_extend(idx as int, far as int, m.stems.len() + j);
                if d == dim as int {
                    lemma_route_step(m.stems, m.k, p, idx as int, dim as int, far as int);
                    met.lemma_axis_cost_between(qd, split, p[d]);
                }
            }
        }
        if nb < radius {
            let mut lo2: Vec<i64> = clone_point(lo);
            lo2[dim] = nl;
            proof {
                assert(lo2@ =~= lo2s);
            }
            within_rec(s, met, q, radius, far, ndim, &lo2, nb, out);
        } else {
            proof {
                assert forall|j: int, sx: int|
                    0 <= j < m.leaves.len() && is_ancestor(far as int, m.stems.len() + j) && 0 <= sx
                        < m.leaves[j].points.len() implies dist_full(
                    *met,
                    q@,
                    #[trigger] m.leaves[j].points[sx],
                ) >= radius as int by {
                    let p = m.leaves[j].points[sx];
                    assert(m.leaves[j].wf(m.k, m.cap));
                    lemma_dist_sum_lower(*met, q@, p, lo2s, m.k);
                }
                lemma_found_none(*met, q@, radius, m, far as int);
            }
        }
        proof {
            assert(out@.to_multiset() =~= out0.to_multiset().add(
                found(*met, q@, radius, m, idx as int),
            ));
        }
    }
}

/// Routing propagates from a stem to either child: points in the child's
/// subtree route from the child on the next axis.
proof fn lemma_child_hypotheses(m: TreeModel, idx: int, dim: int, c: int)
    requires
        wf_model(m),
        1 <= idx < m.stems.len(),
        c == 2 * idx || c == 2 * idx + 1,
        routed_under(m, idx, dim),
    ensures
        routed_under(m, c, next_dim(dim, m.k)),
{
    assert forall|j: int, sx: int|
        0 <= j < m.leaves.len() && is_ancestor(c, m.stems.len() + j) && 0 <= sx
            < m.leaves[j].points.len() implies route(
        m.stems,
        m.k,
        #[trigger] m.leaves[j].points[sx],
        c,
        next_dim(dim, m.k),
    ) == m.stems.len() + j by {
        let p = m.leaves[j].points[sx];
        lemma_ancestor_extend(idx, c, m.stems.len() + j);
        lemma_route_step(m.stems, m.k, p, idx, dim, c);
    }
}

/// Sorts result records ascending by distance, ties by ascending item.
fn sort_neighbours(v: Vec<NearestNeighbour>) -> (r: Vec<NearestNeighbour>)
    ensures
        vstd::relations::sorted_by(r@, nn_leq()),
        r@.to_multiset() == v@.to_multiset(),
{
    broadcast use vstd::seq_lib::group_to_multiset_ensures;
    broadcast use vstd::seq_lib::to_multiset_update;
    broadcast use vstd::multiset::group_multiset_axioms;

    let mut a = v;
    let n: usize = a.len();
    let mut i: usize = 1;
    while i < n
        invariant
            a@.len() == n,
            1 <= i,
            n > 0 ==> i <= n,
            a@.to_multiset() == v@.to_multiset(),
            forall|x: int, y: int| 0 <= x < y < i as int ==> nn_le(a@[x], a@[y]),
        decreases n - i,
    {
        broadcast use vstd::seq_lib::to_multiset_update;
        broadcast use vstd::seq_lib::group_to_multiset_ensures;
        broadcast use vstd::multiset::group_multiset_axioms;

        let mut jj: usize = i;
        while jj > 0
            invariant
                a@.len() == n,
                0 <= jj <= i < n,
                a@.to_multiset() == v@.to_multiset(),
                forall|x: int, y: int|
                    0 <= x < y <= i as int && x != jj as int && y != jj as int ==> nn_le(
                        a@[x],
                        a@[y],
                    ),
                forall|y: int| (jj as int) < y <= (i as int) ==> nn_le(a@[jj as int], a@[y]),
            ensures
                a@.len() == n,
                0 <= jj <= i < n,
                a@.to_multiset() == v@.to_multiset(),
                forall|x: int, y: int|
                    0 <= x < y <= i as int && x != jj as int && y != jj as int ==> nn_le(
                        a@[x],
                        a@[y],
                    ),
                forall|y: int| (jj as int) < y <= (i as int) ==> nn_le(a@[jj as int], a@[y]),
                jj == 0 || nn_le(a@[jj as int - 1], a@[jj as int]),
            decreases jj,
        {
            broadcast use vstd::seq_lib::to_multiset_update;
            broadcast use vstd::seq_lib::group_to_multiset_ensures;
            broadcast use vstd::multiset::group_multiset_axioms;

            let prev = a[jj - 1];
            let cur = a[jj];
            if nn_gt(prev, cur) {
                let ghost before = a@;
                a[jj - 1] = cur;
                a[jj] = prev;
                proof {
                    assert(a@ =~= before.update(jj as int - 1, cur).update(jj as int, prev));
                    assert(a@.to_multiset() =~= before.to_multiset());
                }
                jj = jj - 1;
            } else {
                break;
            }
        }
        proof {
            assert forall|x: int, y: int| 0 <= x < y <= i as int implies nn_le(a@[x], a@[y]) by {
                if y == jj as int && jj > 0 {
                    if x < jj as int - 1 {
                        assert(nn_le(a@[x], a@[jj as int - 1]));
                        assert(nn_le(a@[jj as int - 1], a@[jj as int]));
                    }
                }
            }
        }
        i = i + 1;
    }
    a
}

/// Strictly after in the result order.
fn nn_gt(a: NearestNeighbour, b: NearestNeighbour) -> (r: bool)
    ensures
        r == !nn_le(a, b),
{
    a.distance > b.distance || (a.distance == b.distance && a.item > b.item)
}

/// Radius search over any storage: every stored entry strictly closer to
/// `query` than `radius` under the metric, sorted ascending by distance,
/// ties broken by ascending item.
pub fn query_within<S: Store, M: Metric>(
    s: &S,
    query: &Vec<i64>,
    radius: i64,
    met: &M,
) -> (r: Vec<NearestNeighbour>)
    requires
        s.store_inv(),
        query@.len() == s.store_model().k,
        point_in_range(query@),
    ensures
        r@ == within_model(*met, query@, radius, s.store_model()),
{
    broadcast use vstd::seq_lib::group_to_multiset_ensures;
    broadcast use vstd::multiset::group_multiset_axioms;

    let ghost m = s.store_model();
    proof {
        s.lemma_store_wf();
    }
    let kdims: usize = s.dim_count();
    let mut lo: Vec<i64> = Vec::new();
    let mut d: usize = 0;
    while d < kdims
        invariant
            0 <= d <= kdims,
            lo@.len() == d,
            forall|x: int| 0 <= x < d ==> lo@[x] == 0i64,
        decreases kdims - d,
    {
        lo.push(0);
        d = d + 1;
    }
    let mut out: Vec<NearestNeighbour> = Vec::new();
    proof {
        lemma_lo_sum_zero(lo@, lo@.len() as int);
        assert forall|j: int, sx: int, dd: int|
            0 <= j < m.leaves.len() && is_ancestor(1, m.stems.len() + j) && 0 <= sx
                < m.leaves[j].points.len() && 0 <= dd < m.k implies (lo@[dd] as int)
            <= #[trigger] (*met).axis_cost(query@[dd], m.leaves[j].points[sx][dd]) by {
            assert(m.leaves[j].wf(m.k, m.cap));
            met.lemma_axis_cost_bounds(query@[dd], m.leaves[j].points[sx][dd]);
        }
        assert forall|j: int, sx: int|
            0 <= j < m.leaves.len() && is_ancestor(1, m.stems.len() + j) && 0 <= sx
                < m.leaves[j].points.len() implies route(
            m.stems,
            m.k,
            #[trigger] m.leaves[j].points[sx],
            1,
            0,
        ) == m.stems.len() + j by {
        }
        assert(routed_under(m, 1, 0));
    }
    within_rec(s, met, query, radius, 1, 0, &lo, 0, &mut out);
    proof {
        lemma_found_root(*met, query@, radius, m);
        assert(out@.to_multiset() =~= matches_of(*met, query@, radius, all_entries(m)).to_multiset());
    }
    let r = sort_neighbours(out);
    proof {
        lemma_nn_total();
        matches_of(*met, query@, radius, all_entries(m)).lemma_sort_by_ensures(nn_leq());
        vstd::seq_lib::lemma_sorted_unique(r@, within_model(*met, query@, radius, m), nn_leq());
    }
    r
}

/// The sum of an all-zero lower-bound vector is zero.
proof fn lemma_lo_sum_zero(lo: Seq<i64>, n: int)
    requires
        0 <= n <= lo.len(),
        forall|x: int| 0 <= x < n ==> lo[x] == 0i64,
    ensures
        lo_sum(lo, n) == 0,
    decreases n,
{
    if n > 0 {
        lemma_lo_sum_zero(lo, n - 1);
    }
}

/// Filtering keeps everything when every element satisfies the predicate.
pub proof fn lemma_filter_keeps_all<A>(s: Seq<A>, pred: spec_fn(A) -> bool)
    requires
        forall|i: int| 0 <= i < s.len() ==> pred(#[trigger] s[i]),
    ensures
        s.filter(pred) == s,
    decreases s.len(),
{
    reveal_with_fuel(Seq::filter, 2);
    if s.len() > 0 {
        lemma_filter_keeps_all(s.drop_last(), pred);
        assert(pred(s.last()));
        assert(s.filter(pred) =~= s.drop_last().filter(pred).push(s.last()));
        assert(s.drop_last().push(s.last()) =~= s);
    } else {
        assert(s.filter(pred) =~= s);
    }
}

/// Bounded nearest-neighbour search over any storage: best-first
/// branch-and-bound with the worst kept candidate as the shrinking
/// pruning threshold, returning the `n` stored entries closest to `query`
/// under the metric (all of them, if fewer than `n` are stored), sorted
/// ascending by distance, ties broken by ascending item — exactly the
/// first `n` of the full sorted enumeration.
pub fn query_nearest<S: Store, M: Metric>(
    s: &S,
    query: &Vec<i64>,
    n: usize,
    met: &M,
) -> (r: Vec<NearestNeighbour>)
    requires
        s.store_inv(),
        query@.len() == s.store_model().k,
        point_in_range(query@),
    ensures
        r@ == nearest_model(*met, query@, n as int, s.store_model()),
{
    broadcast use vstd::seq_lib::group_to_multiset_ensures;
    broadcast use vstd::multiset::group_multiset_axioms;

    let ghost m = s.store_model();
    proof {
        s.lemma_store_wf();
    }
    let kdims: usize = s.dim_count();
    let mut lo: Vec<i64> = Vec::new();
    let mut d: usize = 0;
    while d < kdims
        invariant
            0 <= d <= kdims,
            lo@.len() == d,
            forall|x: int| 0 <= x < d ==> lo@[x] == 0i64,
        decreases kdims - d,
    {
        lo.push(0);
        d = d + 1;
    }
    let mut best: Vec<NearestNeighbour> = Vec::new();
    proof {
        lemma_lo_sum_zero(lo@, lo@.len() as int);
        assert forall|j: int, sx: int, dd: int|
            0 <= j < m.leaves.len() && is_ancestor(1, m.stems.len() + j) && 0 <= sx
                < m.leaves[j].points.len() && 0 <= dd < m.k implies (lo@[dd] as int)
            <= #[trigger] (*met).axis_cost(query@[dd], m.leaves[j].points[sx][dd]) by {
            assert(m.leaves[j].wf(m.k, m.cap));
            met.lemma_axis_cost_bounds(query@[dd], m.leaves[j].points[sx][dd]);
        }
        assert(routed_under(m, 1, 0));
        assert(best@.to_multiset() =~= Multiset::<NearestNeighbour>::empty());
        assert(top_selection(n as int, Multiset::empty(), best@));
    }
    nearest_rec(s, met, query, n, 1, 0, &lo, 0, &mut best, Ghost(Multiset::empty()));
    proof {
        let es = all_entries(m);
        let frecs = es.map_values(|e: (Seq<i64>, u64)| record_of(*met, query@, e));
        let pred = |e: (Seq<i64>, u64)| dist_full(*met, query@, e.0) < i64::MAX as int;
        lemma_found_root(*met, query@, i64::MAX, m);
        crate::model::lemma_entries_wf(m, m.leaves.len() as int);
        assert forall|i: int| 0 <= i < es.len() implies pred(#[trigger] es[i]) by {
            lemma_dist_sum_bounds(*met, query@, es[i].0, m.k);
            assert(m.k * (AXIS_COST_LIMIT as int) <= 32768 * (AXIS_COST_LIMIT as int))
                by (nonlinear_arith)
                requires 0 <= m.k <= 32768;
        }
        lemma_filter_keeps_all(es, pred);
        assert(matches_of(*met, query@, i64::MAX, es) == frecs);
        assert(Multiset::empty().add(found(*met, query@, i64::MAX, m, 1)) =~= frecs.to_multiset());
        assert(top_selection(n as int, frecs.to_multiset(), best@));
        lemma_canonical_top_selection(frecs, n as int);
        lemma_nn_total();
        frecs.lemma_sort_by_ensures(nn_leq());
        assert(frecs.to_multiset().len() == frecs.len());
        assert(frecs.sort_by(nn_leq()).to_multiset().len() == frecs.sort_by(nn_leq()).len());
        lemma_top_selection_unique(
            n as int,
            frecs.to_multiset(),
            best@,
            nearest_model(*met, query@, n as int, m),
        );
    }
    best
}

impl crate::tree::ImmutableKdTree {
    /// Finds all stored entries strictly closer to `query` than `radius`
    /// under the caller's metric, sorted nearest first (ties by ascending
    /// item).
    pub fn within<M: Metric>(&self, query: &Vec<i64>, radius: i64, met: &M) -> (r: Vec<
        NearestNeighbour,
    >)
        requires
            self.inv(),
            query@.len() == self.model().k,
            point_in_range(query@),
        ensures
            r@ == within_model(*met, query@, radius, self.model()),
    {
        query_within(self, query, radius, met)
    }

    /// Finds the `n` stored entries closest to `query` under the caller's
    /// metric, sorted nearest first (ties by ascending item).
    pub fn nearest_n<M: Metric>(&self, query: &Vec<i64>, n: usize, met: &M) -> (r: Vec<
        NearestNeighbour,
    >)
        requires
            self.inv(),
            query@.len() == self.model().k,
            point_in_range(query@),
        ensures
            r@ == nearest_model(*met, query@, n as int, self.model()),
    {
        query_nearest(self, query, n, met)
    }
}

/// `r` is the sorted selection of the `n` smallest records of `xs` (all of
/// them if `xs` has fewer): sorted, drawn from `xs`, of the right length,
/// and nothing left out of `r` is smaller than its last kept record.
pub open spec fn top_selection(n: int, xs: Multiset<NearestNeighbour>, r: Seq<NearestNeighbour>) -> bool {
    &&& vstd::relations::sorted_by(r, nn_leq())
    &&& r.to_multiset().subset_of(xs)
    &&& r.len() == if n <= xs.len() {
        n
    } else {
        xs.len() as int
    }
    &&& forall|y: NearestNeighbour|
        xs.count(y) > r.to_multiset().count(y) ==> r.len() == n && (n > 0 ==> nn_le(
            #[trigger] r[n - 1],
            y,
        ))
}

/// Every record of a subtree whose points are all at least `bound` away
/// has distance at least `bound`.
proof fn lemma_found_far_bound<M: Metric>(
    met: M,
    q: Seq<i64>,
    m: TreeModel,
    node: int,
    bound: int,
)
    requires
        wf_model(m),
        q.len() == m.k,
        point_in_range(q),
        forall|j: int, s: int|
            0 <= j < m.leaves.len() && is_ancestor(node, m.stems.len() + j) && 0 <= s
                < m.leaves[j].points.len() ==> dist_full(
                met,
                q,
                #[trigger] m.leaves[j].points[s],
            ) >= bound,
    ensures
        forall|y: NearestNeighbour|
            found(met, q, i64::MAX, m, node).count(y) > 0 ==> (#[trigger] y.distance) as int
                >= bound,
{
    lemma_found_far_bound_upto(met, q, m, node, bound, m.leaves.len() as int);
}

proof fn lemma_found_far_bound_upto<M: Metric>(
    met: M,
    q: Seq<i64>,
    m: TreeModel,
    node: int,
    bound: int,
    j: int,
)
    requires
        wf_model(m),
        q.len() == m.k,
        point_in_range(q),
        0 <= j <= m.leaves.len(),
        forall|jj: int, s: int|
            0 <= jj < m.leaves.len() && is_ancestor(node, m.stems.len() + jj) && 0 <= s
                < m.leaves[jj].points.len() ==> dist_full(
                met,
                q,
                #[trigger] m.leaves[jj].points[s],
            ) >= bound,
    ensures
        forall|y: NearestNeighbour|
            found_upto(met, q, i64::MAX, m, node, j).count(y) > 0 ==> (#[trigger] y.distance)
                as int >= bound,
    decreases j,
{
    broadcast use vstd::seq_lib::group_to_multiset_ensures;
    broadcast use vstd::multiset::group_multiset_axioms;

    if j > 0 {
        lemma_found_far_bound_upto(met, q, m, node, bound, j - 1);
        if is_ancestor(node, m.stems.len() + j - 1) {
            let es = m.leaves[j - 1].entries();
            let pred = |e: (Seq<i64>, u64)| dist_full(met, q, e.0) < i64::MAX as int;
            let f = |e: (Seq<i64>, u64)| record_of(met, q, e);
            let ms = matches_of(met, q, i64::MAX, es);
            assert(m.leaves[j - 1].wf(m.k, m.cap));
            assert forall|y: NearestNeighbour| ms.to_multiset().count(y) > 0 implies (
            #[trigger] y.distance) as int >= bound by {
                assert(ms.contains(y));
                let i = choose|i: int| 0 <= i < ms.len() && ms[i] == y;
                let fe = es.filter(pred)[i];
                assert(y == record_of(met, q, fe));
                assert(es.filter(pred).contains(fe));
                es.lemma_filter_contains_rev(pred, fe);
                let w = choose|w: int| 0 <= w < es.len() && es[w] == fe;
                assert(fe.0 == m.leaves[j - 1].points[w]);
                assert(dist_full(met, q, fe.0) >= bound);
                lemma_dist_sum_bounds(met, q, fe.0, m.k);
                assert(m.k * (AXIS_COST_LIMIT as int) <= 32768 * (AXIS_COST_LIMIT as int))
                    by (nonlinear_arith)
                    requires 0 <= m.k <= 32768,
                ;
            }
        }
    }
}

/// Keeps `best` the sorted `n` smallest of everything seen: merges one
/// record in, dropping the largest when the bound would be exceeded.
fn insert_bounded(
    best: &mut Vec<NearestNeighbour>,
    e: NearestNeighbour,
    n: usize,
    Ghost(p): Ghost<Multiset<NearestNeighbour>>,
)
    requires
        top_selection(n as int, p, old(best)@),
    ensures
        top_selection(n as int, p.insert(e), final(best)@),
{
    broadcast use vstd::seq_lib::group_to_multiset_ensures;
    broadcast use vstd::seq_lib::to_multiset_update;
    broadcast use vstd::multiset::group_multiset_axioms;

    let ghost r0 = best@;
    if n == 0 {
        return;
    }
    let len: usize = best.len();
    if len >= n {
        let worst = best[n - 1];
        if !nn_gt(worst, e) {
            // The newcomer is no smaller than the worst kept record: it is
            // left out, which the selection relation permits.
            proof {
                assert(nn_le(r0[n as int - 1], e));
            }
            return;
        }
    }
    // Place the newcomer by adjacent swaps, as in the result sort.
    let ghost before = best@;
    proof {
        assert forall|x: int, y: int| 0 <= x < y < before.len() implies nn_le(
            before[x],
            before[y],
        ) by {
            assert(nn_leq()(before[x], before[y]));
        }
    }
    best.push(e);
    let i: usize = best.len() - 1;
    let mut jj: usize = i;
    while jj > 0
        invariant
            best@.len() == i + 1,
            0 <= jj <= i,
            best@.to_multiset() == before.push(e).to_multiset(),
            forall|x: int, y: int|
                0 <= x < y <= i as int && x != jj as int && y != jj as int ==> nn_le(
                    best@[x],
                    best@[y],
                ),
            forall|y: int| (jj as int) < y <= (i as int) ==> nn_le(best@[jj as int], best@[y]),
        ensures
            best@.len() == i + 1,
            0 <= jj <= i,
            best@.to_multiset() == before.push(e).to_multiset(),
            forall|x: int, y: int|
                0 <= x < y <= i as int && x != jj as int && y != jj as int ==> nn_le(
                    best@[x],
                    best@[y],
                ),
            forall|y: int| (jj as int) < y <= (i as int) ==> nn_le(best@[jj as int], best@[y]),
            jj == 0 || nn_le(best@[jj as int - 1], best@[jj as int]),
        decreases jj,
    {
        broadcast use vstd::seq_lib::to_multiset_update;
        broadcast use vstd::seq_lib::group_to_multiset_ensures;
        broadcast use vstd::multiset::group_multiset_axioms;

        let prev = best[jj - 1];
        let cur = best[jj];
        if nn_gt(prev, cur) {
            let ghost snap = best@;
            best[jj - 1] = cur;
            best[jj] = prev;
            proof {
                assert(best@ =~= snap.update(jj as int - 1, cur).update(jj as int, prev));
                assert(best@.to_multiset() =~= snap.to_multiset());
            }
            jj = jj - 1;
        } else {
            break;
        }
    }
    proof {
        assert forall|x: int, y: int| 0 <= x < y <= i as int implies nn_le(best@[x], best@[y]) by {
            if y == jj as int && jj > 0 {
                if x < jj as int - 1 {
                    assert(nn_le(best@[x], best@[jj as int - 1]));
                    assert(nn_le(best@[jj as int - 1], best@[jj as int]));
                }
            }
        }
        assert(vstd::relations::sorted_by(best@, nn_leq()));
        assert(best@.to_multiset() =~= r0.to_multiset().insert(e));
    }
    if best.len() > n {
        // Over the bound: the last record is the largest of the merged
        // set; dropping it restores the selection relation.
        let ghost full = best@;
        proof {
            // The last element equals the former worst kept record.
            assert(full.to_multiset().count(r0[n as int - 1]) > 0);
            assert(full.contains(r0[n as int - 1]));
            let wi = choose|wi: int| 0 <= wi < full.len() && full[wi] == r0[n as int - 1];
            assert(nn_le(full[wi], full[n as int]));
            assert forall|z: int| 0 <= z < full.len() implies nn_le(full[z], r0[n as int - 1]) by {
                assert(full.to_multiset().count(full[z]) > 0);
                if full[z] == e {
                    assert(nn_le(e, r0[n as int - 1]));
                } else {
                    assert(r0.to_multiset().count(full[z]) > 0);
                    assert(r0.contains(full[z]));
                    let zi = choose|zi: int| 0 <= zi < r0.len() && r0[zi] == full[z];
                    if zi < n as int - 1 {
                        assert(nn_leq()(r0[zi], r0[n as int - 1]));
                    }
                    assert(nn_le(r0[zi], r0[n as int - 1]));
                }
            }
            assert(full[n as int] == r0[n as int - 1]);
        }
        best.truncate(n);
        proof {
            assert(full =~= full.take(n as int) + full.skip(n as int));
            vstd::seq_lib::lemma_multiset_commutative(full.take(n as int), full.skip(n as int));
            assert(full.skip(n as int) =~= Seq::<NearestNeighbour>::empty().push(full[n as int]));
            assert(full.skip(n as int).to_multiset() =~= Multiset::<
                NearestNeighbour,
            >::empty().insert(full[n as int]));
            assert(best@.to_multiset() =~= full.to_multiset().remove(full[n as int]));
        }
    }
}

/// A sorted selection of the `n` smallest is unique: any two selections
/// from the same records are equal, element for element.
proof fn lemma_top_selection_unique(
    n: int,
    xs: Multiset<NearestNeighbour>,
    r1: Seq<NearestNeighbour>,
    r2: Seq<NearestNeighbour>,
)
    requires
        n >= 0,
        top_selection(n, xs, r1),
        top_selection(n, xs, r2),
    ensures
        r1 == r2,
    decreases r1.len(),
{
    broadcast use vstd::seq_lib::group_to_multiset_ensures;
    broadcast use vstd::multiset::group_multiset_axioms;

    if r1.len() == 0 {
        assert(r1 =~= r2);
    } else {
        assert forall|y: NearestNeighbour| xs.count(y) > 0 implies nn_le(r1[0], y) by {
            lemma_head_least(n, xs, r1, y);
        }
        assert forall|y: NearestNeighbour| xs.count(y) > 0 implies nn_le(r2[0], y) by {
            lemma_head_least(n, xs, r2, y);
        }
        assert(r1.to_multiset().count(r1[0]) > 0);
        assert(xs.count(r1[0]) > 0);
        assert(r2.to_multiset().count(r2[0]) > 0);
        assert(xs.count(r2[0]) > 0);
        assert(nn_le(r1[0], r2[0]) && nn_le(r2[0], r1[0]));
        assert(r1[0] == r2[0]);
        let head = r1[0];
        let xs2 = xs.remove(head);
        lemma_tail_selection(n, xs, r1);
        lemma_tail_selection(n, xs, r2);
        lemma_top_selection_unique(n - 1, xs2, r1.drop_first(), r2.drop_first());
        assert(r1.drop_first() == r2.drop_first());
        assert forall|i: int| 0 <= i < r1.len() implies r1[i] == r2[i] by {
            if i > 0 {
                assert(r1[i] == r1.drop_first()[i - 1]);
                assert(r2[i] == r2.drop_first()[i - 1]);
            }
        }
        assert(r1 =~= r2);
    }
}

/// The head of a selection is no larger than any record present.
proof fn lemma_head_least(
    n: int,
    xs: Multiset<NearestNeighbour>,
    r: Seq<NearestNeighbour>,
    y: NearestNeighbour,
)
    requires
        top_selection(n, xs, r),
        r.len() > 0,
        xs.count(y) > 0,
    ensures
        nn_le(r[0], y),
{
    broadcast use vstd::seq_lib::group_to_multiset_ensures;
    broadcast use vstd::multiset::group_multiset_axioms;

    if xs.count(y) > r.to_multiset().count(y) {
        assert(r.len() == n && n > 0 && nn_le(r[n - 1], y));
        if n - 1 > 0 {
            assert(nn_leq()(r[0], r[n - 1]));
        }
    } else {
        assert(r.to_multiset().count(y) > 0);
        assert(r.contains(y));
        let i = choose|i: int| 0 <= i < r.len() && r[i] == y;
        if i > 0 {
            assert(nn_leq()(r[0], r[i]));
        }
    }
}

/// Dropping a selection's head leaves a selection of one fewer from the
/// records without one copy of it.
proof fn lemma_tail_selection(n: int, xs: Multiset<NearestNeighbour>, r: Seq<NearestNeighbour>)
    requires
        top_selection(n, xs, r),
        r.len() > 0,
    ensures
        top_selection(n - 1, xs.remove(r[0]), r.drop_first()),
        r.drop_first().len() > 0 ==> r.drop_first()[r.drop_first().len() - 1] == r[r.len() - 1],
    decreases 0int,
{
    broadcast use vstd::seq_lib::group_to_multiset_ensures;
    broadcast use vstd::multiset::group_multiset_axioms;

    let t = r.drop_first();
    let xs2 = xs.remove(r[0]);
    assert(r.remove(0) =~= t);
    assert(t.to_multiset() =~= r.to_multiset().remove(r[0]));
    assert forall|x: int, y: int| 0 <= x < y < t.len() implies #[trigger] nn_leq()(t[x], t[y]) by {
        assert(nn_leq()(r[x + 1], r[y + 1]));
    }
    assert(r.to_multiset().count(r[0]) > 0);
    assert(xs.count(r[0]) > 0);
    assert forall|y: NearestNeighbour|
        xs2.count(y) > t.to_multiset().count(y) implies t.len() == n - 1 && (n - 1 > 0 ==> nn_le(
        #[trigger] t[n - 2],
        y,
    )) by {
        assert(xs.count(y) > r.to_multiset().count(y));
        assert(r.len() == n);
        if n - 1 > 0 {
            assert(t[n - 2] == r[n - 1]);
        }
    }
}

/// The sorted prefix of the full enumeration is a selection of the `n`
/// smallest.
proof fn lemma_canonical_top_selection(full: Seq<NearestNeighbour>, n: int)
    requires
        n >= 0,
    ensures
        top_selection(
            n,
            full.to_multiset(),
            full.sort_by(nn_leq()).take(
                if n <= full.len() {
                    n
                } else {
                    full.len() as int
                },
            ),
        ),
{
    broadcast use vstd::seq_lib::group_to_multiset_ensures;
    broadcast use vstd::multiset::group_multiset_axioms;

    lemma_nn_total();
    full.lemma_sort_by_ensures(nn_leq());
    let srt = full.sort_by(nn_leq());
    assert(full.to_multiset().len() == full.len());
    assert(srt.to_multiset().len() == srt.len());
    assert(srt.len() == full.len());
    let k: int = if n <= full.len() {
        n
    } else {
        full.len() as int
    };
    let r = srt.take(k);
    assert forall|x: int, y: int| 0 <= x < y < r.len() implies #[trigger] nn_leq()(r[x], r[y]) by {
        assert(nn_leq()(srt[x], srt[y]));
    }
    assert(srt =~= srt.take(k) + srt.skip(k));
    vstd::seq_lib::lemma_multiset_commutative(srt.take(k), srt.skip(k));
    assert(full.to_multiset() =~= r.to_multiset().add(srt.skip(k).to_multiset()));
    assert forall|y: NearestNeighbour|
        full.to_multiset().count(y) > r.to_multiset().count(y) implies r.len() == n && (n > 0
        ==> nn_le(#[trigger] r[n - 1], y)) by {
        assert(srt.skip(k).to_multiset().count(y) > 0);
        assert(srt.skip(k).contains(y));
        let i = choose|i: int| 0 <= i < srt.skip(k).len() && srt.skip(k)[i] == y;
        assert(y == srt[k + i]);
        assert(k < srt.len());
        assert(k == n);
        if n > 0 {
            assert(nn_leq()(srt[n - 1], srt[k + i]));
        }
    }
}

/// One step of the bounded branch-and-bound traversal: merges every record
/// of the subtree of `idx` into `best`, keeping the sorted `n` smallest,
/// and prunes any subtree whose lower bound exceeds the worst kept record
/// once `best` is full.
fn nearest_rec<S: Store, M: Metric>(
    s: &S,
    met: &M,
    q: &Vec<i64>,
    n: usize,
    idx: usize,
    dim: usize,
    lo: &Vec<i64>,
    bound: i64,
    best: &mut Vec<NearestNeighbour>,
    Ghost(p): Ghost<Multiset<NearestNeighbour>>,
)
    requires
        s.store_inv(),
        q@.len() == s.store_model().k,
        point_in_range(q@),
        1 <= idx < 2 * s.store_model().stems.len(),
        dim < s.store_model().k,
        lo@.len() == s.store_model().k,
        forall|d: int|
            0 <= d < lo@.len() ==> 0 <= (#[trigger] lo@[d]) as int <= AXIS_COST_LIMIT as int,
        bound as int == lo_sum(lo@, lo@.len() as int),
        routed_under(s.store_model(), idx as int, dim as int),
        lower_ok(*met, q@, lo@, s.store_model(), idx as int),
        top_selection(n as int, p, old(best)@),
    ensures
        top_selection(
            n as int,
            p.add(found(*met, q@, i64::MAX, s.store_model(), idx as int)),
            final(best)@,
        ),
    decreases 2 * s.store_model().stems.len() - idx,
{
    broadcast use vstd::seq_lib::group_to_multiset_ensures;
    broadcast use vstd::multiset::group_multiset_axioms;

    let ghost m = s.store_model();
    proof {
        s.lemma_store_wf();
    }
    let ln: usize = s.stem_count();
    if idx >= ln {
        let j: usize = idx - ln;
        let nsl: usize = s.leaf_len(j);
        proof {
            lemma_found_leaf(*met, q@, i64::MAX, m, idx as int);
        }
        let ghost es = m.leaves[j as int].entries();
        let mut ss: usize = 0;
        proof {
            assert(es.take(0) =~= Seq::<(Seq<i64>, u64)>::empty());
            assert(matches_of(*met, q@, i64::MAX, es.take(0)) =~= Seq::<NearestNeighbour>::empty());
            assert(p.add(matches_of(*met, q@, i64::MAX, es.take(0)).to_multiset()) =~= p);
        }
        while ss < nsl
            invariant
                s.store_inv(),
                m == s.store_model(),
                wf_model(m),
                q@.len() == m.k,
                point_in_range(q@),
                m.stems.len() <= idx < 2 * m.stems.len(),
                j == idx - m.stems.len(),
                es == m.leaves[j as int].entries(),
                nsl as int == m.leaves[j as int].points.len(),
                0 <= ss <= nsl,
                top_selection(
                    n as int,
                    p.add(matches_of(*met, q@, i64::MAX, es.take(ss as int)).to_multiset()),
                    best@,
                ),
            decreases nsl - ss,
        {
            broadcast use vstd::seq_lib::group_to_multiset_ensures;
            broadcast use vstd::multiset::group_multiset_axioms;

            proof {
                assert(m.leaves[j as int].wf(m.k, m.cap));
            }
            let pt: Vec<i64> = s.leaf_point(j, ss);
            let dst: i64 = dist_of(met, q, &pt);
            let it: u64 = s.leaf_item(j, ss);
            let ghost e = es[ss as int];
            let ghost cur = p.add(matches_of(*met, q@, i64::MAX, es.take(ss as int)).to_multiset());
            proof {
                assert(e.0 == pt@ && e.1 == it);
                lemma_dist_sum_bounds(*met, q@, pt@, m.k);
                assert(m.k * (AXIS_COST_LIMIT as int) <= 32768 * (AXIS_COST_LIMIT as int))
                    by (nonlinear_arith)
                    requires 0 <= m.k <= 32768,
                ;
                assert(dist_full(*met, q@, e.0) < i64::MAX as int);
                assert(es.take(ss as int + 1) =~= es.take(ss as int).push(e));
                lemma_matches_push(*met, q@, i64::MAX, es.take(ss as int), e);
                assert(NearestNeighbour { distance: dst, item: it } == record_of(*met, q@, e));
            }
            insert_bounded(best, NearestNeighbour { distance: dst, item: it }, n, Ghost(cur));
            proof {
                assert(cur.insert(record_of(*met, q@, e)) =~= p.add(
                    matches_of(*met, q@, i64::MAX, es.take(ss as int + 1)).to_multiset(),
                ));
            }
            ss = ss + 1;
        }
        proof {
            assert(es.take(nsl as int) =~= es);
        }
    } else {
        let split: i64 = s.stem(idx);
        let qd: i64 = q[dim];
        let kdims: usize = s.dim_count();
        let ndim: usize = if dim + 1 == kdims {
            0
        } else {
            dim + 1
        };
        let right_is_near: bool = qd >= split;
        let near: usize = 2 * idx + (if right_is_near {
            1
        } else {
            0
        });
        let far: usize = 2 * idx + (if right_is_near {
            0
        } else {
            1
        });
        proof {
            lemma_found_split(*met, q@, i64::MAX, m, idx as int);
            lemma_child_hypotheses(m, idx as int, dim as int, near as int);
            lemma_child_hypotheses(m, idx as int, dim as int, far as int);
            assert forall|j: int, sx: int, d: int|
                0 <= j < m.leaves.len() && is_ancestor(near as int, m.stems.len() + j) && 0 <= sx
                    < m.leaves[j].points.len() && 0 <= d < m.k implies (lo@[d] as int)
                <= #[trigger] (*met).axis_cost(q@[d], m.leaves[j].points[sx][d]) by {
                lemma_ancestor_extend(idx as int, near as int, m.stems.len() + j);
            }
        }
        nearest_rec(s, met, q, n, near, ndim, lo, bound, best, Ghost(p));
        let ghost p1 = p.add(found(*met, q@, i64::MAX, m, near as int));
        let g: i64 = met.axis_dist(qd, split);
        let lod: i64 = lo[dim];
        let nl: i64 = if g > lod {
            g
        } else {
            lod
        };
        proof {
            met.lemma_axis_cost_bounds(qd, split);
            lemma_lo_sum_bounds(lo@, lo@.len() as int);
            assert(m.k * (AXIS_COST_LIMIT as int) <= 32768 * (AXIS_COST_LIMIT as int))
                by (nonlinear_arith)
                requires 0 <= m.k <= 32768,
            ;
            lemma_lo_sum_update(lo@, dim as int, nl, lo@.len() as int);
        }
        let nb: i64 = bound - lod + nl;
        let ghost lo2s = lo@.update(dim as int, nl);
        proof {
            assert forall|j: int, sx: int, d: int|
                0 <= j < m.leaves.len() && is_ancestor(far as int, m.stems.len() + j) && 0 <= sx
                    < m.leaves[j].points.len() && 0 <= d < m.k implies (lo2s[d] as int)
                <= #[trigger] (*met).axis_cost(q@[d], m.leaves[j].points[sx][d]) by {
                let pp = m.leaves[j].points[sx];
                lemma_ancestor_extend(idx as int, far as int, m.stems.len() + j);
                if d == dim as int {
                    lemma_route_step(m.stems, m.k, pp, idx as int, dim as int, far as int);
                    met.lemma_axis_cost_between(qd, split, pp[d]);
                }
            }
        }
        let full_now: bool = best.len() >= n;
        let skip_far: bool = full_now && (n == 0 || nb > best[n - 1].distance);
        if skip_far {
            proof {
                assert forall|j: int, sx: int|
                    0 <= j < m.leaves.len() && is_ancestor(far as int, m.stems.len() + j) && 0 <= sx
                        < m.leaves[j].points.len() implies dist_full(
                    *met,
                    q@,
                    #[trigger] m.leaves[j].points[sx],
                ) >= nb as int by {
                    let pp = m.leaves[j].points[sx];
                    assert(m.leaves[j].wf(m.k, m.cap));
                    lemma_dist_sum_lower(*met, q@, pp, lo2s, m.k);
                }
                lemma_found_far_bound(*met, q@, m, far as int, nb as int);
                let ff = found(*met, q@, i64::MAX, m, far as int);
                assert forall|y: NearestNeighbour|
                    p1.add(ff).count(y) > best@.to_multiset().count(y) implies best@.len()
                    == n as int && (n as int > 0 ==> nn_le(#[trigger] best@[n as int - 1], y)) by {
                    if p1.count(y) > best@.to_multiset().count(y) {
                    } else {
                        assert(ff.count(y) > 0);
                        assert(y.distance as int >= nb as int);
                    }
                }
                assert(top_selection(n as int, p1.add(ff), best@));
            }
        } else {
            let mut lo2: Vec<i64> = clone_point(lo);
            lo2[dim] = nl;
            proof {
                assert(lo2@ =~= lo2s);
            }
            nearest_rec(s, met, q, n, far, ndim, &lo2, nb, best, Ghost(p1));
        }
        proof {
            assert(p1.add(found(*met, q@, i64::MAX, m, far as int)) =~= p.add(
                found(*met, q@, i64::MAX, m, idx as int),
            ));
        }
    }
}

} // verus!
