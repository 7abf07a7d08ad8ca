//! The library's laws: completeness of construction, agreement of the
//! pruned queries with a brute-force scan, result ordering, bounded-search
//! correctness, deterministic construction, archival round trips, and the
//! single-leaf boundary, each proved once over the models that the
//! executable functions' contracts are stated in.

use vstd::prelude::*;

use vstd::relations::sorted_by;
use vstd::multiset::Multiset;

use crate::builder::{batch_wf, build_model, empty_layout, fill_spec, insert_all, leaves_for};
use crate::engine::{matches_of, nearest_model, record_of, within_model};
use crate::limits::{point_in_range, AXIS_COST_LIMIT};
use crate::metric::{dist_full, lemma_dist_sum_bounds, Metric};
use crate::model::{
    add_model, all_entries, lemma_entries_upto_add, lemma_entries_upto_empty, lemma_entries_wf,
    lemma_route_range, route, wf_model, TreeModel,
};
use crate::nearest_neighbour::{lemma_nn_total, nn_leq};

verus! {

/// Radius queries agree with a brute-force linear scan: the result holds
/// exactly the stored entries whose metric distance is below the radius,
/// as a multiset, no matter how the traversal pruned.
pub proof fn law_within_matches_brute_force<M: Metric>(
    met: M,
    q: Seq<i64>,
    radius: i64,
    m: TreeModel,
)
    ensures
        within_model(met, q, radius, m).to_multiset() == all_entries(m).filter(
            |e: (Seq<i64>, u64)| dist_full(met, q, e.0) < radius as int,
        ).map_values(|e: (Seq<i64>, u64)| record_of(met, q, e)).to_multiset(),
{
    lemma_nn_total();
    matches_of(met, q, radius, all_entries(m)).lemma_sort_by_ensures(nn_leq());
}

/// Radius query results are sorted ascending by distance, ties broken by
/// ascending item.
pub proof fn law_within_sorted<M: Metric>(met: M, q: Seq<i64>, radius: i64, m: TreeModel)
    ensures
        sorted_by(within_model(met, q, radius, m), nn_leq()),
{
    lemma_nn_total();
    matches_of(met, q, radius, all_entries(m)).lemma_sort_by_ensures(nn_leq());
}

/// A radius wide enough to admit every stored entry returns them all:
/// the result enumerates exactly the tree's contents.
pub proof fn law_within_complete<M: Metric>(met: M, q: Seq<i64>, m: TreeModel)
    requires
        wf_model(m),
        q.len() == m.k,
        point_in_range(q),
    ensures
        within_model(met, q, i64::MAX, m).to_multiset() == all_entries(m).map_values(
            |e: (Seq<i64>, u64)| record_of(met, q, e),
        ).to_multiset(),
        within_model(met, q, i64::MAX, m).len() == all_entries(m).len(),
        within_model(met, q, i64::MAX, m).len() == m.size,
{
    broadcast use vstd::seq_lib::group_to_multiset_ensures;
    broadcast use vstd::multiset::group_multiset_axioms;

    let es = all_entries(m);
    let pred = |e: (Seq<i64>, u64)| dist_full(met, q, e.0) < i64::MAX as int;
    lemma_entries_wf(m, m.leaves.len() as int);
    assert forall|i: int| 0 <= i < es.len() implies pred(#[trigger] es[i]) by {
        lemma_dist_sum_bounds(met, q, es[i].0, m.k);
        assert(m.k * (AXIS_COST_LIMIT as int) <= 32768 * (AXIS_COST_LIMIT as int))
            by (nonlinear_arith)
            requires 0 <= m.k <= 32768,
        ;
    }
    crate::engine::lemma_filter_keeps_all(es, pred);
    lemma_nn_total();
    matches_of(met, q, i64::MAX, es).lemma_sort_by_ensures(nn_leq());
    assert(matches_of(met, q, i64::MAX, es) == es.map_values(
        |e: (Seq<i64>, u64)| record_of(met, q, e),
    ));
    assert(within_model(met, q, i64::MAX, m).to_multiset().len() == within_model(
        met,
        q,
        i64::MAX,
        m,
    ).len());
    assert(matches_of(met, q, i64::MAX, es).to_multiset().len() == matches_of(
        met,
        q,
        i64::MAX,
        es,
    ).len());
}

/// Bounded search is the prefix of the full sorted enumeration: its
/// results are sorted, number `min(n, size)`, and are exactly the first
/// `n` of all stored entries sorted by distance (ties by item).
pub proof fn law_nearest_n_prefix<M: Metric>(met: M, q: Seq<i64>, n: int, m: TreeModel)
    requires
        n >= 0,
    ensures
        sorted_by(nearest_model(met, q, n, m), nn_leq()),
        nearest_model(met, q, n, m).len() == if n <= all_entries(m).len() {
            n
        } else {
            all_entries(m).len() as int
        },
        nearest_model(met, q, n, m) == all_entries(m).map_values(
            |e: (Seq<i64>, u64)| record_of(met, q, e),
        ).sort_by(nn_leq()).take(nearest_model(met, q, n, m).len() as int),
{
    broadcast use vstd::seq_lib::group_to_multiset_ensures;
    broadcast use vstd::multiset::group_multiset_axioms;

    let full = all_entries(m).map_values(|e: (Seq<i64>, u64)| record_of(met, q, e)).sort_by(
        nn_leq(),
    );
    lemma_nn_total();
    all_entries(m).map_values(|e: (Seq<i64>, u64)| record_of(met, q, e)).lemma_sort_by_ensures(
        nn_leq(),
    );
    assert(all_entries(m).map_values(
        |e: (Seq<i64>, u64)| record_of(met, q, e),
    ).to_multiset().len() == full.to_multiset().len());
    let r = nearest_model(met, q, n, m);
    assert forall|x: int, y: int| 0 <= x < y < r.len() implies #[trigger] nn_leq()(r[x], r[y]) by {
        assert(nn_leq()(full[x], full[y]));
    }
}

/// Placing one point through routing preserves well-formedness and adds
/// exactly that entry to the tree's contents.
pub proof fn lemma_add_model_wf(m: TreeModel, p: Seq<i64>, it: u64)
    requires
        wf_model(m),
        p.len() == m.k,
        point_in_range(p),
        m.leaves[route(m.stems, m.k, p, 1, 0) - m.stems.len()].points.len() < m.cap,
    ensures
        wf_model(add_model(m, p, it)),
        all_entries(add_model(m, p, it)).to_multiset() == all_entries(m).to_multiset().insert(
            (p, it),
        ),
        all_entries(add_model(m, p, it)).len() == all_entries(m).len() + 1,
{
    lemma_route_range(m.stems, m.k, p, 1, 0);
    let jj = route(m.stems, m.k, p, 1, 0) - m.stems.len();
    let m2 = add_model(m, p, it);
    assert(m2.leaves[jj].entries() =~= m.leaves[jj].entries().push((p, it)));
    assert forall|x: int| 0 <= x < m.leaves.len() && x != jj implies m2.leaves[x] == (
    #[trigger] m.leaves[x]) by {
    }
    lemma_entries_upto_add(m, m2, jj, (p, it), m.leaves.len() as int);
    assert(wf_model(m2));
}

/// Successful placement of a whole batch tail accumulates exactly its
/// entries.
pub proof fn lemma_insert_all_entries(m: TreeModel, b: Seq<(Seq<i64>, u64)>, i: int)
    requires
        wf_model(m),
        batch_wf(b, m.k),
        0 <= i <= b.len(),
        insert_all(m, b, i) is Some,
    ensures
        wf_model(insert_all(m, b, i)->Some_0),
        all_entries(insert_all(m, b, i)->Some_0).to_multiset() == all_entries(m).to_multiset().add(
            b.skip(i).to_multiset(),
        ),
    decreases b.len() - i,
{
    broadcast use vstd::seq_lib::group_to_multiset_ensures;
    broadcast use vstd::multiset::group_multiset_axioms;
    broadcast use vstd::seq_lib::lemma_multiset_commutative;

    if i >= b.len() {
        assert(b.skip(i) =~= Seq::<(Seq<i64>, u64)>::empty());
        assert(all_entries(m).to_multiset().add(b.skip(i).to_multiset()) =~= all_entries(
            m,
        ).to_multiset());
    } else {
        let e = b[i];
        lemma_add_model_wf(m, e.0, e.1);
        lemma_insert_all_entries(add_model(m, e.0, e.1), b, i + 1);
        assert(b.skip(i) =~= seq![e] + b.skip(i + 1));
        assert(seq![e] =~= Seq::<(Seq<i64>, u64)>::empty().push(e));
        assert(seq![e].to_multiset() =~= Multiset::<(Seq<i64>, u64)>::empty().insert(e));
        assert(b.skip(i).to_multiset() =~= b.skip(i + 1).to_multiset().insert(e));
        assert(all_entries(add_model(m, e.0, e.1)).to_multiset().add(b.skip(i + 1).to_multiset())
            =~= all_entries(m).to_multiset().add(b.skip(i).to_multiset()));
    }
}

/// Bulk construction loses nothing and invents nothing: a successfully
/// built tree holds exactly the batch's (point, item) pairs, and its size
/// is the batch's length.
pub proof fn law_build_contents(k: int, cap: int, maxc: int, b: Seq<(Seq<i64>, u64)>, t: TreeModel)
    requires
        batch_wf(b, k),
        1 <= k <= crate::limits::DIMS_LIMIT as int,
        1 <= cap <= crate::limits::BUCKET_LIMIT as int,
        b.len() <= cap * 32768,
        build_model(k, cap, maxc, b) == Result::<TreeModel, crate::tree::KdError>::Ok(t),
    ensures
        all_entries(t).to_multiset() == b.to_multiset(),
        t.size == b.len(),
        t.stems.len() == leaves_for(b.len() as int, cap),
        t.leaves.len() == leaves_for(b.len() as int, cap),
{
    broadcast use vstd::seq_lib::group_to_multiset_ensures;
    broadcast use vstd::multiset::group_multiset_axioms;

    let ln = leaves_for(b.len() as int, cap);
    let st = fill_spec(empty_layout(k, cap, ln).stems, b, 1, 0, k, ln);
    let t0 = TreeModel { stems: st, ..empty_layout(k, cap, ln) };
    assert(insert_all(t0, b, 0) == Option::Some(t));
    lemma_insert_all_t0_wf(k, cap, ln, b);
    crate::laws::lemma_fill_spec_range(empty_layout(k, cap, ln).stems, b, 1, 0, k, ln);
    lemma_insert_all_stems(t0, b, 0);
    assert(t.stems == t0.stems);
    crate::builder::lemma_grow_pow2_bound(1, (b.len() + cap - 1) / cap);
    assert(ln >= 1);
    assert(empty_layout(k, cap, ln).stems.len() == ln);
    assert(t0.stems.len() == ln);
    assert(t.leaves.len() == t0.leaves.len());
    assert(t0.leaves.len() == ln);
    lemma_insert_all_entries(t0, b, 0);
    lemma_entries_upto_empty(t0, t0.leaves.len() as int);
    assert(all_entries(t0).to_multiset() =~= Multiset::<(Seq<i64>, u64)>::empty());
    assert(b.skip(0) =~= b);
    assert(all_entries(t0).to_multiset().add(b.to_multiset()) =~= b.to_multiset());
    assert(all_entries(t).to_multiset().len() == all_entries(t).len());
    assert(b.to_multiset().len() == b.len());
}

/// Stem filling preserves the array's length and keeps every value in
/// coordinate range, as long as the batch's coordinates are in range.
pub proof fn lemma_fill_spec_range(
    st: Seq<i64>,
    b: Seq<(Seq<i64>, u64)>,
    idx: int,
    dim: int,
    k: int,
    h: int,
)
    requires
        forall|i: int| 0 <= i < st.len() ==> crate::limits::in_coord_range(#[trigger] st[i]),
        batch_wf(b, k),
        0 <= dim < k,
        1 <= idx,
    ensures
        fill_spec(st, b, idx, dim, k, h).len() == st.len(),
        forall|i: int|
            0 <= i < st.len() ==> crate::limits::in_coord_range(
                #[trigger] fill_spec(st, b, idx, dim, k, h)[i],
            ),
    decreases h,
{
    broadcast use vstd::seq_lib::group_to_multiset_ensures;
    broadcast use vstd::multiset::group_multiset_axioms;

    if idx >= st.len() || h <= 0 {
    } else {
        let s = crate::builder::split_value(b, dim);
        assert(crate::limits::in_coord_range(s)) by {
            if b.len() > 0 {
                let cs = b.map_values(|e: (Seq<i64>, u64)| e.0[dim]);
                crate::builder::lemma_coord_total();
                cs.lemma_sort_by_ensures(crate::builder::coord_leq());
                let sorted = cs.sort_by(crate::builder::coord_leq());
                assert(sorted.to_multiset().len() == sorted.len());
                assert(cs.to_multiset().len() == cs.len());
                assert(sorted.contains(sorted[b.len() as int / 2]));
                assert(cs.to_multiset().contains(sorted[b.len() as int / 2]));
                assert(cs.contains(sorted[b.len() as int / 2]));
                let w = choose|w: int| 0 <= w < cs.len() && cs[w] == sorted[b.len() as int / 2];
                assert(point_in_range(b[w].0));
                assert(crate::limits::in_coord_range(b[w].0[dim]));
            }
        }
        let st1 = st.update(idx, s);
        let lf = b.filter(|e: (Seq<i64>, u64)| e.0[dim] < s);
        let rt = b.filter(|e: (Seq<i64>, u64)| e.0[dim] >= s);
        assert forall|x: int|
            0 <= x < lf.len() implies (#[trigger] lf[x]).0.len() == k && point_in_range(lf[x].0) by {
            let fe = lf[x];
            assert(b.filter(|e: (Seq<i64>, u64)| e.0[dim] < s).contains(fe));
            b.lemma_filter_contains_rev(|e: (Seq<i64>, u64)| e.0[dim] < s, fe);
            let w = choose|w: int| 0 <= w < b.len() && b[w] == fe;
            assert(b[w].0.len() == k);
        }
        assert forall|x: int|
            0 <= x < rt.len() implies (#[trigger] rt[x]).0.len() == k && point_in_range(rt[x].0) by {
            let fe = rt[x];
            assert(b.filter(|e: (Seq<i64>, u64)| e.0[dim] >= s).contains(fe));
            b.lemma_filter_contains_rev(|e: (Seq<i64>, u64)| e.0[dim] >= s, fe);
            let w = choose|w: int| 0 <= w < b.len() && b[w] == fe;
            assert(b[w].0.len() == k);
        }
        assert forall|i: int|
            0 <= i < st1.len() implies crate::limits::in_coord_range(#[trigger] st1[i]) by {
            if i != idx {
                assert(st1[i] == st[i]);
            }
        }
        let nd = crate::model::next_dim(dim, k);
        lemma_fill_spec_range(st1, lf, 2 * idx, nd, k, h - 1);
        let st2 = fill_spec(st1, lf, 2 * idx, nd, k, h - 1);
        lemma_fill_spec_range(st2, rt, 2 * idx + 1, nd, k, h - 1);
    }
}

/// The freshly filled layout is a well-formed empty tree.
proof fn lemma_insert_all_t0_wf(k: int, cap: int, ln: int, b: Seq<(Seq<i64>, u64)>)
    requires
        1 <= k,
        1 <= cap,
        batch_wf(b, k),
        ln == leaves_for(b.len() as int, cap),
        k <= crate::limits::DIMS_LIMIT as int,
        cap <= crate::limits::BUCKET_LIMIT as int,
        b.len() <= cap * 32768,
    ensures
        wf_model(
            TreeModel {
                stems: fill_spec(empty_layout(k, cap, ln).stems, b, 1, 0, k, ln),
                ..empty_layout(k, cap, ln)
            },
        ),
{
    let need = (b.len() + cap - 1) / cap;
    crate::builder::lemma_grow_pow2_bound(1, need);
    assert(need <= 32768) by (nonlinear_arith)
        requires
            b.len() <= cap * 32768,
            1 <= cap,
            need == (b.len() + cap - 1) / cap,
    ;
    assert(1 <= ln <= 65536);
    let lay = empty_layout(k, cap, ln);
    assert forall|i: int|
        0 <= i < lay.stems.len() implies crate::limits::in_coord_range(#[trigger] lay.stems[i]) by {
    }
    lemma_fill_spec_range(lay.stems, b, 1, 0, k, ln);
    let t0 = TreeModel { stems: fill_spec(lay.stems, b, 1, 0, k, ln), ..lay };
    lemma_entries_upto_empty(t0, t0.leaves.len() as int);
    assert(wf_model(t0));
}

/// Construction is deterministic: the built tree is a function of the
/// batch and the builder's parameters alone, so building twice from the
/// same batch (same order) yields structurally identical stem arrays and
/// leaf buckets.
pub proof fn law_build_deterministic(
    k: int,
    cap: int,
    maxc: int,
    b: Seq<(Seq<i64>, u64)>,
    t1: TreeModel,
    t2: TreeModel,
)
    requires
        build_model(k, cap, maxc, b) == Result::<TreeModel, crate::tree::KdError>::Ok(t1),
        build_model(k, cap, maxc, b) == Result::<TreeModel, crate::tree::KdError>::Ok(t2),
    ensures
        t1.stems == t2.stems,
        t1.leaves == t2.leaves,
        t1 == t2,
{
}

/// The archival round trip: bytes as `encode` guarantees them — sized to
/// the layout and decoding to the live tree's model — are accepted by
/// `ArchivedView::new` (they are a valid archive with the tree's own leaf
/// count), and querying the resulting view yields results identical,
/// value for value and in the same order, to querying the live tree, for
/// every query point, radius or `n`, and metric.
pub proof fn law_archive_round_trip<M: Metric>(
    met: M,
    q: Seq<i64>,
    radius: i64,
    n: int,
    m: TreeModel,
    bytes: Seq<u8>,
)
    requires
        wf_model(m),
        m.k * m.cap <= 0x800000,
        bytes.len() == crate::archive::total_bytes(m.k, m.cap, m.stems.len() as int),
        crate::archive::view_model(bytes, m.k, m.cap, m.stems.len() as int) == m,
    ensures
        crate::archive::archive_valid(bytes, m.k, m.cap),
        crate::archive::arch_leaf_count(bytes, m.k, m.cap) == m.stems.len(),
        within_model(
            met,
            q,
            radius,
            crate::archive::view_model(
                bytes,
                m.k,
                m.cap,
                crate::archive::arch_leaf_count(bytes, m.k, m.cap),
            ),
        ) == within_model(met, q, radius, m),
        nearest_model(
            met,
            q,
            n,
            crate::archive::view_model(
                bytes,
                m.k,
                m.cap,
                crate::archive::arch_leaf_count(bytes, m.k, m.cap),
            ),
        ) == nearest_model(met, q, n, m),
{
    let ln = m.stems.len() as int;
    let kcv = m.k * m.cap;
    let per = crate::archive::record_bytes(m.k, m.cap);
    assert(per == 8 * (kcv + m.cap + 2));
    assert(bytes.len() as int == ln * per) by (nonlinear_arith)
        requires
            bytes.len() as int == 8 * ln + 8 * ln * (kcv + m.cap + 1),
            per == 8 * (kcv + m.cap + 2),
    ;
    assert(per > 0);
    vstd::arithmetic::div_mod::lemma_fundamental_div_mod_converse(
        bytes.len() as int,
        per,
        ln,
        0,
    );
    assert(crate::archive::arch_leaf_count(bytes, m.k, m.cap) == ln);
}

/// Placement into a single-leaf layout always succeeds while the batch
/// tail still fits the bucket.
proof fn lemma_insert_single_leaf(m: TreeModel, b: Seq<(Seq<i64>, u64)>, i: int)
    requires
        wf_model(m),
        batch_wf(b, m.k),
        m.stems.len() == 1,
        0 <= i <= b.len(),
        m.leaves[0].points.len() + (b.len() - i) <= m.cap,
    ensures
        insert_all(m, b, i) is Some,
        insert_all(m, b, i)->Some_0.stems == m.stems,
    decreases b.len() - i,
{
    if i < b.len() {
        let e = b[i];
        assert(route(m.stems, m.k, e.0, 1, 0) == 1);
        lemma_add_model_wf(m, e.0, e.1);
        let m2 = add_model(m, e.0, e.1);
        assert(m2.leaves[0].points.len() == m.leaves[0].points.len() + 1);
        lemma_insert_single_leaf(m2, b, i + 1);
    }
}

/// A batch that fits one bucket builds successfully into a single leaf
/// with no stem splits: the stem array has length one (index zero is
/// unused), and every point lands in leaf zero.
pub proof fn law_single_leaf_build(k: int, cap: int, maxc: int, b: Seq<(Seq<i64>, u64)>)
    requires
        batch_wf(b, k),
        1 <= k <= crate::limits::DIMS_LIMIT as int,
        1 <= cap <= crate::limits::BUCKET_LIMIT as int,
        b.len() <= cap,
        b.len() <= maxc,
    ensures
        build_model(k, cap, maxc, b) is Ok,
        build_model(k, cap, maxc, b)->Ok_0.stems.len() == 1,
        build_model(k, cap, maxc, b)->Ok_0.leaves.len() == 1,
        build_model(k, cap, maxc, b)->Ok_0.size == b.len(),
{
    let need = (b.len() + cap - 1) / cap;
    assert(need <= 1 && b.len() <= cap * 32768) by (nonlinear_arith)
        requires
            b.len() <= cap,
            1 <= cap,
            need == (b.len() + cap - 1) / cap,
    ;
    let ln = leaves_for(b.len() as int, cap);
    assert(ln == 1);
    lemma_insert_all_t0_wf(k, cap, ln, b);
    let lay = empty_layout(k, cap, ln);
    let t0 = TreeModel { stems: fill_spec(lay.stems, b, 1, 0, k, ln), ..lay };
    crate::laws::lemma_fill_spec_range(lay.stems, b, 1, 0, k, ln);
    assert(t0.stems.len() == 1);
    assert(t0.leaves[0].points.len() == 0);
    lemma_insert_single_leaf(t0, b, 0);
    lemma_insert_all_entries(t0, b, 0);
    let t = insert_all(t0, b, 0)->Some_0;
    lemma_entries_upto_empty(t0, t0.leaves.len() as int);
    broadcast use vstd::seq_lib::group_to_multiset_ensures;
    broadcast use vstd::multiset::group_multiset_axioms;

    assert(b.skip(0) =~= b);
    assert(all_entries(t0).to_multiset() =~= Multiset::<(Seq<i64>, u64)>::empty());
    assert(all_entries(t).to_multiset() =~= b.to_multiset());
    assert(all_entries(t).to_multiset().len() == all_entries(t).len());
    assert(b.to_multiset().len() == b.len());
}

/// Placement never changes the stem layout or the leaf count.
proof fn lemma_insert_all_stems(m: TreeModel, b: Seq<(Seq<i64>, u64)>, i: int)
    requires
        wf_model(m),
        batch_wf(b, m.k),
        0 <= i <= b.len(),
        insert_all(m, b, i) is Some,
    ensures
        insert_all(m, b, i)->Some_0.stems == m.stems,
        insert_all(m, b, i)->Some_0.leaves.len() == m.leaves.len(),
    decreases b.len() - i,
{
    if i < b.len() {
        let e = b[i];
        lemma_add_model_wf(m, e.0, e.1);
        lemma_insert_all_stems(add_model(m, e.0, e.1), b, i + 1);
    }
}

} // verus!
