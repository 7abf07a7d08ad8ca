//! The archived byte layout and its zero-copy read-only view.
//!
//! A tree is persisted as: the stem array first, as raw little-endian
//! 64-bit scalars; then each leaf bucket as its axis-major coordinate
//! arrays (one array of `cap` slots per axis), its item array of `cap`
//! slots, and its occupancy count. [`ArchivedView`] reads this layout in
//! place through the same index arithmetic as the live tree — no
//! deserialization — and serves the query engine through [`Store`].

use vstd::prelude::*;

use crate::limits::{in_coord_range, point_in_range, BUCKET_LIMIT, DIMS_LIMIT, LEAVES_LIMIT};
use crate::model::{all_entries, route, wf_model, LeafModel, TreeModel};
use crate::store::Store;
use crate::tree::ImmutableKdTree;

verus! {

/// The little-endian bytes of one 64-bit word.
pub open spec fn le_bytes(v: u64) -> Seq<u8> {
    seq![
        (v & 0xff) as u8,
        ((v >> 8) & 0xff) as u8,
        ((v >> 16) & 0xff) as u8,
        ((v >> 24) & 0xff) as u8,
        ((v >> 32) & 0xff) as u8,
        ((v >> 40) & 0xff) as u8,
        ((v >> 48) & 0xff) as u8,
        ((v >> 56) & 0xff) as u8,
    ]
}

/// The 64-bit word stored little-endian at byte offset `off`.
pub open spec fn le64_at(b: Seq<u8>, off: int) -> u64 {
    (b[off] as u64) | ((b[off + 1] as u64) << 8) | ((b[off + 2] as u64) << 16) | ((b[off + 3]
        as u64) << 24) | ((b[off + 4] as u64) << 32) | ((b[off + 5] as u64) << 40) | ((b[off + 6]
        as u64) << 48) | ((b[off + 7] as u64) << 56)
}

/// Writing then reading a little-endian word gives the word back.
pub proof fn lemma_le_roundtrip(v: u64)
    ensures
        forall|b: Seq<u8>, off: int|
            b[off] == le_bytes(v)[0] && b[off + 1] == le_bytes(v)[1] && b[off + 2] == le_bytes(v)[2]
                && b[off + 3] == le_bytes(v)[3] && b[off + 4] == le_bytes(v)[4] && b[off + 5]
                == le_bytes(v)[5] && b[off + 6] == le_bytes(v)[6] && b[off + 7] == le_bytes(v)[7]
                ==> #[trigger] le64_at(b, off) == v,
{
    assert(((v & 0xff) as u8 as u64) | (((v >> 8) & 0xff) as u8 as u64) << 8 | (((v >> 16) & 0xff)
        as u8 as u64) << 16 | (((v >> 24) & 0xff) as u8 as u64) << 24 | (((v >> 32) & 0xff) as u8
        as u64) << 32 | (((v >> 40) & 0xff) as u8 as u64) << 40 | (((v >> 48) & 0xff) as u8 as u64)
        << 48 | (((v >> 56) & 0xff) as u8 as u64) << 56 == v) by (bit_vector);
}

/// Words per leaf record: `k * cap` coordinates, `cap` items, 1 occupancy.
pub open spec fn leaf_words(k: int, cap: int) -> int {
    k * cap + cap + 1
}

/// Total bytes of an archived tree.
pub open spec fn total_bytes(k: int, cap: int, ln: int) -> int {
    8 * ln + 8 * ln * leaf_words(k, cap)
}

/// Byte offset of the leaf record `j`.
pub open spec fn leaf_base(k: int, cap: int, ln: int, j: int) -> int {
    8 * ln + 8 * j * leaf_words(k, cap)
}

/// Byte offset of coordinate slot `s` on axis `d` of leaf `j`.
pub open spec fn coord_off(k: int, cap: int, ln: int, j: int, d: int, s: int) -> int {
    leaf_base(k, cap, ln, j) + 8 * (d * cap + s)
}

/// Byte offset of item slot `s` of leaf `j`.
pub open spec fn item_off(k: int, cap: int, ln: int, j: int, s: int) -> int {
    leaf_base(k, cap, ln, j) + 8 * k * cap + 8 * s
}

/// Byte offset of the occupancy count of leaf `j`.
pub open spec fn occ_off(k: int, cap: int, ln: int, j: int) -> int {
    leaf_base(k, cap, ln, j) + 8 * k * cap + 8 * cap
}

/// The occupancy recorded for leaf `j`.
pub open spec fn occ_of(b: Seq<u8>, k: int, cap: int, ln: int, j: int) -> int {
    le64_at(b, occ_off(k, cap, ln, j)) as int
}

/// The tree a byte region represents, read through the layout's index
/// arithmetic.
pub open spec fn view_model(b: Seq<u8>, k: int, cap: int, ln: int) -> TreeModel {
    let base = TreeModel {
        stems: Seq::new(ln as nat, |i: int| le64_at(b, 8 * i) as i64),
        leaves: Seq::new(
            ln as nat,
            |j: int|
                LeafModel {
                    points: Seq::new(
                        occ_of(b, k, cap, ln, j) as nat,
                        |s: int|
                            Seq::new(
                                k as nat,
                                |d: int| le64_at(b, coord_off(k, cap, ln, j, d, s)) as i64,
                            ),
                    ),
                    items: Seq::new(
                        occ_of(b, k, cap, ln, j) as nat,
                        |s: int| le64_at(b, item_off(k, cap, ln, j, s)),
                    ),
                },
        ),
        k: k,
        cap: cap,
        size: 0,
    };
    TreeModel { size: all_entries(base).len() as int, ..base }
}

/// A read-only view over externally supplied archived bytes, exposing the
/// same traversal operations as the live tree without copying.
pub struct ArchivedView {
    pub bytes: Vec<u8>,
    pub dims: usize,
    pub cap: usize,
    pub ln: usize,
}

impl ArchivedView {
    /// The tree the bytes represent.
    pub open spec fn view(self) -> TreeModel {
        view_model(self.bytes@, self.dims as int, self.cap as int, self.ln as int)
    }

    /// Parameter bounds and the exact byte length the layout demands.
    pub open spec fn len_ok(self) -> bool {
        &&& 1 <= self.dims <= DIMS_LIMIT
        &&& 1 <= self.cap <= BUCKET_LIMIT
        &&& 1 <= self.ln <= LEAVES_LIMIT
        &&& self.dims * self.cap <= 0x800000
        &&& self.bytes@.len() == total_bytes(self.dims as int, self.cap as int, self.ln as int)
    }

    /// The view is well formed (checked once at construction).
    pub open spec fn inv(self) -> bool {
        &&& self.len_ok()
        &&& wf_model(self.view())
    }
}

/// Bytes of one record of the layout: one stem word plus one leaf record
/// (`k * cap` coordinate words, `cap` item words, one occupancy word).
pub open spec fn record_bytes(k: int, cap: int) -> int {
    8 * (k * cap + cap + 2)
}

/// The leaf count a byte region of this length implies.
pub open spec fn arch_leaf_count(b: Seq<u8>, k: int, cap: int) -> int {
    b.len() as int / record_bytes(k, cap)
}

/// A byte region that forms a valid archive for `k` axes and bucket
/// capacity `cap`: its length is a positive exact multiple of the record
/// size, the implied leaf count is in range, and the decoded tree is well
/// formed (values in range, occupancies within capacity, every stored
/// point in the leaf its routing reaches).
pub open spec fn archive_valid(b: Seq<u8>, k: int, cap: int) -> bool {
    let ln = arch_leaf_count(b, k, cap);
    &&& b.len() > 0
    &&& b.len() as int % record_bytes(k, cap) == 0
    &&& 1 <= ln <= LEAVES_LIMIT as int
    &&& wf_model(view_model(b, k, cap, ln))
}

/// Reads the word at byte offset `off`.
fn read_word(b: &Vec<u8>, off: usize) -> (r: u64)
    requires
        off + 8 <= b@.len(),
    ensures
        r == le64_at(b@, off as int),
{
    let _bl: usize = b.len();
    (b[off] as u64) | ((b[off + 1] as u64) << 8) | ((b[off + 2] as u64) << 16) | ((b[off + 3]
        as u64) << 24) | ((b[off + 4] as u64) << 32) | ((b[off + 5] as u64) << 40) | ((b[off + 6]
        as u64) << 48) | ((b[off + 7] as u64) << 56)
}

/// Offsets into a well-sized archive stay within the byte region.
proof fn lemma_offsets(k: int, cap: int, ln: int, j: int, d: int, s: int)
    requires
        1 <= k,
        1 <= cap,
        1 <= ln,
        0 <= j < ln,
        0 <= d < k,
        0 <= s < cap,
    ensures
        8 * ln <= leaf_base(k, cap, ln, j),
        leaf_base(k, cap, ln, j) + 8 * leaf_words(k, cap) <= total_bytes(k, cap, ln),
        coord_off(k, cap, ln, j, d, s) + 8 <= total_bytes(k, cap, ln),
        item_off(k, cap, ln, j, s) + 8 <= total_bytes(k, cap, ln),
        occ_off(k, cap, ln, j) + 8 <= total_bytes(k, cap, ln),
        leaf_base(k, cap, ln, j) >= 0,
{
    let w = leaf_words(k, cap);
    assert(leaf_base(k, cap, ln, j) == 8 * ln + 8 * j * w);
    assert(total_bytes(k, cap, ln) == 8 * ln + 8 * ln * w);
    assert(coord_off(k, cap, ln, j, d, s) == 8 * ln + 8 * j * w + 8 * (d * cap + s));
    assert(item_off(k, cap, ln, j, s) == 8 * ln + 8 * j * w + 8 * k * cap + 8 * s);
    assert(occ_off(k, cap, ln, j) == 8 * ln + 8 * j * w + 8 * k * cap + 8 * cap);
    assert(8 * j * w + 8 * (d * cap + s) + 8 <= 8 * ln * w && 8 * j * w + 8 * k * cap + 8 * s + 8
        <= 8 * ln * w && 8 * j * w + 8 * k * cap + 8 * cap + 8 <= 8 * ln * w && 0 <= 8 * j * w && 8
        * j * w + 8 * w <= 8 * ln * w) by (nonlinear_arith)
        requires
            1 <= k,
            1 <= cap,
            1 <= ln,
            0 <= j < ln,
            0 <= d < k,
            0 <= s < cap,
            w == k * cap + cap + 1,
    ;
}

impl ArchivedView {
    /// Reads the splitting value at stem index `i`.
    fn read_stem(&self, i: usize) -> (r: i64)
        requires
            self.len_ok(),
            i < self.ln,
        ensures
            r == self.view().stems[i as int],
    {
        let _bl: usize = self.bytes.len();
        proof {
            lemma_offsets(
                self.dims as int,
                self.cap as int,
                self.ln as int,
                0,
                0,
                0,
            );
            assert(8 * (i as int) + 8 <= 8 * self.ln as int);
        }
        read_word(&self.bytes, 8 * i) as i64
    }

    /// Computes the byte offset of leaf record `j`.
    fn base_of(&self, j: usize) -> (r: usize)
        requires
            self.len_ok(),
            j < self.ln,
        ensures
            r as int == leaf_base(self.dims as int, self.cap as int, self.ln as int, j as int),
    {
        let _bl: usize = self.bytes.len();
        let kc: usize = self.dims * self.cap;
        let w: usize = kc + self.cap + 1;
        proof {
            lemma_offsets(self.dims as int, self.cap as int, self.ln as int, j as int, 0, 0);
        }
        8 * self.ln + 8 * j * w
    }

    /// Reads the occupancy of leaf `j`.
    fn read_occ(&self, j: usize) -> (r: u64)
        requires
            self.len_ok(),
            j < self.ln,
        ensures
            r as int == occ_of(
                self.bytes@,
                self.dims as int,
                self.cap as int,
                self.ln as int,
                j as int,
            ),
    {
        let _bl: usize = self.bytes.len();
        let base: usize = self.base_of(j);
        let kc: usize = self.dims * self.cap;
        proof {
            lemma_offsets(self.dims as int, self.cap as int, self.ln as int, j as int, 0, 0);
            assert(8 * (kc as int) == 8 * (self.dims as int) * (self.cap as int))
                by (nonlinear_arith)
                requires kc as int == (self.dims as int) * (self.cap as int),
            ;
        }
        read_word(&self.bytes, base + 8 * kc + 8 * self.cap)
    }

    /// Reads coordinate slot `s` on axis `d` of leaf `j`.
    fn read_coord(&self, j: usize, d: usize, s: usize) -> (r: i64)
        requires
            self.len_ok(),
            j < self.ln,
            d < self.dims,
            s < self.cap,
        ensures
            r == le64_at(
                self.bytes@,
                coord_off(self.dims as int, self.cap as int, self.ln as int, j as int, d as int, s as int),
            ) as i64,
    {
        let _bl: usize = self.bytes.len();
        let base: usize = self.base_of(j);
        proof {
            lemma_offsets(
                self.dims as int,
                self.cap as int,
                self.ln as int,
                j as int,
                d as int,
                s as int,
            );
            assert((d as int) * (self.cap as int) + s as int + 1 <= (self.dims as int) * (
            self.cap as int)) by (nonlinear_arith)
                requires
                    0 <= (d as int) < (self.dims as int),
                    0 <= (s as int) < (self.cap as int),
            ;
        }
        read_word(&self.bytes, base + 8 * (d * self.cap + s)) as i64
    }

    /// Reads item slot `s` of leaf `j`.
    fn read_item(&self, j: usize, s: usize) -> (r: u64)
        requires
            self.len_ok(),
            j < self.ln,
            s < self.cap,
        ensures
            r == le64_at(
                self.bytes@,
                item_off(self.dims as int, self.cap as int, self.ln as int, j as int, s as int),
            ),
    {
        let _bl: usize = self.bytes.len();
        let base: usize = self.base_of(j);
        let kc: usize = self.dims * self.cap;
        proof {
            lemma_offsets(self.dims as int, self.cap as int, self.ln as int, j as int, 0, s as int);
            assert(8 * (kc as int) == 8 * (self.dims as int) * (self.cap as int))
                by (nonlinear_arith)
                requires kc as int == (self.dims as int) * (self.cap as int),
            ;
        }
        read_word(&self.bytes, base + 8 * kc + 8 * s)
    }
}

impl Store for ArchivedView {
    open spec fn store_model(&self) -> TreeModel {
        self.view()
    }

    open spec fn store_inv(&self) -> bool {
        self.inv()
    }

    proof fn lemma_store_wf(&self) {
    }

    fn dim_count(&self) -> (r: usize) {
        self.dims
    }

    fn stem_count(&self) -> (r: usize) {
        self.ln
    }

    fn stem(&self, i: usize) -> (r: i64) {
        self.read_stem(i)
    }

    fn leaf_len(&self, j: usize) -> (r: usize) {
        let w: u64 = self.read_occ(j);
        proof {
            assert(self.view().leaves[j as int].points.len() == w as int);
            assert(self.view().leaves[j as int].wf(self.view().k, self.view().cap));
        }
        w as usize
    }

    fn leaf_point(&self, j: usize, s: usize) -> (r: Vec<i64>) {
        let k: usize = self.dims;
        let mut r: Vec<i64> = Vec::new();
        let mut d: usize = 0;
        proof {
            assert(self.view().leaves[j as int].wf(self.view().k, self.view().cap));
        }
        while d < k
            invariant
                0 <= d <= k,
                k == self.dims,
                self.inv(),
                j < self.ln,
                s < self.cap,
                (s as int) < self.view().leaves[j as int].points.len(),
                r@.len() == d,
                forall|x: int|
                    0 <= x < d ==> (#[trigger] r@[x]) == self.view().leaves[j as int].points[s as int][x],
            decreases k - d,
        {
            let c: i64 = self.read_coord(j, d, s);
            r.push(c);
            d = d + 1;
        }
        proof {
            assert(r@ =~= self.view().leaves[j as int].points[s as int]);
        }
        r
    }

    fn leaf_item(&self, j: usize, s: usize) -> (r: u64) {
        proof {
            assert(self.view().leaves[j as int].wf(self.view().k, self.view().cap));
        }
        self.read_item(j, s)
    }
}

/// Appends one word, little-endian.
fn put_word(out: &mut Vec<u8>, v: u64)
    ensures
        final(out)@ == old(out)@ + le_bytes(v),
{
    out.push((v & 0xff) as u8);
    out.push(#[verifier::truncate] (((v >> 8) & 0xff) as u8));
    out.push(#[verifier::truncate] (((v >> 16) & 0xff) as u8));
    out.push(#[verifier::truncate] (((v >> 24) & 0xff) as u8));
    out.push(#[verifier::truncate] (((v >> 32) & 0xff) as u8));
    out.push(#[verifier::truncate] (((v >> 40) & 0xff) as u8));
    out.push(#[verifier::truncate] (((v >> 48) & 0xff) as u8));
    out.push(#[verifier::truncate] (((v >> 56) & 0xff) as u8));
    proof {
        assert((v & 0xff) as u8 == le_bytes(v)[0]) by (bit_vector);
        assert(out@ =~= old(out)@ + le_bytes(v));
    }
}

/// The word at flat word index `w` of the archived layout: the stems
/// first, then per leaf its axis-major coordinate slots, its item slots,
/// and its occupancy; unoccupied slots hold zero.
pub open spec fn word_spec(m: TreeModel, w: int) -> u64 {
    let ln = m.stems.len() as int;
    let wpl = leaf_words(m.k, m.cap);
    if w < ln {
        m.stems[w] as u64
    } else {
        let rr = w - ln;
        let j = rr / wpl;
        let o = rr % wpl;
        if o < m.k * m.cap {
            let d = o / m.cap;
            let s = o % m.cap;
            if s < m.leaves[j].points.len() {
                m.leaves[j].points[s][d] as u64
            } else {
                0u64
            }
        } else if o < m.k * m.cap + m.cap {
            let s = o - m.k * m.cap;
            if s < m.leaves[j].items.len() {
                m.leaves[j].items[s]
            } else {
                0u64
            }
        } else {
            m.leaves[j].points.len() as u64
        }
    }
}

/// Appending bytes does not disturb a word already written.
proof fn lemma_le_stable(b1: Seq<u8>, ext: Seq<u8>, off: int)
    requires
        0 <= off,
        off + 8 <= b1.len(),
    ensures
        le64_at(b1 + ext, off) == le64_at(b1, off),
{
    assert((b1 + ext)[off] == b1[off]);
    assert((b1 + ext)[off + 1] == b1[off + 1]);
    assert((b1 + ext)[off + 2] == b1[off + 2]);
    assert((b1 + ext)[off + 3] == b1[off + 3]);
    assert((b1 + ext)[off + 4] == b1[off + 4]);
    assert((b1 + ext)[off + 5] == b1[off + 5]);
    assert((b1 + ext)[off + 6] == b1[off + 6]);
    assert((b1 + ext)[off + 7] == b1[off + 7]);
}

/// Serializes a tree into the archived byte layout. The bytes decode,
/// through the layout's index arithmetic, to exactly the tree's model.
pub fn encode(t: &ImmutableKdTree) -> (r: Vec<u8>)
    requires
        t.inv(),
        t.dims * t.cap <= 0x800000,
        total_bytes(t.dims as int, t.cap as int, t.stems@.len() as int) <= 0x7fffffff,
    ensures
        r@.len() == total_bytes(t.dims as int, t.cap as int, t.stems@.len() as int),
        view_model(r@, t.dims as int, t.cap as int, t.stems@.len() as int) == t.model(),
{
    let ghost m = t.model();
    let ln: usize = t.stems.len();
    let kc: usize = t.dims * t.cap;
    let wpl: usize = kc + t.cap + 1;
    proof {
        assert((ln as int) * (wpl as int) * 8 + 8 * ln as int <= 0x7fffffff && (ln as int) * (
        wpl as int) == (ln as int) * (wpl as int)) by (nonlinear_arith)
            requires
                total_bytes(t.dims as int, t.cap as int, ln as int) == 8 * (ln as int) + 8 * (
                ln as int) * ((t.dims as int) * (t.cap as int) + (t.cap as int) + 1),
                total_bytes(t.dims as int, t.cap as int, ln as int) <= 0x7fffffff,
                wpl as int == (t.dims as int) * (t.cap as int) + (t.cap as int) + 1,
                1 <= ln as int,
        ;
        assert(8 * ((ln as int) + (ln as int) * (wpl as int)) == total_bytes(
            t.dims as int,
            t.cap as int,
            ln as int,
        )) by (nonlinear_arith)
            requires
                wpl as int == (t.dims as int) * (t.cap as int) + (t.cap as int) + 1,
        ;
    }
    let total_words: usize = ln + ln * wpl;
    let mut out: Vec<u8> = Vec::new();
    let mut w: usize = 0;
    while w < total_words
        invariant
            0 <= w <= total_words,
            t.inv(),
            m == t.model(),
            ln == m.stems.len(),
            kc as int == (t.dims as int) * (t.cap as int),
            wpl as int == leaf_words(m.k, m.cap),
            total_words as int == ln as int + (ln as int) * (wpl as int),
            8 * total_words as int == total_bytes(t.dims as int, t.cap as int, ln as int),
            out@.len() == 8 * w as int,
            forall|ww: int| 0 <= ww < w ==> le64_at(out@, 8 * ww) == word_spec(m, ww),
        decreases total_words - w,
    {
        let ghost out0 = out@;
        let v: u64 = word_value(t, w, ln, kc, wpl);
        put_word(&mut out, v);
        proof {
            lemma_le_roundtrip(v);
            assert(le64_at(out@, 8 * w as int) == v);
            assert forall|ww: int| 0 <= ww < w implies le64_at(out@, 8 * ww) == word_spec(m, ww) by {
                lemma_le_stable(out0, le_bytes(v), 8 * ww);
            }
        }
        w = w + 1;
    }
    proof {
        lemma_words_view(out@, m);
    }
    out
}

/// Computes the word at flat index `w` of the layout for a live tree.
fn word_value(t: &ImmutableKdTree, w: usize, ln: usize, kc: usize, wpl: usize) -> (r: u64)
    requires
        t.inv(),
        ln == t.stems@.len(),
        kc as int == (t.dims as int) * (t.cap as int),
        wpl as int == leaf_words(t.model().k, t.model().cap),
        (w as int) < (ln as int) + (ln as int) * (wpl as int),
    ensures
        r == word_spec(t.model(), w as int),
{
    let ghost m = t.model();
    if w < ln {
        t.stems[w] as u64
    } else {
        let rr: usize = w - ln;
        let j: usize = rr / wpl;
        let o: usize = rr % wpl;
        proof {
            assert(1 <= wpl as int);
            vstd::arithmetic::div_mod::lemma_fundamental_div_mod(rr as int, wpl as int);
            assert((rr as int) / (wpl as int) < ln as int) by (nonlinear_arith)
                requires
                    (rr as int) < (ln as int) * (wpl as int),
                    1 <= wpl as int,
                    0 <= rr as int,
            ;
            assert(j < ln);
            assert(m.leaves[j as int].wf(m.k, m.cap));
        }
        let occ: usize = t.leaves[j].points.len();
        if o < kc {
            let d: usize = o / t.cap;
            let s: usize = o % t.cap;
            proof {
                vstd::arithmetic::div_mod::lemma_fundamental_div_mod(o as int, t.cap as int);
                assert((o as int) / (t.cap as int) < t.dims as int) by (nonlinear_arith)
                    requires
                        (o as int) < (t.dims as int) * (t.cap as int),
                        1 <= t.cap as int,
                        0 <= o as int,
                ;
            }
            if s < occ {
                proof {
                    assert(m.leaves[j as int].points[s as int].len() == m.k);
                    assert(m.leaves[j as int].points[s as int][d as int] == t.leaves@[j as int].points@[s as int]@[d as int]);
                }
                t.leaves[j].points[s][d] as u64
            } else {
                0
            }
        } else if o < kc + t.cap {
            let s: usize = o - kc;
            if s < occ {
                t.leaves[j].items[s]
            } else {
                0
            }
        } else {
            occ as u64
        }
    }
}

/// Casting a signed word to unsigned and back is the identity.
proof fn lemma_i64_round(x: i64)
    ensures
        x as u64 as i64 == x,
{
    assert(x as u64 as i64 == x) by (bit_vector);
}

/// Models that differ only outside their leaves hold the same entries.
proof fn lemma_entries_leaves_only(m1: TreeModel, m2: TreeModel, j: int)
    requires
        m1.leaves == m2.leaves,
    ensures
        crate::model::entries_upto(m1, j) == crate::model::entries_upto(m2, j),
    decreases j,
{
    if j > 0 {
        lemma_entries_leaves_only(m1, m2, j - 1);
    }
}

/// A byte region whose words are exactly a well-formed tree's layout words
/// decodes to that tree.
proof fn lemma_words_view(b: Seq<u8>, m: TreeModel)
    requires
        wf_model(m),
        b.len() == total_bytes(m.k, m.cap, m.stems.len() as int),
        forall|ww: int|
            0 <= ww < m.stems.len() + m.stems.len() * leaf_words(m.k, m.cap) ==> le64_at(b, 8 * ww)
                == word_spec(m, ww),
    ensures
        view_model(b, m.k, m.cap, m.stems.len() as int) == m,
{
    let ln = m.stems.len() as int;
    let wpl = leaf_words(m.k, m.cap);
    let kcv = m.k * m.cap;
    let v = view_model(b, m.k, m.cap, ln);
    assert(wpl == kcv + m.cap + 1);
    assert forall|i: int| 0 <= i < ln implies v.stems[i] == m.stems[i] by {
        assert(le64_at(b, 8 * i) == word_spec(m, i));
        lemma_i64_round(m.stems[i]);
    }
    assert(v.stems =~= m.stems);
    assert forall|j: int| 0 <= j < ln implies v.leaves[j] == m.leaves[j] by {
        assert(m.leaves[j].wf(m.k, m.cap));
        let jw = j * wpl;
        let occ = m.leaves[j].points.len() as int;
        proof_leaf_words(b, m, j);
        assert(v.leaves[j].points.len() == occ);
        assert(v.leaves[j].items.len() == occ);
        assert forall|s: int| 0 <= s < occ implies v.leaves[j].points[s] == m.leaves[j].points[s]
            && v.leaves[j].items[s] == m.leaves[j].items[s] by {
            proof_leaf_slot(b, m, j, s);
        }
        assert(v.leaves[j].points =~~= m.leaves[j].points);
        assert(v.leaves[j].items =~= m.leaves[j].items);
        assert(v.leaves[j] =~~= m.leaves[j]);
    }
    assert(v.leaves =~= m.leaves);
    let base = TreeModel { size: 0, ..v };
    lemma_entries_leaves_only(base, m, m.leaves.len() as int);
    assert(crate::model::all_entries(base).len() == crate::model::all_entries(m).len());
    assert(v =~= m);
}

/// The occupancy word of leaf `j` decodes to its occupancy.
proof fn proof_leaf_words(b: Seq<u8>, m: TreeModel, j: int)
    requires
        wf_model(m),
        0 <= j < m.stems.len(),
        b.len() == total_bytes(m.k, m.cap, m.stems.len() as int),
        forall|ww: int|
            0 <= ww < m.stems.len() + m.stems.len() * leaf_words(m.k, m.cap) ==> le64_at(b, 8 * ww)
                == word_spec(m, ww),
    ensures
        occ_of(b, m.k, m.cap, m.stems.len() as int, j) == m.leaves[j].points.len(),
{
    let ln = m.stems.len() as int;
    let wpl = leaf_words(m.k, m.cap);
    let kcv = m.k * m.cap;
    let jw = j * wpl;
    let occw = ln + jw + kcv + m.cap;
    assert(8 * j * wpl == 8 * jw && 8 * m.k * m.cap == 8 * kcv && jw + wpl <= ln * wpl && 0 <= jw)
        by (nonlinear_arith)
        requires
            jw == j * wpl,
            kcv == m.k * m.cap,
            0 <= j < ln,
            1 <= wpl,
            wpl == kcv + m.cap + 1,
            0 <= kcv,
            0 <= m.cap,
    ;
    assert(occ_off(m.k, m.cap, ln, j) == 8 * ln + 8 * jw + 8 * kcv + 8 * m.cap);
    assert(8 * occw == occ_off(m.k, m.cap, ln, j));
    assert(0 <= occw < ln + ln * wpl);
    assert(le64_at(b, 8 * occw) == word_spec(m, occw));
    vstd::arithmetic::div_mod::lemma_fundamental_div_mod_converse(
        occw - ln,
        wpl,
        j,
        kcv + m.cap,
    );
    assert(word_spec(m, occw) == m.leaves[j].points.len() as u64);
    assert(m.leaves[j].wf(m.k, m.cap));
    assert(m.leaves[j].points.len() <= m.cap);
}

/// The coordinate and item words of slot `s` of leaf `j` decode to the
/// stored point and item.
proof fn proof_leaf_slot(b: Seq<u8>, m: TreeModel, j: int, s: int)
    requires
        wf_model(m),
        0 <= j < m.stems.len(),
        0 <= s < m.leaves[j].points.len(),
        b.len() == total_bytes(m.k, m.cap, m.stems.len() as int),
        forall|ww: int|
            0 <= ww < m.stems.len() + m.stems.len() * leaf_words(m.k, m.cap) ==> le64_at(b, 8 * ww)
                == word_spec(m, ww),
    ensures
        Seq::new(m.k as nat, |d: int| le64_at(b, coord_off(m.k, m.cap, m.stems.len() as int, j, d, s)) as i64)
            == m.leaves[j].points[s],
        le64_at(b, item_off(m.k, m.cap, m.stems.len() as int, j, s)) == m.leaves[j].items[s],
    decreases 0int,
{
    let ln = m.stems.len() as int;
    let wpl = leaf_words(m.k, m.cap);
    let kcv = m.k * m.cap;
    let jw = j * wpl;
    assert(m.leaves[j].wf(m.k, m.cap));
    assert(8 * j * wpl == 8 * jw && 8 * m.k * m.cap == 8 * kcv && jw + wpl <= ln * wpl && 0 <= jw)
        by (nonlinear_arith)
        requires
            jw == j * wpl,
            kcv == m.k * m.cap,
            0 <= j < ln,
            1 <= wpl,
            wpl == kcv + m.cap + 1,
            0 <= kcv,
            0 <= m.cap,
    ;
    assert forall|d: int| 0 <= d < m.k implies le64_at(
        b,
        coord_off(m.k, m.cap, ln, j, d, s),
    ) as i64 == m.leaves[j].points[s][d] by {
        let dc = d * m.cap;
        let o = dc + s;
        let cw = ln + jw + o;
        assert(dc + m.cap <= kcv && 0 <= dc) by (nonlinear_arith)
            requires
                dc == d * m.cap,
                kcv == m.k * m.cap,
                0 <= d < m.k,
                1 <= m.cap,
        ;
        assert(coord_off(m.k, m.cap, ln, j, d, s) == 8 * ln + 8 * jw + 8 * o);
        assert(8 * cw == coord_off(m.k, m.cap, ln, j, d, s));
        assert(0 <= cw < ln + ln * wpl);
        assert(le64_at(b, 8 * cw) == word_spec(m, cw));
        vstd::arithmetic::div_mod::lemma_fundamental_div_mod_converse(cw - ln, wpl, j, o);
        vstd::arithmetic::div_mod::lemma_fundamental_div_mod_converse(o, m.cap, d, s);
        assert(word_spec(m, cw) == m.leaves[j].points[s][d] as u64);
        lemma_i64_round(m.leaves[j].points[s][d]);
    }
    assert(Seq::new(
        m.k as nat,
        |d: int| le64_at(b, coord_off(m.k, m.cap, m.stems.len() as int, j, d, s)) as i64,
    ) =~= m.leaves[j].points[s]);
    let o2 = kcv + s;
    let iw = ln + jw + o2;
    assert(item_off(m.k, m.cap, ln, j, s) == 8 * ln + 8 * jw + 8 * kcv + 8 * s);
    assert(8 * iw == item_off(m.k, m.cap, ln, j, s));
    assert(0 <= iw < ln + ln * wpl);
    assert(le64_at(b, 8 * iw) == word_spec(m, iw));
    vstd::arithmetic::div_mod::lemma_fundamental_div_mod_converse(iw - ln, wpl, j, o2);
    assert(word_spec(m, iw) == m.leaves[j].items[s]);
}

impl ArchivedView {
    /// Wraps an externally supplied byte region as a read-only archived
    /// tree of `dims` axes and bucket capacity `cap`. The region is
    /// validated once, and the view is returned exactly when the bytes
    /// form a valid archive: the length fits the layout, every stored
    /// value is in range, every occupancy is within capacity, and every
    /// stored point lies in the leaf its routing reaches.
    #[verifier::loop_isolation(false)]
    pub fn new(bytes: Vec<u8>, dims: usize, cap: usize) -> (r: Option<ArchivedView>)
        requires
            1 <= dims <= DIMS_LIMIT,
            1 <= cap <= BUCKET_LIMIT,
            dims * cap <= 0x800000,
        ensures
            r is Some <==> archive_valid(bytes@, dims as int, cap as int),
            match r {
                Option::Some(v) => v.inv() && v.bytes@ == bytes@ && v.dims == dims && v.cap == cap
                    && v.ln as int == arch_leaf_count(bytes@, dims as int, cap as int),
                Option::None => true,
            },
    {
        let ghost b0 = bytes@;
        let bl: usize = bytes.len();
        let kc: usize = dims * cap;
        let per: usize = 8 * kc + 8 * cap + 16;
        proof {
            assert(per as int == record_bytes(dims as int, cap as int)) by (nonlinear_arith)
                requires
                    per as int == 8 * (kc as int) + 8 * (cap as int) + 16,
                    kc as int == (dims as int) * (cap as int),
                    record_bytes(dims as int, cap as int) == 8 * ((dims as int) * (cap as int) + (
                    cap as int) + 2),
            ;
        }
        if bl == 0 || bl % per != 0 {
            proof {
                assert(!archive_valid(b0, dims as int, cap as int));
            }
            return None;
        }
        let ln: usize = bl / per;
        proof {
            assert(ln as int == arch_leaf_count(b0, dims as int, cap as int));
        }
        if ln < 1 || ln > 65536 {
            proof {
                assert(!archive_valid(b0, dims as int, cap as int));
            }
            return None;
        }
        proof {
            vstd::arithmetic::div_mod::lemma_fundamental_div_mod(bl as int, per as int);
            assert((ln as int) * (per as int) == total_bytes(dims as int, cap as int, ln as int))
                by (nonlinear_arith)
                requires
                    per as int == 8 * (kc as int) + 8 * (cap as int) + 16,
                    kc as int == (dims as int) * (cap as int),
                    total_bytes(dims as int, cap as int, ln as int) == 8 * (ln as int) + 8 * (
                    ln as int) * ((dims as int) * (cap as int) + (cap as int) + 1),
            ;
        }
        proof {
            assert(bl as int == (per as int) * (ln as int));
            assert((per as int) * (ln as int) == (ln as int) * (per as int)) by (nonlinear_arith);
        }
        let v = ArchivedView { bytes, dims, cap, ln };
        let ghost m = v.view();
        proof {
            assert(v.bytes@.len() == bl);
            assert(v.len_ok());
            assert(m == view_model(b0, dims as int, cap as int, ln as int));
        }
        let mut i: usize = 0;
        while i < ln
            invariant
                0 <= i <= ln,
                v.len_ok(),
                m == v.view(),
                v.bytes@ == b0,
                ln == v.ln,
                dims == v.dims,
                cap == v.cap,
                b0.len() > 0,
                b0.len() as int % record_bytes(dims as int, cap as int) == 0,
                ln as int == arch_leaf_count(b0, dims as int, cap as int),
                forall|x: int| 0 <= x < i ==> in_coord_range(#[trigger] m.stems[x]),
            decreases ln - i,
        {
            let sv: i64 = v.read_stem(i);
            if sv < -1048576 || sv > 1048576 {
                proof {
                    assert(!in_coord_range(m.stems[i as int]));
                    assert(!wf_model(m));
                    assert(!archive_valid(b0, dims as int, cap as int));
                }
                return None;
            }
            i = i + 1;
        }
        let mut j: usize = 0;
        while j < ln
            invariant
                0 <= j <= ln,
                v.len_ok(),
                m == v.view(),
                v.bytes@ == b0,
                ln == v.ln,
                dims == v.dims,
                cap == v.cap,
                b0.len() > 0,
                b0.len() as int % record_bytes(dims as int, cap as int) == 0,
                ln as int == arch_leaf_count(b0, dims as int, cap as int),
                forall|x: int| 0 <= x < ln ==> in_coord_range(#[trigger] m.stems[x]),
                forall|x: int| 0 <= x < j ==> (#[trigger] m.leaves[x]).points.len() <= cap,
                forall|x: int, s: int|
                    0 <= x < j && 0 <= s < m.leaves[x].points.len() ==> point_in_range(
                        #[trigger] m.leaves[x].points[s],
                    ),
                forall|x: int, s: int|
                    0 <= x < j && 0 <= s < m.leaves[x].points.len() ==> route(
                        m.stems,
                        m.k,
                        #[trigger] m.leaves[x].points[s],
                        1,
                        0,
                    ) == m.stems.len() + x,
            decreases ln - j,
        {
            let occ64: u64 = v.read_occ(j);
            if occ64 > cap as u64 {
                proof {
                    assert(m.leaves[j as int].points.len() > m.cap);
                    assert(!m.leaves[j as int].wf(m.k, m.cap));
                    assert(!wf_model(m));
                    assert(!archive_valid(b0, dims as int, cap as int));
                }
                return None;
            }
            let occ: usize = occ64 as usize;
            let mut s: usize = 0;
            while s < occ
                invariant
                    0 <= s <= occ,
                    v.len_ok(),
                    m == v.view(),
                    v.bytes@ == b0,
                    ln == v.ln,
                    dims == v.dims,
                    cap == v.cap,
                    ln as int == arch_leaf_count(b0, dims as int, cap as int),
                    j < ln,
                    occ as int == m.leaves[j as int].points.len(),
                    occ <= cap,
                    forall|x: int| 0 <= x < ln ==> in_coord_range(#[trigger] m.stems[x]),
                    forall|ss: int|
                        0 <= ss < s ==> point_in_range(#[trigger] m.leaves[j as int].points[ss]),
                    forall|ss: int|
                        0 <= ss < s ==> route(
                            m.stems,
                            m.k,
                            #[trigger] m.leaves[j as int].points[ss],
                            1,
                            0,
                        ) == m.stems.len() + j,
                decreases occ - s,
            {
                let mut d: usize = 0;
                while d < dims
                    invariant
                        0 <= d <= dims,
                        v.len_ok(),
                        m == v.view(),
                        v.bytes@ == b0,
                        ln == v.ln,
                        dims == v.dims,
                        cap == v.cap,
                        ln as int == arch_leaf_count(b0, dims as int, cap as int),
                        j < ln,
                        s < occ,
                        occ as int == m.leaves[j as int].points.len(),
                        occ <= cap,
                        forall|x: int|
                            0 <= x < d ==> in_coord_range(
                                #[trigger] m.leaves[j as int].points[s as int][x],
                            ),
                    decreases dims - d,
                {
                    let c: i64 = v.read_coord(j, d, s);
                    if c < -1048576 || c > 1048576 {
                        proof {
                            assert(c == m.leaves[j as int].points[s as int][d as int]);
                            assert(!crate::limits::point_in_range(
                                m.leaves[j as int].points[s as int],
                            ));
                            assert(!m.leaves[j as int].wf(m.k, m.cap));
                            assert(!wf_model(m));
                            assert(!archive_valid(b0, dims as int, cap as int));
                        }
                        return None;
                    }
                    d = d + 1;
                }
                let mut idx: usize = 1;
                let mut dm: usize = 0;
                let ghost p = m.leaves[j as int].points[s as int];
                while idx < ln
                    invariant
                        v.len_ok(),
                        m == v.view(),
                        v.bytes@ == b0,
                        ln == v.ln,
                        dims == v.dims,
                        cap == v.cap,
                        ln as int == arch_leaf_count(b0, dims as int, cap as int),
                        j < ln,
                        s < occ,
                        occ <= cap,
                        occ as int == m.leaves[j as int].points.len(),
                        p == m.leaves[j as int].points[s as int],
                        1 <= idx < 2 * ln,
                        dm < dims,
                        route(m.stems, m.k, p, idx as int, dm as int) == route(m.stems, m.k, p, 1, 0),
                    decreases 2 * ln - idx,
                {
                    let sv: i64 = v.read_stem(idx);
                    let c: i64 = v.read_coord(j, dm, s);
                    proof {
                        assert(c == p[dm as int]);
                    }
                    let step: usize = if c >= sv {
                        1
                    } else {
                        0
                    };
                    idx = 2 * idx + step;
                    dm = if dm + 1 == dims {
                        0
                    } else {
                        dm + 1
                    };
                }
                if idx - ln != j {
                    proof {
                        assert(route(m.stems, m.k, p, idx as int, dm as int) == idx as int);
                        assert(route(m.stems, m.k, m.leaves[j as int].points[s as int], 1, 0)
                            != m.stems.len() + j);
                        assert(!wf_model(m));
                        assert(!archive_valid(b0, dims as int, cap as int));
                    }
                    return None;
                }
                s = s + 1;
            }
            j = j + 1;
        }
        proof {
            assert forall|x: int| 0 <= x < ln implies (#[trigger] m.leaves[x]).wf(m.k, m.cap) by {
                assert forall|ss: int|
                    0 <= ss < m.leaves[x].points.len() implies (#[trigger] m.leaves[x].points[
                    ss]).len() == m.k && point_in_range(m.leaves[x].points[ss]) by {
                }
            }
            let base = TreeModel { size: 0, ..m };
            lemma_entries_leaves_only(base, m, m.leaves.len() as int);
            assert(wf_model(m));
            assert(archive_valid(b0, dims as int, cap as int));
        }
        Some(v)
    }

    /// Finds all archived entries strictly closer to `query` than `radius`
    /// under the caller's metric, sorted nearest first (ties by ascending
    /// item) — identical results to querying the live tree the bytes were
    /// archived from.
    pub fn within<M: crate::metric::Metric>(
        &self,
        query: &Vec<i64>,
        radius: i64,
        met: &M,
    ) -> (r: Vec<crate::nearest_neighbour::NearestNeighbour>)
        requires
            self.inv(),
            query@.len() == self.view().k,
            point_in_range(query@),
        ensures
            r@ == crate::engine::within_model(*met, query@, radius, self.view()),
    {
        crate::engine::query_within(self, query, radius, met)
    }

    /// Finds the `n` archived entries closest to `query`, sorted nearest
    /// first (ties by ascending item).
    pub fn nearest_n<M: crate::metric::Metric>(
        &self,
        query: &Vec<i64>,
        n: usize,
        met: &M,
    ) -> (r: Vec<crate::nearest_neighbour::NearestNeighbour>)
        requires
            self.inv(),
            query@.len() == self.view().k,
            point_in_range(query@),
        ensures
            r@ == crate::engine::nearest_model(*met, query@, n as int, self.view()),
    {
        crate::engine::query_nearest(self, query, n, met)
    }
}

} // verus!
