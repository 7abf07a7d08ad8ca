//! Numeric limits that keep every distance computation free of overflow.
//!
//! Coordinates are fixed-point `i64` values confined to
//! `[-COORD_LIMIT, COORD_LIMIT]`; a metric's per-axis contribution is then
//! at most `AXIS_COST_LIMIT`, and a full distance over at most `DIMS_LIMIT`
//! axes stays below `2^57`, comfortably inside `i64`.

use vstd::prelude::*;

verus! {

/// Largest magnitude a stored or queried coordinate may have (2^20).
pub const COORD_LIMIT: i64 = 1048576;

/// Largest per-axis cost a metric may report for in-range coordinates (2^42).
pub const AXIS_COST_LIMIT: i64 = 4398046511104;

/// Largest number of coordinate axes a tree may have (2^15).
pub const DIMS_LIMIT: usize = 32768;

/// Largest number of leaf buckets a tree may have (2^16).
pub const LEAVES_LIMIT: usize = 65536;

/// Largest capacity a leaf bucket may have (2^14).
pub const BUCKET_LIMIT: usize = 16384;

/// A coordinate that the index accepts.
pub open spec fn in_coord_range(a: i64) -> bool {
    -(COORD_LIMIT as int) <= a as int <= COORD_LIMIT as int
}

/// All coordinates of a point are in range.
pub open spec fn point_in_range(p: Seq<i64>) -> bool {
    forall|d: int| 0 <= d < p.len() ==> in_coord_range(#[trigger] p[d])
}

} // verus!
