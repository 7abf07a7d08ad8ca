//! A multidimensional spatial index: a k-d tree stored as a flat array of
//! splitting values ("stems") over fixed-capacity leaf buckets, with
//! bulk construction, incremental insertion, and pruned proximity queries
//! (`within` and `nearest_n`) under a caller-supplied axis-decomposable
//! metric. Coordinates are bounded fixed-point `i64` values.

pub mod limits;
pub mod metric;
pub mod archive;
pub mod builder;
pub mod engine;
pub mod model;
pub mod laws;
pub mod nearest_neighbour;
pub mod store;
pub mod tree;
