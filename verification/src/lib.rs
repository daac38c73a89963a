//! Approximate nearest-neighbor search over fixed-dimension vectors, with a
//! name-addressed registry of independent indexes.
//!
//! Vector scalars are fixed-point values held in `i64`, bounded so that every
//! distance computation fits exact integer arithmetic; callers that start from
//! floating-point data quantize at the boundary. Each index is a hierarchical
//! navigable small world (HNSW) graph built over the stored items; search
//! descends the layers greedily and runs a bounded beam search at the bottom
//! layer, then returns labels ordered nearest-first under the chosen metric.
use vstd::prelude::*;

pub mod metric;
pub mod dist;
pub mod level;
pub mod index;
pub mod codec;
pub mod registry;
pub mod laws;

verus! {

/// Largest dimension an index may be created with; keeps every distance
/// computation within exact `i128` arithmetic.
pub const DIM_MAX: usize = 4096;

/// Largest magnitude a vector scalar may have; together with `DIM_MAX` this
/// bounds every dot product by `DIM_MAX * SCALAR_MAX * SCALAR_MAX`.
pub const SCALAR_MAX: i64 = 32768;

/// How an index operation fails.
#[derive(Clone, Copy, PartialEq, Eq, Structural, Debug)]
pub enum IndexError {
    /// A vector's length differs from the index dimension.
    DimensionMismatch,
    /// A build was attempted on an index holding no items.
    EmptyIndex,
    /// A persisted byte stream is structurally invalid.
    CorruptData,
}

impl IndexError {
    /// A short description of the error, used where a status string is owed.
    pub fn message(&self) -> (r: String)
        ensures
            self is DimensionMismatch ==> r@ == "Dimension mismatch"@,
            self is EmptyIndex ==> r@ == "Empty index"@,
            self is CorruptData ==> r@ == "Corrupt data"@,
    {
        match self {
            IndexError::DimensionMismatch => "Dimension mismatch".to_owned(),
            IndexError::EmptyIndex => "Empty index".to_owned(),
            IndexError::CorruptData => "Corrupt data".to_owned(),
        }
    }
}

} // verus!
