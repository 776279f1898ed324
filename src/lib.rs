//! Core of a vector database engine: an HNSW proximity-graph index over
//! fixed-dimension vectors, the row layout of the columnar batch codec, and
//! the versioned metadata catalogue that publishes snapshots of an object store.
//!
//! Vector components are carried as IEEE-754 single-precision bit patterns
//! (`u32`), and distances as order keys (see `order`), so that everything
//! here is integer logic.
use vstd::prelude::*;

pub mod catalogue;
pub mod columnar;
pub mod decimal;
pub mod error;
pub mod flat;
pub mod hnsw;
pub mod order;
pub mod snapshot;
pub mod storage;
pub mod topk;
pub mod wire;

pub use error::Error;

verus! {

/// Library version.
pub const VERSION: &'static str = "0.1.0";

/// Reports that the library is functional.
pub fn health_check() -> (r: bool)
    ensures
        r,
{
    true
}

} // verus!
