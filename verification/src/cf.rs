//! Lifecycle status of a chunk.

use vstd::prelude::*;

verus! {

/// Where a chunk stands in its lifecycle.
#[derive(Debug, Clone, Copy, PartialEq, Eq, Structural)]
pub enum ChunkStatus {
    /// Reads can target this chunk.
    Live,
    /// Reserved for compaction.
    Compacting,
    /// Marked for removal by the sweep.
    Deleted,
}

} // verus!
