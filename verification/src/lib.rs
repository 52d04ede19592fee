//! A render frame graph: a per-frame directed acyclic graph of render passes
//! and the GPU resources they produce and consume.
//!
//! Pass authors declare passes with their reads, writes and side effects; the
//! graph then sorts passes by insertion point, culls work that no surviving
//! pass depends on, computes resource lifetimes, and emits one device pass per
//! surviving pass together with the resource acquisitions and releases at its
//! boundaries. Transient resources are pooled in a reference-counted
//! allocator and recycled across frames through a transient resource cache.

use vstd::prelude::*;

pub mod allocator;
pub mod attachment;
pub mod blackboard;
pub mod builder;
pub mod callback;
pub mod context;
pub mod device_pass;
pub mod entry;
pub mod gfx;
pub mod graph;
pub mod handle;
pub mod node;
pub mod pass;
pub mod resource;
pub mod table;
pub mod transient;

verus! {

/// Outcome of running the embedding application.
pub enum AppExit {
    Success,
    /// A non-zero process exit code.
    Error(u8),
}

impl AppExit {
    /// The generic failure exit.
    pub fn error() -> (r: Self)
        ensures
            r == AppExit::Error(1u8),
    {
        AppExit::Error(1)
    }
}

/// Sum of two frame statistics counters.
pub fn add(left: u64, right: u64) -> (r: u64)
    requires
        left + right <= u64::MAX,
    ensures
        r == left + right,
{
    left + right
}

} // verus!
