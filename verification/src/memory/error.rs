//! What can go wrong when memory is reserved or looked up.

use vstd::prelude::*;

verus! {

/// Why something that was asked for does not exist.
#[derive(Clone, Copy, Debug, PartialEq, Eq)]
pub enum Missing {
    /// The reserved memory was never placed in a pool.
    Uninitialized,
    /// No page of the pool has this index.
    Page { index: usize },
}

/// The error of every memory operation.
#[derive(Clone, Copy, Debug, PartialEq, Eq)]
pub enum IoError {
    /// No pool, or not the storage, can hold a buffer of this size.
    BufferTooBig { size: u64 },
    /// The strides do not describe a pitched row-major layout.
    UnsupportedStrides,
    /// The binding does not correspond to a valid resource.
    InvalidHandle,
    /// What was asked for does not exist.
    NotFound { reason: Missing },
    /// No pinned memory could be reserved.
    Unpinned,
    /// The storage failed for a reason of its own, by its error code.
    Unknown { code: i32 },
}

} // verus!
