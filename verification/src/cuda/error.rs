//! What can go wrong on a stream.

use vstd::prelude::*;

use crate::memory::error::IoError;

verus! {

/// What a tensor map does not keep to.
#[derive(Clone, Copy, Debug, PartialEq, Eq)]
pub enum TensorMapRule {
    /// The tensor pointer must be aligned to so many bytes.
    PointerAlignment { bytes: u64 },
    /// The rank must be between 1 and 5.
    Rank,
    /// When interleave is enabled, the rank must be at least 3.
    InterleavedRank,
    /// The shape must be at most `u32::MAX`.
    Shape,
    /// A packed tensor map must have a multiple of 2 for the innermost dimension.
    PackedShape,
    /// Strides must be aligned to so many bytes.
    StrideAlignment { bytes: u64 },
    /// Element strides must be non-zero and at most 8.
    ElementStrides,
    /// The innermost element stride is ignored without interleaving.
    InnermostElementStride,
    /// NaN fill is only supported for float types.
    NanFill,
    /// The tile shape should match the rank.
    TileRank,
    /// The tile shape must be non-zero and at most 256.
    TileShape,
    /// The innermost tile dimension must be at most the swizzle size.
    TileSwizzle,
    /// If interleave is 32 bytes, so must the swizzle be.
    InterleaveSwizzle,
    /// The lower corner must have rank minus 2 elements.
    LowerCornerRank,
    /// The upper corner must have rank minus 2 elements.
    UpperCornerRank,
    /// Im2col requires the rank to be between 3 and 5.
    Im2colRank,
    /// The lower corner must be in range for the rank.
    LowerCornerRange { low: i32, high: i32, rank: usize },
    /// The upper corner must be in range for the rank.
    UpperCornerRange { low: i32, high: i32, rank: usize },
    /// Channels per pixel must be at most 256.
    ChannelsPerPixel,
    /// Pixels per column must be at most 1024.
    PixelsPerColumn,
}

/// Why a launch failed.
#[derive(Clone, Copy, Debug, PartialEq, Eq)]
pub enum LaunchError {
    /// A tensor map that the driver refused breaks a rule.
    TensorMap(TensorMapRule),
    /// The driver is too old for the format of a tensor map.
    TensorMapFormat,
    /// The driver refused, by its error code.
    Unknown { code: i32 },
}

/// What is registered on a stream when something went wrong.
#[derive(Clone, Copy, Debug, PartialEq, Eq)]
pub enum ServerError {
    /// Memory could not be reserved, found or copied.
    Io(IoError),
    /// A launch failed.
    Launch(LaunchError),
    /// Source and destination should be on the same stream.
    StreamMismatch,
    /// The driver or the communication library failed, by its error code.
    Generic { code: i32 },
    /// Errors of the stream refused a command.
    Unhealthy,
}

} // verus!
