//! Settings that are read from the environment.

use vstd::prelude::*;

use crate::text::same_text;

verus! {

/// What a setting says, for contracts.
pub open spec fn says(value: Option<&str>, text: Seq<char>) -> bool {
    value matches Some(value) && value@ == text
}

/// Whether something is on: it is, unless its setting is `0`. So it is with whether a capture
/// holds the buffers its nodes point at, allocates from the capture arena, and owns the
/// pinned buffers its copies read from.
pub fn on_unless_off(value: Option<&str>) -> (r: bool)
    ensures
        r == !says(value, "0"@),
{
    match value {
        Some(value) => !same_text(value, "0"),
        None => true,
    }
}

/// Whether writes are staged in pinned memory: only where it is asked for.
pub fn pinned_staging_enabled(value: Option<&str>) -> (r: bool)
    ensures
        r == (says(value, "1"@) || says(value, "on"@)),
{
    match value {
        Some(value) => same_text(value, "1") || same_text(value, "on"),
        None => false,
    }
}

/// Whether the addresses that each launch binds are printed: only where it is asked for.
pub fn trace_ptrs(value: Option<&str>) -> (r: bool)
    ensures
        r == says(value, "1"@),
{
    match value {
        Some(value) => same_text(value, "1"),
        None => false,
    }
}

/// What a capture polices.
#[derive(Clone, Copy, Debug, PartialEq, Eq)]
pub enum CaptureMode {
    /// Blocking calls made from the capturing thread are rejected.
    ThreadLocal,
    /// Blocking calls made from any thread are rejected.
    Global,
    /// Only the capturing stream is policed.
    Relaxed,
}

/// What a capture polices. Without a setting that is known, what loudly rejects a blocking
/// call of this thread.
pub fn capture_mode(value: Option<&str>) -> (r: CaptureMode)
    ensures
        r == (if says(value, "relaxed"@) {
            CaptureMode::Relaxed
        } else if says(value, "global"@) {
            CaptureMode::Global
        } else {
            CaptureMode::ThreadLocal
        }),
{
    match value {
        Some(value) => {
            if same_text(value, "relaxed") {
                CaptureMode::Relaxed
            } else if same_text(value, "global") {
                CaptureMode::Global
            } else {
                CaptureMode::ThreadLocal
            }
        },
        None => CaptureMode::ThreadLocal,
    }
}

/// What the driver says of a capture.
#[derive(Clone, Copy, Debug, PartialEq, Eq)]
pub enum CaptureStatus {
    /// None is open.
    Closed,
    /// One is open.
    Active,
    /// One is open and can no longer become a graph.
    Invalidated,
}

/// The number for what the driver says of a capture, or that it says nothing.
pub fn capture_status(status: Option<CaptureStatus>) -> (r: u32)
    ensures
        r == (match status {
            Some(CaptureStatus::Closed) => 0u32,
            Some(CaptureStatus::Active) => 1u32,
            Some(CaptureStatus::Invalidated) => 2u32,
            None => 3u32,
        }),
{
    match status {
        Some(CaptureStatus::Closed) => 0,
        Some(CaptureStatus::Active) => 1,
        Some(CaptureStatus::Invalidated) => 2,
        None => 3,
    }
}

/// Why host memory cannot be exposed to kernels.
#[derive(Clone, Copy, Debug, PartialEq, Eq)]
pub enum ExternalRefusal {
    /// The region does not fit in the bytes described.
    OutOfBounds,
    /// The device cannot address host memory directly: it would read garbage.
    NotAddressable,
}

/// Whether a region of host memory can be exposed to kernels.
pub fn check_external(page_len: u64, offset: u64, size: u64, zero_copy: bool) -> (r: Result<
    (),
    ExternalRefusal,
>)
    ensures
        r == (if offset + size > page_len {
            Err::<(), ExternalRefusal>(ExternalRefusal::OutOfBounds)
        } else if !zero_copy {
            Err(ExternalRefusal::NotAddressable)
        } else {
            Ok(())
        }),
{
    if offset > page_len || size > page_len - offset {
        Err(ExternalRefusal::OutOfBounds)
    } else if !zero_copy {
        Err(ExternalRefusal::NotAddressable)
    } else {
        Ok(())
    }
}

} // verus!
