//! What settings mean, letter by letter, and when staged bytes are let go.

use vstd::prelude::*;

use crate::cuda::settings::{
    capture_mode, capture_status, check_external, on_unless_off, pinned_staging_enabled, trace_ptrs,
    CaptureMode, CaptureStatus, ExternalRefusal,
};
use crate::fnv::fnv_round;
use crate::policy::{FlushingPolicy, FlushingPolicyState};

verus! {

/// Whether a setting is exactly these letters.
pub open spec fn spelled(value: Option<&str>, letters: Seq<char>) -> bool {
    value is Some && (value->0)@ == letters
}

/// Something is off exactly if its setting is the digit zero, and nothing else.
pub proof fn law_only_zero_turns_off(value: Option<&str>, r: bool)
    requires
        call_ensures(on_unless_off, (value,), r),
    ensures
        !r <==> spelled(value, seq!['0']),
{
    reveal_strlit("0");
    assert("0"@ =~= seq!['0']);
}

/// Staging in pinned memory is on exactly if its setting is the digit one or `on`.
pub proof fn law_staging_is_asked_for(value: Option<&str>, r: bool)
    requires
        call_ensures(pinned_staging_enabled, (value,), r),
    ensures
        r <==> spelled(value, seq!['1']) || spelled(value, seq!['o', 'n']),
{
    reveal_strlit("1");
    reveal_strlit("on");
    assert("1"@ =~= seq!['1']);
    assert("on"@ =~= seq!['o', 'n']);
}

/// Addresses are printed exactly if the setting is the digit one.
pub proof fn law_tracing_is_asked_for(value: Option<&str>, r: bool)
    requires
        call_ensures(trace_ptrs, (value,), r),
    ensures
        r <==> spelled(value, seq!['1']),
{
    reveal_strlit("1");
    assert("1"@ =~= seq!['1']);
}

/// A capture polices its own thread, unless it is told to be relaxed or global, in those
/// letters.
pub proof fn law_captures_police_their_thread(value: Option<&str>, r: CaptureMode)
    requires
        call_ensures(capture_mode, (value,), r),
    ensures
        r is Relaxed <==> spelled(value, seq!['r', 'e', 'l', 'a', 'x', 'e', 'd']),
        r is Global <==> spelled(value, seq!['g', 'l', 'o', 'b', 'a', 'l']),
        value is None ==> r is ThreadLocal,
{
    reveal_strlit("relaxed");
    reveal_strlit("global");
    assert("relaxed"@ =~= seq!['r', 'e', 'l', 'a', 'x', 'e', 'd']);
    assert("global"@ =~= seq!['g', 'l', 'o', 'b', 'a', 'l']);
    assert(seq!['r', 'e', 'l', 'a', 'x', 'e', 'd'].len() != seq!['g', 'l', 'o', 'b', 'a', 'l'].len());
}

/// The numbers for what the driver says of a capture are all different. They grow from none
/// that is open, over one that is, to one that went wrong; what is not known comes last.
pub proof fn law_statuses_are_told_apart(
    a: Option<CaptureStatus>,
    b: Option<CaptureStatus>,
    x: u32,
    y: u32,
)
    requires
        call_ensures(capture_status, (a,), x),
        call_ensures(capture_status, (b,), y),
    ensures
        x == y <==> a == b,
        x <= 3,
        x == 0 <==> a == Some(CaptureStatus::Closed),
        a == Some(CaptureStatus::Active) && b == Some(CaptureStatus::Invalidated) ==> x < y,
        a is Some && b is None ==> x < y,
{
}

/// A region of host memory is exposed exactly if every byte of it is one of those described
/// and the device can address host memory. A region that reaches past them is refused for that,
/// on any device.
pub proof fn law_region_lies_in_what_is_described(
    page_len: u64,
    offset: u64,
    size: u64,
    zero_copy: bool,
    r: Result<(), ExternalRefusal>,
)
    requires
        call_ensures(check_external, (page_len, offset, size, zero_copy), r),
    ensures
        r is Ok <==> zero_copy && offset + size <= page_len,
        r matches Err(ExternalRefusal::OutOfBounds) <==> offset + size > page_len,
        r matches Err(ExternalRefusal::NotAddressable) ==> !zero_copy && offset + size <= page_len,
{
}

/// Every staged allocation counts as one and as its bytes, up to what the counters hold. Two
/// are counted the same in either order.
pub proof fn law_staged_allocations_are_counted(
    state: &mut FlushingPolicyState,
    len: usize,
    r: (),
)
    requires
        call_ensures(FlushingPolicyState::register_len, (state, len), r),
    ensures
        old(state).bytes_count < u32::MAX ==> final(state).bytes_count == old(state).bytes_count
            + 1,
        old(state).bytes_count == u32::MAX ==> final(state).bytes_count == u32::MAX,
        old(state).bytes_size + len <= u32::MAX ==> final(state).bytes_size
            == old(state).bytes_size + len,
        old(state).bytes_size + len > u32::MAX ==> final(state).bytes_size == u32::MAX,
{
}

/// Bytes that are staged count as their length does.
pub proof fn law_staged_bytes_are_counted(
    state: &mut FlushingPolicyState,
    bytes: &[u8],
    r: (),
)
    requires
        call_ensures(FlushingPolicyState::register, (state, bytes), r),
    ensures
        old(state).bytes_count < u32::MAX ==> final(state).bytes_count == old(state).bytes_count
            + 1,
        old(state).bytes_size + bytes@.len() <= u32::MAX ==> final(state).bytes_size
            == old(state).bytes_size + bytes@.len(),
        old(state).bytes_size + bytes@.len() > u32::MAX ==> final(state).bytes_size == u32::MAX,
{
}

/// A flush is due exactly if one of the two counters has reached its limit. After the counters
/// were reset nothing counts.
pub proof fn law_flush_is_due_at_a_limit(
    state: FlushingPolicyState,
    policy: FlushingPolicy,
    r: bool,
)
    requires
        call_ensures(FlushingPolicyState::should_flush, (&state, &policy), r),
    ensures
        !r <==> state.bytes_count < policy.max_bytes_count && state.bytes_size
            < policy.max_bytes_size,
{
}

/// After a reset nothing is staged.
pub proof fn law_reset_counts_nothing(state: &mut FlushingPolicyState, r: ())
    requires
        call_ensures(FlushingPolicyState::reset, (state,), r),
    ensures
        final(state).bytes_count == 0 && final(state).bytes_size == 0,
{
}

/// A policy has the count that is asked for, or one of 64, and 64 MiB.
pub proof fn law_policy_has_the_count_asked_for(count: Option<u32>, r: FlushingPolicy)
    requires
        call_ensures(FlushingPolicy::with_count, (count,), r),
    ensures
        count matches Some(n) ==> r.max_bytes_count == n,
        count is None ==> r.max_bytes_count == 64,
        r.max_bytes_size == 64 * 1024 * 1024,
{
}

/// One round of the hash mixes the word in bit by bit and multiplies, without what does not
/// fit.
pub proof fn law_round_mixes_and_multiplies(multiplier: u64, state: u64, word: u64, next: u64)
    requires
        call_ensures(fnv_round, (multiplier, state, word), next),
    ensures
        next as int == ((state ^ word) as int * multiplier) % 0x1_0000_0000_0000_0000,
{
    let x = (state ^ word) as int * multiplier as int;
    assert(0 <= x) by (nonlinear_arith)
        requires
            x == (state ^ word) as int * multiplier as int,
    ;
    vstd::arithmetic::div_mod::lemma_mod_bound(x, 0x1_0000_0000_0000_0000);
}

} // verus!
