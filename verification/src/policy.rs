//! When staged allocations are let go.

use vstd::prelude::*;

verus! {

/// How many staged allocations trigger a flush, unless told otherwise.
pub const DEFAULT_BYTES_COUNT: u32 = 64;

/// How many staged bytes trigger a flush: 64 MiB.
pub const DEFAULT_BYTES_SIZE: u32 = 67_108_864;

/// Defines the thresholds that determine when a queue of staged allocations should be
/// flushed.
///
/// A flush is triggered when either limit is reached, whichever comes first. Set a field
/// to `u32::MAX` to effectively disable it.
#[derive(Clone, Copy, Debug)]
pub struct FlushingPolicy {
    /// Flush when this many allocations have been staged.
    pub max_bytes_count: u32,
    /// Flush when the total staged size reaches this many bytes.
    pub max_bytes_size: u32,
}

impl FlushingPolicy {
    /// The default policy, with another count where one is given.
    pub fn with_count(count: Option<u32>) -> (r: Self)
        ensures
            r.max_bytes_count == (match count {
                Some(count) => count,
                None => DEFAULT_BYTES_COUNT,
            }),
            r.max_bytes_size == DEFAULT_BYTES_SIZE,
    {
        FlushingPolicy {
            max_bytes_count: match count {
                Some(count) => count,
                None => DEFAULT_BYTES_COUNT,
            },
            max_bytes_size: DEFAULT_BYTES_SIZE,
        }
    }
}

impl Default for FlushingPolicy {
    fn default() -> (r: Self)
        ensures
            r.max_bytes_count == DEFAULT_BYTES_COUNT,
            r.max_bytes_size == DEFAULT_BYTES_SIZE,
    {
        FlushingPolicy::with_count(None)
    }
}

/// Tracks staged allocations and evaluates them against a [`FlushingPolicy`].
#[derive(Clone, Copy, Debug)]
pub struct FlushingPolicyState {
    /// How many allocations are staged.
    pub bytes_count: u32,
    /// How many bytes they have.
    pub bytes_size: u32,
}

impl Default for FlushingPolicyState {
    fn default() -> (r: Self)
        ensures
            r.bytes_count == 0,
            r.bytes_size == 0,
    {
        FlushingPolicyState { bytes_count: 0, bytes_size: 0 }
    }
}

/// A sum, as far as 32 bits hold it.
pub open spec fn saturated(sum: int) -> u32 {
    if sum <= u32::MAX {
        sum as u32
    } else {
        u32::MAX
    }
}

impl FlushingPolicyState {
    /// The counters after one more allocation was staged. A counter that is full stays full,
    /// so that no threshold that was reached is ever missed.
    pub open spec fn with_staged(self, len: nat) -> FlushingPolicyState {
        FlushingPolicyState {
            bytes_count: saturated(self.bytes_count + 1),
            bytes_size: saturated(self.bytes_size + len),
        }
    }

    /// Record a newly staged allocation.
    pub fn register(&mut self, bytes: &[u8])
        ensures
            *final(self) == old(self).with_staged(bytes@.len()),
    {
        self.register_len(bytes.len());
    }

    /// Record a newly staged allocation of so many bytes.
    pub fn register_len(&mut self, len: usize)
        ensures
            *final(self) == old(self).with_staged(len as nat),
    {
        if self.bytes_count < u32::MAX {
            self.bytes_count = self.bytes_count + 1;
        }
        let room: u32 = u32::MAX - self.bytes_size;
        if len as u64 <= room as u64 {
            self.bytes_size = self.bytes_size + len as u32;
        } else {
            self.bytes_size = u32::MAX;
        }
    }

    /// Reset all counters, typically called after a flush.
    pub fn reset(&mut self)
        ensures
            final(self).bytes_count == 0,
            final(self).bytes_size == 0,
    {
        self.bytes_count = 0;
        self.bytes_size = 0;
    }

    /// Whether either threshold has been reached.
    pub open spec fn flushes(self, policy: FlushingPolicy) -> bool {
        self.bytes_count >= policy.max_bytes_count || self.bytes_size >= policy.max_bytes_size
    }

    /// Returns `true` if either threshold in `policy` has been reached.
    pub fn should_flush(&self, policy: &FlushingPolicy) -> (r: bool)
        ensures
            r == self.flushes(*policy),
    {
        self.bytes_count >= policy.max_bytes_count || self.bytes_size >= policy.max_bytes_size
    }
}

/// A flush that is due stays due, whatever else is staged before it.
pub proof fn law_due_stays_due(state: FlushingPolicyState, len: nat, policy: FlushingPolicy)
    requires
        state.flushes(policy),
    ensures
        state.with_staged(len).flushes(policy),
{
}

/// The counters after allocations of these lengths were staged.
pub open spec fn staged(lens: Seq<nat>) -> FlushingPolicyState
    decreases lens.len(),
{
    if lens.len() == 0 {
        FlushingPolicyState { bytes_count: 0, bytes_size: 0 }
    } else {
        staged(lens.drop_last()).with_staged(lens.last())
    }
}

/// The sum of lengths.
pub open spec fn total(lens: Seq<nat>) -> nat
    decreases lens.len(),
{
    if lens.len() == 0 {
        0
    } else {
        total(lens.drop_last()) + lens.last()
    }
}

/// A flush is due exactly when as many allocations have been staged as the policy says, or
/// their total size has reached what it says, however large they are.
pub proof fn law_flush_is_due_at_either_limit(lens: Seq<nat>, policy: FlushingPolicy)
    ensures
        staged(lens).flushes(policy) <==> (lens.len() >= policy.max_bytes_count || total(lens)
            >= policy.max_bytes_size),
{
    lemma_staged(lens);
}

proof fn lemma_staged(lens: Seq<nat>)
    ensures
        staged(lens).bytes_count == saturated(lens.len() as int),
        staged(lens).bytes_size == saturated(total(lens) as int),
    decreases lens.len(),
{
    if lens.len() > 0 {
        lemma_staged(lens.drop_last());
    }
}

/// With nothing staged no flush is due, as long as neither threshold is zero.
pub proof fn law_nothing_staged_is_not_due(state: FlushingPolicyState, policy: FlushingPolicy)
    requires
        state.bytes_count == 0,
        state.bytes_size == 0,
        policy.max_bytes_count > 0,
        policy.max_bytes_size > 0,
    ensures
        !state.flushes(policy),
{
}

} // verus!
