//! Opt-in host-operation diagnostics.
//!
//! Only completed operations taking at least 100 ms produce a report. Each report carries
//! process-wide totals for that operation, including faster calls, so silence does not
//! mean no allocations or compilation misses. Allocation bytes count requests (including
//! failed ones), not resident memory.
//!
//! These are host durations around existing calls. Allocation, read-back and event waits
//! may include prior work of the device; they are not execution times of it or proof of
//! a cause. Totals can overlap across threads and nested operations.

use vstd::prelude::*;

use crate::settled::Settled;
use crate::text::same_text;

verus! {

/// From how many nanoseconds on an operation is slow: 100 ms.
pub const THRESHOLD_NANOS: u128 = 100_000_000;

/// How many kinds of operation there are.
pub const OPERATION_COUNT: usize = 9;

/// A kind of host operation.
#[derive(Clone, Copy, Debug, PartialEq, Eq, Structural)]
pub enum Operation {
    CompileMiss,
    AllocAsync,
    AllocSync,
    DropFlush,
    ReadbackEnqueue,
    ReadbackWait,
    EventWait,
    KernelEnqueue,
    CollectiveEnqueue,
}

impl Operation {
    /// Where the totals of the operation stand.
    pub open spec fn at(self) -> int {
        match self {
            Operation::CompileMiss => 0,
            Operation::AllocAsync => 1,
            Operation::AllocSync => 2,
            Operation::DropFlush => 3,
            Operation::ReadbackEnqueue => 4,
            Operation::ReadbackWait => 5,
            Operation::EventWait => 6,
            Operation::KernelEnqueue => 7,
            Operation::CollectiveEnqueue => 8,
        }
    }

    /// What the operation is called.
    pub open spec fn called(self) -> Seq<char> {
        match self {
            Operation::CompileMiss => "compile_miss"@,
            Operation::AllocAsync => "alloc_async"@,
            Operation::AllocSync => "alloc_sync"@,
            Operation::DropFlush => "drop_flush"@,
            Operation::ReadbackEnqueue => "readback_enqueue"@,
            Operation::ReadbackWait => "readback_wait"@,
            Operation::EventWait => "event_wait"@,
            Operation::KernelEnqueue => "kernel_enqueue"@,
            Operation::CollectiveEnqueue => "collective_enqueue"@,
        }
    }

    /// Where the totals of the operation stand.
    pub fn index(self) -> (r: usize)
        ensures
            r == self.at(),
            r < OPERATION_COUNT,
    {
        match self {
            Operation::CompileMiss => 0,
            Operation::AllocAsync => 1,
            Operation::AllocSync => 2,
            Operation::DropFlush => 3,
            Operation::ReadbackEnqueue => 4,
            Operation::ReadbackWait => 5,
            Operation::EventWait => 6,
            Operation::KernelEnqueue => 7,
            Operation::CollectiveEnqueue => 8,
        }
    }

    /// What the operation is called.
    pub fn name(self) -> (r: &'static str)
        ensures
            r@ == self.called(),
    {
        match self {
            Operation::CompileMiss => "compile_miss",
            Operation::AllocAsync => "alloc_async",
            Operation::AllocSync => "alloc_sync",
            Operation::DropFlush => "drop_flush",
            Operation::ReadbackEnqueue => "readback_enqueue",
            Operation::ReadbackWait => "readback_wait",
            Operation::EventWait => "event_wait",
            Operation::KernelEnqueue => "kernel_enqueue",
            Operation::CollectiveEnqueue => "collective_enqueue",
        }
    }
}

/// The operation whose totals stand at an index.
pub open spec fn operation_at(i: int) -> Operation {
    if i == 0 {
        Operation::CompileMiss
    } else if i == 1 {
        Operation::AllocAsync
    } else if i == 2 {
        Operation::AllocSync
    } else if i == 3 {
        Operation::DropFlush
    } else if i == 4 {
        Operation::ReadbackEnqueue
    } else if i == 5 {
        Operation::ReadbackWait
    } else if i == 6 {
        Operation::EventWait
    } else if i == 7 {
        Operation::KernelEnqueue
    } else {
        Operation::CollectiveEnqueue
    }
}

/// Every operation has totals of its own, and there are no others.
pub proof fn law_operations_are_numbered(a: Operation, b: Operation, i: int)
    requires
        0 <= i < OPERATION_COUNT,
    ensures
        a.at() == b.at() ==> a == b,
        operation_at(a.at()) == a,
        operation_at(i).at() == i,
{
}

/// All operations, in the order of their totals.
pub fn operations() -> (r: [Operation; OPERATION_COUNT])
    ensures
        forall|i: int| 0 <= i < OPERATION_COUNT ==> (#[trigger] r@[i]) == operation_at(i),
{
    [
        Operation::CompileMiss,
        Operation::AllocAsync,
        Operation::AllocSync,
        Operation::DropFlush,
        Operation::ReadbackEnqueue,
        Operation::ReadbackWait,
        Operation::EventWait,
        Operation::KernelEnqueue,
        Operation::CollectiveEnqueue,
    ]
}

/// Cumulative counters of one operation. They wrap around.
#[derive(Clone, Copy, Debug, PartialEq, Eq)]
pub struct Totals {
    pub calls: u64,
    pub slow_calls: u64,
    pub host_micros: u64,
    pub requested_bytes: u64,
}

impl Default for Totals {
    fn default() -> (r: Self)
        ensures
            r == no_calls(),
    {
        Totals { calls: 0, slow_calls: 0, host_micros: 0, requested_bytes: 0 }
    }
}

/// The counters before any call.
pub open spec fn no_calls() -> Totals {
    Totals { calls: 0, slow_calls: 0, host_micros: 0, requested_bytes: 0 }
}

/// A counter after `n` was added to it.
pub open spec fn bumped(counter: u64, n: int) -> u64 {
    ((counter + n) % 0x1_0000_0000_0000_0000) as u64
}

/// Whether an operation that took so long is slow.
pub open spec fn is_slow(elapsed_nanos: u128) -> bool {
    elapsed_nanos >= THRESHOLD_NANOS
}

/// The microseconds that a duration counts for.
pub open spec fn counted_micros(elapsed_nanos: u128) -> int {
    if elapsed_nanos / 1000 > u64::MAX {
        u64::MAX as int
    } else {
        (elapsed_nanos / 1000) as int
    }
}

/// The counters after one more call.
pub open spec fn with_call(totals: Totals, elapsed_nanos: u128, bytes: u64) -> Totals {
    Totals {
        calls: bumped(totals.calls, 1),
        slow_calls: if is_slow(elapsed_nanos) {
            bumped(totals.slow_calls, 1)
        } else {
            totals.slow_calls
        },
        host_micros: bumped(totals.host_micros, counted_micros(elapsed_nanos)),
        requested_bytes: bumped(totals.requested_bytes, bytes as int),
    }
}

/// A completed call: which operation, how long it took, and the bytes that it requested.
pub struct Completed {
    pub operation: Operation,
    pub elapsed_nanos: u128,
    pub bytes: u64,
}

/// The counters of all operations after completed calls, one after another.
pub open spec fn after_calls(totals: Seq<Totals>, calls: Seq<Completed>) -> Seq<Totals>
    decreases calls.len(),
{
    if calls.len() == 0 {
        totals
    } else {
        let before = after_calls(totals, calls.drop_last());
        let call = calls.last();
        let at = call.operation.at();
        before.update(at, with_call(before[at], call.elapsed_nanos, call.bytes))
    }
}

/// Whether one more call makes no counter wrap around.
pub open spec fn has_room(totals: Totals, elapsed_nanos: u128, bytes: u64) -> bool {
    &&& totals.calls < u64::MAX
    &&& totals.slow_calls < u64::MAX
    &&& totals.host_micros + counted_micros(elapsed_nanos) <= u64::MAX
    &&& totals.requested_bytes + bytes <= u64::MAX
}

/// Whether no counter is smaller than another time.
pub open spec fn no_less(later: Totals, earlier: Totals) -> bool {
    &&& later.calls >= earlier.calls
    &&& later.slow_calls >= earlier.slow_calls
    &&& later.host_micros >= earlier.host_micros
    &&& later.requested_bytes >= earlier.requested_bytes
}

/// A later snapshot never shows a smaller total than an earlier one, as long as no counter
/// wraps around: calls only add to the totals, and reading them resets nothing.
pub proof fn law_totals_never_shrink(
    totals: Seq<Totals>,
    calls: Seq<Completed>,
    earlier: int,
    later: int,
    i: int,
)
    requires
        totals.len() == OPERATION_COUNT,
        0 <= earlier <= later <= calls.len(),
        0 <= i < OPERATION_COUNT,
        forall|t: int|
            0 <= t < calls.len() ==> has_room(
                after_calls(totals, calls.take(t))[(#[trigger] calls[t]).operation.at()],
                calls[t].elapsed_nanos,
                calls[t].bytes,
            ),
    ensures
        after_calls(totals, calls.take(later)).len() == OPERATION_COUNT,
        no_less(
            after_calls(totals, calls.take(later))[i],
            after_calls(totals, calls.take(earlier))[i],
        ),
    decreases later,
{
    if later > 0 {
        let prefix = calls.take(later);
        assert(prefix.drop_last() =~= calls.take(later - 1));
        assert(prefix.last() == calls[later - 1]);
        law_totals_never_shrink(
            totals,
            calls,
            if earlier < later {
                earlier
            } else {
                later - 1
            },
            later - 1,
            i,
        );
    } else {
        assert(calls.take(0) =~= Seq::<Completed>::empty());
    }
}

impl Totals {
    /// Counts one call, and says whether it was slow.
    pub fn record(&mut self, elapsed_nanos: u128, bytes: u64) -> (slow: bool)
        ensures
            slow == is_slow(elapsed_nanos),
            *final(self) == with_call(*old(self), elapsed_nanos, bytes),
    {
        let micros: u128 = elapsed_nanos / 1000;
        let counted: u64 = if micros > u64::MAX as u128 {
            u64::MAX
        } else {
            micros as u64
        };
        self.calls = self.calls.wrapping_add(1);
        self.host_micros = self.host_micros.wrapping_add(counted);
        self.requested_bytes = self.requested_bytes.wrapping_add(bytes);
        let slow: bool = elapsed_nanos >= THRESHOLD_NANOS;
        if slow {
            self.slow_calls = self.slow_calls.wrapping_add(1);
        }
        slow
    }
}

/// The counters of all operations.
#[derive(Clone, Copy, Debug, PartialEq, Eq)]
pub struct Trace {
    pub totals: [Totals; OPERATION_COUNT],
}

impl Default for Trace {
    fn default() -> (r: Self)
        ensures
            forall|i: int| 0 <= i < OPERATION_COUNT ==> (#[trigger] r.totals@[i]) == no_calls(),
    {
        let none: Totals = Totals { calls: 0, slow_calls: 0, host_micros: 0, requested_bytes: 0 };
        Trace { totals: [none, none, none, none, none, none, none, none, none] }
    }
}

/// Cumulative counters for one kind of completed host call.
///
/// Requested bytes include failed requests and are not resident bytes. Durations can
/// include prior work of the device and overlap other operations.
#[derive(Clone, Debug, PartialEq, Eq)]
pub struct HostOperationCounters {
    pub operation: &'static str,
    pub calls_total: u64,
    pub slow_calls_total: u64,
    pub host_micros_total: u64,
    pub requested_bytes_total: u64,
}

/// Process-wide host counters, including calls below the 100 ms threshold. Calls still in
/// progress are not recorded.
#[derive(Clone, Debug, PartialEq, Eq)]
pub struct HostOperationSnapshot {
    pub pid: u32,
    /// Wall-clock milliseconds since the Unix epoch, if the clock permits it.
    pub unix_ms: Option<u128>,
    /// Monotonic milliseconds since this process initialized host tracing.
    pub trace_ms: u128,
    pub operations: [HostOperationCounters; OPERATION_COUNT],
}

/// Whether counters read as an operation's totals.
pub open spec fn reads(
    counters: HostOperationCounters,
    operation: Operation,
    totals: Totals,
) -> bool {
    &&& counters.operation@ == operation.called()
    &&& counters.calls_total == totals.calls
    &&& counters.slow_calls_total == totals.slow_calls
    &&& counters.host_micros_total == totals.host_micros
    &&& counters.requested_bytes_total == totals.requested_bytes
}

/// The counters of one operation, by its name.
fn counters_of(trace: &Trace, operation: Operation) -> (r: HostOperationCounters)
    ensures
        reads(r, operation, trace.totals@[operation.at()]),
{
    let totals: Totals = trace.totals[operation.index()];
    HostOperationCounters {
        operation: operation.name(),
        calls_total: totals.calls,
        slow_calls_total: totals.slow_calls,
        host_micros_total: totals.host_micros,
        requested_bytes_total: totals.requested_bytes,
    }
}

/// Reads the counters of a trace, every operation once, in the order of their totals, at a
/// moment in a process. Without a trace there is nothing to read. Nothing is reset.
pub fn host_operation_snapshot(
    trace: Option<&Trace>,
    pid: u32,
    unix_ms: Option<u128>,
    trace_ms: u128,
) -> (r: Option<HostOperationSnapshot>)
    ensures
        r is Some <==> trace is Some,
        r matches Some(snapshot) ==> {
            &&& snapshot.pid == pid
            &&& snapshot.unix_ms == unix_ms
            &&& snapshot.trace_ms == trace_ms
            &&& forall|i: int|
                0 <= i < OPERATION_COUNT ==> reads(
                    #[trigger] snapshot.operations@[i],
                    operation_at(i),
                    trace->0.totals@[i],
                )
        },
{
    match trace {
        Some(trace) => {
            let operations = [
                counters_of(trace, Operation::CompileMiss),
                counters_of(trace, Operation::AllocAsync),
                counters_of(trace, Operation::AllocSync),
                counters_of(trace, Operation::DropFlush),
                counters_of(trace, Operation::ReadbackEnqueue),
                counters_of(trace, Operation::ReadbackWait),
                counters_of(trace, Operation::EventWait),
                counters_of(trace, Operation::KernelEnqueue),
                counters_of(trace, Operation::CollectiveEnqueue),
            ];
            Some(HostOperationSnapshot { pid, unix_ms, trace_ms, operations })
        },
        None => None,
    }
}

/// An operation under way.
#[derive(Clone, Copy, Debug, PartialEq, Eq)]
pub struct Span {
    pub operation: Operation,
    pub bytes: u64,
}

impl Span {
    /// The bytes that were requested.
    pub fn requested_bytes(&self) -> (r: u64)
        ensures
            r == self.bytes,
    {
        self.bytes
    }
}

/// Whether a setting turns tracing on: only `1` does.
pub fn enabled_value(value: Option<&str>) -> (r: bool)
    ensures
        r == (value is Some && value->0@ == "1"@),
{
    match value {
        Some(value) => same_text(value, "1"),
        None => false,
    }
}

/// Whether tracing is on in a process: what the setting says where it is read first. Whatever
/// it says later, that stays.
pub fn tracing<F: FnOnce() -> Option<String>>(kept: &mut Settled<bool>, read: F) -> (r: bool)
    requires
        old(kept).kept is None ==> read.requires(()),
    ensures
        match old(kept).kept {
            Some(on) => r == on,
            None => {
                &&& exists|value: Option<String>| #[trigger]
                    read.ensures((), value) && r == (value is Some && value->0@ == "1"@)
            },
        },
        *final(kept) == old(kept).asked(r),
{
    match kept.kept {
        Some(on) => on,
        None => {
            let value: Option<String> = read();
            let on: bool = match &value {
                Some(v) => enabled_value(Some(v.as_str())),
                None => enabled_value(None),
            };
            kept.kept = Some(on);
            on
        },
    }
}

/// Begins an operation. What was requested is computed only where there is a trace.
pub fn span_for_trace<F: FnOnce() -> u64>(
    trace: Option<&Trace>,
    operation: Operation,
    bytes: F,
) -> (r: Option<Span>)
    requires
        trace is Some ==> bytes.requires(()),
    ensures
        r is Some <==> trace is Some,
        r matches Some(span) ==> span.operation == operation && bytes.ensures((), span.bytes),
{
    match trace {
        Some(_) => Some(Span { operation, bytes: bytes() }),
        None => None,
    }
}

/// What there is to say of a slow operation.
#[derive(Clone, Debug, PartialEq, Eq)]
pub struct StallReport {
    pub operation: Operation,
    pub elapsed_nanos: u128,
    pub bytes: u64,
    /// The counters of the operation, with this call.
    pub totals: Totals,
    pub details: String,
}

/// Ends an operation: counts it, and reports it if it was slow. The details are computed
/// only for a report.
pub fn finish<F: FnOnce() -> String>(
    trace: &mut Trace,
    span: Option<Span>,
    elapsed_nanos: u128,
    details: F,
) -> (r: Option<StallReport>)
    requires
        span is Some && is_slow(elapsed_nanos) ==> details.requires(()),
    ensures
        span is None ==> r is None && *final(trace) == *old(trace),
        span matches Some(span) ==> {
            let after = with_call(
                old(trace).totals@[span.operation.at()],
                elapsed_nanos,
                span.bytes,
            );
            &&& final(trace).totals@ == old(trace).totals@.update(span.operation.at(), after)
            &&& r is Some <==> is_slow(elapsed_nanos)
            &&& r matches Some(report) ==> {
                &&& report.operation == span.operation
                &&& report.elapsed_nanos == elapsed_nanos
                &&& report.bytes == span.bytes
                &&& report.totals == after
                &&& details.ensures((), report.details)
            }
        },
{
    match span {
        None => None,
        Some(span) => {
            let at: usize = span.operation.index();
            let mut totals: Totals = trace.totals[at];
            let slow: bool = totals.record(elapsed_nanos, span.bytes);
            trace.totals[at] = totals;
            if slow {
                Some(
                    StallReport {
                        operation: span.operation,
                        elapsed_nanos,
                        bytes: span.bytes,
                        totals,
                        details: details(),
                    },
                )
            } else {
                None
            }
        },
    }
}

} // verus!
