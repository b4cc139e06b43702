//! What host operations count for, and which of them are reported.

use vstd::prelude::*;

use crate::cuda::host_stall_trace::{
    enabled_value, finish, host_operation_snapshot, operations, span_for_trace, tracing,
    HostOperationSnapshot, Operation, Span, StallReport, Totals, Trace,
};
use crate::cuda::settings_laws::spelled;
use crate::settled::Settled;

verus! {

/// Every operation has totals and a name of its own, and all operations are listed in the order
/// of their totals.
pub proof fn law_operations_are_told_apart(
    a: Operation,
    b: Operation,
    x: usize,
    y: usize,
    all: [Operation; 9],
)
    requires
        call_ensures(Operation::index, (a,), x),
        call_ensures(Operation::index, (b,), y),
        call_ensures(operations, (), all),
    ensures
        x < 9,
        x == y <==> a == b,
        all@[x as int] == a,
{
}

/// The name of an operation says what it is.
pub proof fn law_operations_are_named(operation: Operation, name: &'static str)
    requires
        call_ensures(Operation::name, (operation,), name),
    ensures
        operation is CompileMiss ==> name@ == "compile_miss"@,
        operation is AllocAsync ==> name@ == "alloc_async"@,
        operation is AllocSync ==> name@ == "alloc_sync"@,
        operation is DropFlush ==> name@ == "drop_flush"@,
        operation is ReadbackEnqueue ==> name@ == "readback_enqueue"@,
        operation is ReadbackWait ==> name@ == "readback_wait"@,
        operation is EventWait ==> name@ == "event_wait"@,
        operation is KernelEnqueue ==> name@ == "kernel_enqueue"@,
        operation is CollectiveEnqueue ==> name@ == "collective_enqueue"@,
{
}

/// Whether totals have one more call of so many nanoseconds and bytes, as long as no counter
/// wraps around: whole microseconds count, and it is slow from a tenth of a second on.
pub open spec fn one_more_call(was: Totals, now: Totals, nanos: u128, bytes: u64) -> bool {
    &&& was.calls < u64::MAX ==> now.calls == was.calls + 1
    &&& was.slow_calls < u64::MAX ==> now.slow_calls == was.slow_calls + (if nanos >= 100 * 1000
        * 1000 {
        1int
    } else {
        0
    })
    &&& was.host_micros + nanos as int / 1000 <= u64::MAX ==> now.host_micros == was.host_micros
        + nanos as int / 1000
    &&& was.requested_bytes + bytes <= u64::MAX ==> now.requested_bytes == was.requested_bytes
        + bytes
}

/// A call counts as one, as slow if it took a tenth of a second, with its whole microseconds
/// and its bytes.
pub proof fn law_calls_are_counted(totals: &mut Totals, nanos: u128, bytes: u64, slow: bool)
    requires
        call_ensures(Totals::record, (totals, nanos, bytes), slow),
    ensures
        slow <==> nanos >= 100 * 1000 * 1000,
        one_more_call(*old(totals), *final(totals), nanos, bytes),
{
}

/// Only a slow operation is reported, with its own numbers and the totals that it is in. It is
/// counted for its own kind and for no other, and nothing is without a span.
pub proof fn law_slow_operations_are_reported<F: FnOnce() -> String>(
    trace: &mut Trace,
    span: Option<Span>,
    nanos: u128,
    details: F,
    r: Option<StallReport>,
    other: Operation,
    at: usize,
    elsewhere: usize,
)
    requires
        span is Some && nanos >= 100_000_000 ==> details.requires(()),
        call_ensures(finish::<F>, (trace, span, nanos, details), r),
        span is Some ==> call_ensures(Operation::index, ((span->0).operation,), at),
        call_ensures(Operation::index, (other,), elsewhere),
    ensures
        span is None ==> r is None && *final(trace) == *old(trace),
        span matches Some(span) ==> {
            &&& r is Some <==> nanos >= 100 * 1000 * 1000
            &&& one_more_call(
                old(trace).totals@[at as int],
                final(trace).totals@[at as int],
                nanos,
                span.bytes,
            )
            &&& other != span.operation ==> final(trace).totals@[elsewhere as int]
                == old(trace).totals@[elsewhere as int]
            &&& r matches Some(report) ==> {
                &&& report.operation == span.operation
                &&& report.elapsed_nanos == nanos
                &&& report.bytes == span.bytes
                &&& report.totals == final(trace).totals@[at as int]
                &&& details.ensures((), report.details)
            }
        },
{
}

/// A snapshot shows the totals of each operation under its name, all of them, and the moment
/// that it was taken at. There is none without a trace.
pub proof fn law_snapshot_shows_the_totals(
    trace: Option<&Trace>,
    pid: u32,
    unix_ms: Option<u128>,
    trace_ms: u128,
    r: Option<HostOperationSnapshot>,
    operation: Operation,
    at: usize,
    name: &'static str,
)
    requires
        call_ensures(host_operation_snapshot, (trace, pid, unix_ms, trace_ms), r),
        call_ensures(Operation::index, (operation,), at),
        call_ensures(Operation::name, (operation,), name),
    ensures
        r is Some <==> trace is Some,
        r matches Some(snapshot) ==> {
            let shown = snapshot.operations@[at as int];
            let totals = trace->0.totals@[at as int];
            &&& snapshot.pid == pid && snapshot.unix_ms == unix_ms && snapshot.trace_ms == trace_ms
            &&& shown.operation@ == name@
            &&& shown.calls_total == totals.calls
            &&& shown.slow_calls_total == totals.slow_calls
            &&& shown.host_micros_total == totals.host_micros
            &&& shown.requested_bytes_total == totals.requested_bytes
        },
{
    crate::cuda::host_stall_trace::law_operations_are_numbered(operation, operation, at as int);
}

/// Tracing is on exactly if its setting is the digit one.
pub proof fn law_tracing_takes_a_one(value: Option<&str>, r: bool)
    requires
        call_ensures(enabled_value, (value,), r),
    ensures
        r <==> spelled(value, seq!['1']),
{
    reveal_strlit("1");
    assert("1"@ =~= seq!['1']);
}

/// Whether tracing is on is settled where it is first asked: by the digit one, and for good.
pub proof fn law_tracing_is_settled_once<F: FnOnce() -> Option<String>>(
    kept: &mut Settled<bool>,
    read: F,
    r: bool,
)
    requires
        old(kept).kept is None ==> read.requires(()),
        call_ensures(tracing::<F>, (kept, read), r),
    ensures
        final(kept).kept == Some(r),
        old(kept).kept matches Some(on) ==> r == on,
        old(kept).kept is None ==> exists|value: Option<String>| #[trigger]
            read.ensures((), value) && (r <==> value is Some && (value->0)@ == seq!['1']),
{
    reveal_strlit("1");
    assert("1"@ =~= seq!['1']);
    if old(kept).kept is None {
        let value = choose|value: Option<String>| #[trigger]
            read.ensures((), value) && r == (value is Some && value->0@ == "1"@);
        assert(read.ensures((), value));
    }
}

/// An operation is timed exactly if there is a trace, as the operation that it is and with the
/// bytes that were requested, which are told again as they are.
pub proof fn law_operations_are_timed_in_a_trace<F: FnOnce() -> u64>(
    trace: Option<&Trace>,
    operation: Operation,
    bytes: F,
    r: Option<Span>,
    told: u64,
)
    requires
        trace is Some ==> bytes.requires(()),
        call_ensures(span_for_trace::<F>, (trace, operation, bytes), r),
        r is Some ==> call_ensures(Span::requested_bytes, (&r->0,), told),
    ensures
        r is Some <==> trace is Some,
        r matches Some(span) ==> span.operation == operation && bytes.ensures((), told),
{
}

} // verus!
