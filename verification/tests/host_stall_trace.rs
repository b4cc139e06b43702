use cubecl_memory::cuda::host_stall_trace::{
    enabled_value, finish, host_operation_snapshot, operations, span_for_trace, tracing,
    HostOperationCounters, Operation, Totals, Trace, OPERATION_COUNT, THRESHOLD_NANOS,
};

use cubecl_memory::settled::Settled;

const MICROS: u128 = 1_000;
const MILLIS: u128 = 1_000_000;
const SECONDS: u128 = 1_000_000_000;

fn totals() -> [Totals; OPERATION_COUNT] {
    Trace::default().totals
}

#[test]
fn tracing_requires_explicit_opt_in() {
    assert!(enabled_value(Some("1")));
    for value in [None, Some(""), Some("0"), Some("false"), Some("garbage")] {
        assert!(!enabled_value(value));
    }
}

#[test]
fn totals_include_fast_calls_and_only_report_at_the_threshold() {
    let mut totals = Totals::default();
    assert!(!totals.record(99 * MILLIS, 1024));
    assert!(totals.record(100 * MILLIS, 2048));
    assert!(totals.record(101 * MILLIS, 4096));
    assert_eq!(totals.calls, 3);
    assert_eq!(totals.slow_calls, 2);
    assert_eq!(totals.host_micros, 300_000);
    assert_eq!(totals.requested_bytes, 7168);
}

#[test]
fn operation_totals_are_separate() {
    let mut totals = totals();
    totals[Operation::AllocAsync.index()].record(THRESHOLD_NANOS, 512);
    for operation in [
        Operation::CompileMiss,
        Operation::AllocSync,
        Operation::DropFlush,
        Operation::ReadbackEnqueue,
        Operation::ReadbackWait,
        Operation::EventWait,
        Operation::KernelEnqueue,
        Operation::CollectiveEnqueue,
    ] {
        assert_eq!(totals[operation.index()].calls, 0);
    }
}

#[test]
fn readback_wait_totals_are_not_enqueue_or_generic_event_totals() {
    let mut totals = totals();
    let readback = &mut totals[Operation::ReadbackWait.index()];
    assert!(!readback.record(20 * MILLIS, 4096));
    assert!(readback.record(29 * SECONDS, 4096));
    assert_eq!(readback.calls, 2);
    assert_eq!(readback.slow_calls, 1);
    assert_eq!(readback.host_micros, 29_020_000);
    assert_eq!(readback.requested_bytes, 8192);
    for operation in [
        Operation::ReadbackEnqueue,
        Operation::EventWait,
        Operation::KernelEnqueue,
        Operation::CollectiveEnqueue,
    ] {
        assert_eq!(totals[operation.index()].calls, 0);
    }
}

#[test]
fn disabled_tracing_does_not_format_details() {
    let mut trace = Trace::default();
    let report = finish(&mut trace, None, 0, || panic!("disabled trace formatted its details"));
    assert!(report.is_none());
}

#[test]
fn disabled_tracing_does_not_count_request_bytes() {
    assert!(span_for_trace(None, Operation::ReadbackEnqueue, || {
        panic!("disabled trace evaluated request metadata")
    })
    .is_none());
}

#[test]
fn disabled_snapshot_is_absent() {
    assert!(host_operation_snapshot(None, 1, None, 0).is_none());
}

#[test]
fn snapshot_exposes_fast_calls_and_zeroes_without_resetting() {
    let mut trace = Trace::default();
    let initial = host_operation_snapshot(Some(&trace), 77, Some(5), 6).unwrap();
    assert_eq!(initial.pid, 77);
    assert!(initial.operations.iter().all(|op| op.calls_total == 0
        && op.slow_calls_total == 0
        && op.host_micros_total == 0
        && op.requested_bytes_total == 0));

    let allocation = &mut trace.totals[Operation::AllocAsync.index()];
    assert!(!allocation.record(250 * MICROS, 1024));
    assert!(!allocation.record(750 * MICROS, 2048));
    let snapshot = host_operation_snapshot(Some(&trace), 77, Some(5), 6).unwrap();
    let expected = HostOperationCounters {
        operation: "alloc_async",
        calls_total: 2,
        slow_calls_total: 0,
        host_micros_total: 1000,
        requested_bytes_total: 3072,
    };
    assert_eq!(snapshot.operations[Operation::AllocAsync.index()], expected);
    assert_eq!(
        host_operation_snapshot(Some(&trace), 77, Some(5), 6).unwrap().operations,
        snapshot.operations
    );
    assert!(snapshot
        .operations
        .iter()
        .filter(|op| op.operation != "alloc_async")
        .all(|op| op.calls_total == 0 && op.requested_bytes_total == 0));

    assert!(trace.totals[Operation::AllocAsync.index()].record(THRESHOLD_NANOS, 4096));
    let later = host_operation_snapshot(Some(&trace), 77, Some(5), 6).unwrap();
    assert_eq!(
        later.operations[Operation::AllocAsync.index()],
        HostOperationCounters {
            operation: "alloc_async",
            calls_total: 3,
            slow_calls_total: 1,
            host_micros_total: 101_000,
            requested_bytes_total: 7168,
        }
    );
    assert_eq!(snapshot.operations[Operation::AllocAsync.index()], expected);
}

#[test]
fn snapshot_enumerates_each_operation_once_in_counter_order() {
    for (index, operation) in operations().into_iter().enumerate() {
        assert_eq!(operation.index(), index);
    }
    let trace = Trace::default();
    let snapshot = host_operation_snapshot(Some(&trace), 77, None, 0).unwrap();
    assert_eq!(
        snapshot.operations.map(|op| op.operation),
        [
            "compile_miss",
            "alloc_async",
            "alloc_sync",
            "drop_flush",
            "readback_enqueue",
            "readback_wait",
            "event_wait",
            "kernel_enqueue",
            "collective_enqueue",
        ]
    );
}

#[test]
fn a_slow_operation_is_reported_with_its_totals() {
    let mut trace = Trace::default();
    let span = span_for_trace(Some(&trace), Operation::EventWait, || 12);
    assert_eq!(span.as_ref().map(|span| span.requested_bytes()), Some(12));
    let fast = finish(&mut trace, span, 99 * MILLIS, || "fast".to_string());
    assert!(fast.is_none());
    let span = span_for_trace(Some(&trace), Operation::EventWait, || 30);
    let slow = finish(&mut trace, span, 250 * MILLIS, || "slow".to_string()).unwrap();
    assert_eq!(slow.operation.name(), "event_wait");
    assert_eq!(slow.bytes, 30);
    assert_eq!(slow.details, "slow");
    assert_eq!(slow.totals.calls, 2);
    assert_eq!(slow.totals.slow_calls, 1);
    assert_eq!(slow.totals.requested_bytes, 42);
    assert_eq!(slow.totals.host_micros, 349_000);
}

/// What the flag says first is what it says.
#[test]
fn the_flag_is_read_once() {
    let mut kept = Settled::new();
    assert!(tracing(&mut kept, || Some("1".to_string())));
    assert!(tracing(&mut kept, || panic!("read again")));
    let mut kept = Settled::new();
    assert!(!tracing(&mut kept, || None));
    assert!(!tracing(&mut kept, || Some("1".to_string())));
}

#[test]
fn later_snapshots_show_no_less() {
    let mut trace = Trace::default();
    let mut calls = Vec::new();
    for round in 0..3u64 {
        let span = span_for_trace(Some(&trace), Operation::DropFlush, || 10 * round);
        finish(&mut trace, span, 200 * MILLIS, || "late".to_string());
        let snapshot = host_operation_snapshot(Some(&trace), 1, None, 0).unwrap();
        let counters = &snapshot.operations[Operation::DropFlush.index()];
        calls.push((
            counters.calls_total,
            counters.slow_calls_total,
            counters.host_micros_total,
            counters.requested_bytes_total,
        ));
    }
    assert_eq!(calls, vec![(1, 1, 200_000, 0), (2, 2, 400_000, 10), (3, 3, 600_000, 30)]);
}
