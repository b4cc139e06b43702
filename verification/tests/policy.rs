use cubecl_memory::policy::{FlushingPolicy, FlushingPolicyState};

fn policy() -> FlushingPolicy {
    FlushingPolicy { max_bytes_count: 4, max_bytes_size: 100 }
}

fn state() -> FlushingPolicyState {
    FlushingPolicyState { bytes_count: 0, bytes_size: 0 }
}

#[test]
fn no_flush_when_below_both_thresholds() {
    let s = state();
    assert!(!s.should_flush(&policy()));
}

#[test]
fn flush_when_count_threshold_reached() {
    let mut s = state();
    for _ in 0..4 {
        s.register(&vec![0u8]);
    }
    assert!(s.should_flush(&policy()));
}

#[test]
fn flush_when_size_threshold_reached() {
    let mut s = state();
    s.register(&vec![0u8; 101]);
    assert!(s.should_flush(&policy()));
}

#[test]
fn flush_triggered_by_whichever_limit_comes_first() {
    let mut s = state();
    // Only 2 allocations but already over the size limit.
    s.register(&vec![0u8; 60]);
    s.register(&vec![0u8; 60]);
    assert!(s.should_flush(&policy()));
}

#[test]
fn reset_clears_state() {
    let mut s = state();
    for _ in 0..4 {
        s.register(&vec![0u8]);
    }
    assert!(s.should_flush(&policy()));
    s.reset();
    assert!(!s.should_flush(&policy()));
}

#[test]
fn the_limits_themselves_flush() {
    let mut s = state();
    for _ in 0..3 {
        s.register_len(33);
    }
    assert!(!s.should_flush(&policy()));
    assert_eq!((s.bytes_count, s.bytes_size), (3, 99));
    s.register_len(1);
    assert!(s.should_flush(&policy()));
}

/// A single allocation past what a counter holds reaches every limit.
#[test]
fn large_allocations_are_not_missed() {
    let limit = FlushingPolicy { max_bytes_count: u32::MAX, max_bytes_size: 64 * 1024 * 1024 };
    let mut s = state();
    s.register_len(4 * 1024 * 1024 * 1024);
    assert_eq!((s.bytes_count, s.bytes_size), (1, u32::MAX));
    assert!(s.should_flush(&limit));
    s.register_len(1);
    assert_eq!((s.bytes_count, s.bytes_size), (2, u32::MAX));
    let mut full = FlushingPolicyState { bytes_count: u32::MAX, bytes_size: 7 };
    full.register_len(3);
    assert_eq!((full.bytes_count, full.bytes_size), (u32::MAX, 10));
}

#[test]
fn the_default_policy_is_sixty_four_of_each() {
    let policy = FlushingPolicy::default();
    assert_eq!(policy.max_bytes_count, 64);
    assert_eq!(policy.max_bytes_size, 64 * 1024 * 1024);
}
