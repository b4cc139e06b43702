use cubecl_memory::cuda::meta_cache::{
    hash, report_due, Entry, MetaCache, MetaCacheMode, DEFAULT_CAPACITY,
};
use cubecl_memory::handle::Handle;
use cubecl_memory::memory::handle::HandleIds;
use cubecl_memory::settled::Settled;

/// A handle carrying nothing but an identity.
fn handle(size: u64) -> Handle {
    Handle::new(&HandleIds::new(), 0, size)
}

/// A payload and its own extension by zero bytes hash apart.
#[test]
fn hash_separates_lengths() {
    assert_ne!(hash(&[1, 2, 3]), hash(&[1, 2, 3, 0]));
    assert_ne!(hash(&[]), hash(&[0]));
}

#[test]
fn the_hash_is_fnv() {
    assert_eq!(hash(&[]), 0xcbf2_9ce4_8422_2325);
    assert_eq!(hash(&[1, 2, 3]), 0x5d96_cc27_99c5_4554);
    assert_eq!(hash(b"a"), 0xaf65_424c_8601_69b5);
}

#[test]
fn hash_is_deterministic() {
    let bytes: Vec<u8> = (0..208u16).map(|i| i as u8).collect();
    assert_eq!(hash(&bytes), hash(&bytes.clone()));
}

#[test]
fn a_hit_hands_back_the_buffer_that_holds_those_bytes() {
    let mut c = MetaCache::default();
    c.insert(&[1, 2, 3, 4], handle(11));
    c.insert(&[9, 9, 9, 9], handle(22));
    let hit = c
        .get(&[1, 2, 3, 4], MetaCacheMode::Eager, false)
        .expect("the payload was inserted");
    assert_eq!(hit.size(), 11, "a hit must name the buffer holding ITS bytes");
    assert!(c.get(&[7, 7], MetaCacheMode::Eager, false).is_none());
}

/// A hash match whose payload differs must be a miss, and not a handle to somebody else's
/// shapes.
#[test]
fn a_hash_match_with_different_bytes_is_a_miss() {
    let mut c = MetaCache::default();
    let probe: &[u8] = &[1, 2, 3, 4];
    // Planted directly: two payloads that really collide are not constructible by hand.
    c.entries.insert(
        hash(probe),
        Entry { bytes: vec![5, 6, 7, 8], handle: handle(33), last_used: 0, pinned: false },
    );
    assert!(c.get(probe, MetaCacheMode::Eager, false).is_none());
    // And the incumbent is left alone, so its own lookups still hit.
    assert_eq!(c.get(&[5, 6, 7, 8], MetaCacheMode::Eager, false).map(|h| h.size()), Some(33));
}

#[test]
fn off_never_looks_and_captures_is_what_lets_a_capture_look() {
    let mut c = MetaCache::default();
    c.insert(&[1, 2, 3, 4], handle(11));
    assert!(c.get(&[1, 2, 3, 4], MetaCacheMode::Off, false).is_none());
    assert!(c.get(&[1, 2, 3, 4], MetaCacheMode::Eager, true).is_none());
    assert!(c.get(&[1, 2, 3, 4], MetaCacheMode::Captures, true).is_some());
}

/// An entry handed out inside a capture has its address in a graph node, so eviction may not
/// take it however old it is.
#[test]
fn eviction_bounds_the_map_and_spares_what_a_graph_points_at() {
    let cap = DEFAULT_CAPACITY;
    let mut c = MetaCache::default();
    // The oldest entry, pinned by a capture, and one more that is not.
    c.insert(&[0, 0, 0, 1], handle(1));
    let _ = c.get(&[0, 0, 0, 1], MetaCacheMode::Captures, true);
    c.insert(&[0, 0, 0, 2], handle(2));
    for i in 0..(cap as u32 + 64) {
        c.insert(&i.to_le_bytes(), handle(100 + i as u64));
    }
    assert!(c.entries.len() <= cap, "the map grew past its bound: {} > {cap}", c.entries.len());
    assert!(
        c.get(&[0, 0, 0, 1], MetaCacheMode::Captures, true).is_some(),
        "a pinned entry was evicted, and a graph node still names its buffer"
    );
}

#[test]
fn modes_are_read_from_text() {
    for value in ["1", "on", "eager"] {
        assert_eq!(MetaCacheMode::from_value(Some(value)), MetaCacheMode::Eager);
    }
    for value in ["2", "capture", "captures"] {
        assert_eq!(MetaCacheMode::from_value(Some(value)), MetaCacheMode::Captures);
    }
    for value in [None, Some("0"), Some("off"), Some("ON")] {
        assert_eq!(MetaCacheMode::from_value(value), MetaCacheMode::Off);
    }
    assert!(!MetaCacheMode::Off.enabled());
    assert!(MetaCacheMode::Eager.enabled() && MetaCacheMode::Captures.enabled());
}

/// Eviction takes the least recently used entries, down to three quarters of the capacity.
#[test]
fn eviction_takes_the_oldest_first() {
    let mut c = MetaCache::with_capacity(4);
    for i in 0..4u8 {
        c.insert(&[i], handle(i as u64));
    }
    assert!(c.get(&[0], MetaCacheMode::Eager, false).is_some());
    c.insert(&[4], handle(4));
    assert_eq!(c.entries.len(), 3);
    assert_eq!(c.stats.evictions, 2);
    assert!(c.get(&[0], MetaCacheMode::Eager, false).is_some());
    assert!(c.get(&[1], MetaCacheMode::Eager, false).is_none());
    assert!(c.get(&[2], MetaCacheMode::Eager, false).is_none());
    assert!(c.get(&[3], MetaCacheMode::Eager, false).is_some());
    assert!(c.get(&[4], MetaCacheMode::Eager, false).is_some());
}

#[test]
fn lookups_are_counted() {
    let mut c = MetaCache::default();
    c.insert(&[1, 2], handle(1));
    c.get(&[1, 2], MetaCacheMode::Eager, false);
    c.get(&[3], MetaCacheMode::Eager, false);
    assert_eq!(c.stats.lookups, 2);
    assert_eq!(c.stats.hits, 1);
    assert_eq!(c.stats.misses, 1);
    assert_eq!(c.stats.bytes_saved, 2);
    assert_eq!(c.stats.inserts, 1);
    assert!(report_due(20, 10) && !report_due(21, 10) && !report_due(20, 0));
}

/// What the setting says first is the mode of the process.
#[test]
fn the_mode_is_read_once() {
    let mut kept = Settled::new();
    assert_eq!(
        MetaCacheMode::current(&mut kept, || Some("eager".to_string())),
        MetaCacheMode::Eager
    );
    assert_eq!(MetaCacheMode::current(&mut kept, || Some("2".to_string())), MetaCacheMode::Eager);
    let mut kept = Settled::new();
    assert_eq!(MetaCacheMode::current(&mut kept, || None), MetaCacheMode::Off);
    assert_eq!(MetaCacheMode::current(&mut kept, || Some("1".to_string())), MetaCacheMode::Off);
}

/// Bytes are found under the buffer they were last remembered with, unless a graph points at
/// the one before.
#[test]
fn the_last_insert_is_found() {
    let mut c = MetaCache::default();
    let size = |c: &mut MetaCache, bytes: &[u8], capture: bool| {
        c.get(bytes, MetaCacheMode::Captures, capture).map(|h| h.size())
    };
    c.insert(&[1], handle(10));
    c.insert(&[2], handle(20));
    c.insert(&[1], handle(11));
    assert_eq!(size(&mut c, &[1], false), Some(11));
    assert_eq!(size(&mut c, &[2], true), Some(20));
    c.insert(&[2], handle(21));
    assert_eq!(size(&mut c, &[2], false), Some(20));
    assert_eq!(size(&mut c, &[3], false), None);
}
