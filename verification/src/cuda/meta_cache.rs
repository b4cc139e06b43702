//! The cache of per-launch dynamic metadata.
//!
//! A launch's packed argument blob is two things end to end. The second of them, the shape
//! and stride list of every bound tensor, has no fixed size and goes to the device in a
//! buffer of its own. Where some device buffer already holds exactly those bytes, binding
//! that buffer spares the upload.
//!
//! The key is the bytes themselves. The map is indexed by a cheap hash of them, and every
//! entry keeps the full bytes alongside, so that a collision is caught rather than
//! trusted: a silently wrong shape list is a silently wrong kernel.
//!
//! Nothing is inserted while a capture is open. Inside a capture the copy that fills a
//! fresh buffer is recorded and does not run until a replay, so a later launch would
//! bind memory that holds something else.

use std::collections::HashMap;

use vstd::prelude::*;
use vstd::std_specs::iter::IteratorSpec;

use crate::fnv::{fnv_round, fold, lemma_fold_injective, FNV_PRIME, FNV_OFFSET};
use crate::handle::Handle;
use crate::sort::sort_pairs;
use crate::settled::Settled;
use crate::text::same_text;

verus! {

/// How much of the launch path the cache is allowed to touch.
#[derive(Debug, Clone, Copy, PartialEq, Eq, Structural)]
pub enum MetaCacheMode {
    /// No cache at all.
    Off,
    /// The cache serves the eager path, and is neither read nor written while a capture
    /// is open on the stream.
    Eager,
    /// As `Eager`, and a launch made while a capture is open may hit the cache. It still
    /// never inserts.
    Captures,
}

impl MetaCacheMode {
    /// The mode that a setting selects.
    pub open spec fn selected(value: Option<Seq<char>>) -> MetaCacheMode {
        match value {
            Some(v) => if v == "1"@ || v == "on"@ || v == "eager"@ {
                MetaCacheMode::Eager
            } else if v == "2"@ || v == "capture"@ || v == "captures"@ {
                MetaCacheMode::Captures
            } else {
                MetaCacheMode::Off
            },
            None => MetaCacheMode::Off,
        }
    }

    /// The mode that a setting selects. Without one there is no cache.
    pub fn from_value(value: Option<&str>) -> (r: MetaCacheMode)
        ensures
            r == MetaCacheMode::selected(
                match value {
                    Some(v) => Some(v@),
                    None => None,
                },
            ),
    {
        match value {
            Some(v) => {
                if same_text(v, "1") || same_text(v, "on") || same_text(v, "eager") {
                    MetaCacheMode::Eager
                } else if same_text(v, "2") || same_text(v, "capture") || same_text(v, "captures") {
                    MetaCacheMode::Captures
                } else {
                    MetaCacheMode::Off
                }
            },
            None => MetaCacheMode::Off,
        }
    }

    /// The mode of the process: what the setting selects where it is read first. Whatever the
    /// setting says later, the mode stays.
    pub fn current<F: FnOnce() -> Option<String>>(
        kept: &mut Settled<MetaCacheMode>,
        read: F,
    ) -> (r: MetaCacheMode)
        requires
            old(kept).kept is None ==> read.requires(()),
        ensures
            match old(kept).kept {
                Some(mode) => r == mode,
                None => {
                    &&& exists|value: Option<String>| #[trigger]
                        read.ensures((), value) && r == MetaCacheMode::selected(
                            match value {
                                Some(v) => Some(v@),
                                None => None,
                            },
                        )
                },
            },
            *final(kept) == old(kept).asked(r),
    {
        match kept.kept {
            Some(mode) => mode,
            None => {
                let value: Option<String> = read();
                let mode: MetaCacheMode = match &value {
                    Some(v) => MetaCacheMode::from_value(Some(v.as_str())),
                    None => MetaCacheMode::from_value(None),
                };
                kept.kept = Some(mode);
                mode
            },
        }
    }

    /// Whether the cache does anything at all.
    pub fn enabled(&self) -> (r: bool)
        ensures
            r == (*self != MetaCacheMode::Off),
    {
        match self {
            MetaCacheMode::Off => false,
            MetaCacheMode::Eager => true,
            MetaCacheMode::Captures => true,
        }
    }
}

/// How many entries the cache may hold before it evicts, unless told otherwise.
pub const DEFAULT_CAPACITY: usize = 4096;

/// What the cache did so far. The counters wrap around.
#[derive(Clone, Copy, Debug, PartialEq, Eq)]
pub struct MetaCacheStats {
    pub lookups: u64,
    pub hits: u64,
    pub misses: u64,
    /// Lookups whose hash named an entry with other bytes.
    pub collisions: u64,
    /// Lookups that a capture ruled out.
    pub bypassed: u64,
    pub inserts: u64,
    pub evictions: u64,
    /// The bytes that hits did not upload.
    pub bytes_saved: u64,
}

/// The counters before anything was done.
pub open spec fn no_stats() -> MetaCacheStats {
    MetaCacheStats {
        lookups: 0,
        hits: 0,
        misses: 0,
        collisions: 0,
        bypassed: 0,
        inserts: 0,
        evictions: 0,
        bytes_saved: 0,
    }
}

/// A counter after `n` was added to it.
pub open spec fn bumped(counter: u64, n: int) -> u64 {
    ((counter + n) % 0x1_0000_0000_0000_0000) as u64
}

/// Whether a summary is due after so many lookups, one every so many. None is with a
/// period of zero.
pub fn report_due(lookups: u64, every: u64) -> (r: bool)
    ensures
        r == (every > 0 && lookups % every == 0),
{
    every > 0 && lookups % every == 0
}

/// One cached shape-and-stride list, and the device buffer that holds it.
pub struct Entry {
    /// The full list, kept so that a hash match is verified and not believed.
    pub bytes: Vec<u8>,
    /// The device buffer. Holding the handle keeps the memory out of the allocator's
    /// hands.
    pub handle: Handle,
    /// The clock at the last hit, for the order of eviction.
    pub last_used: u64,
    /// Whether a launch bound this buffer while a capture was open. Then its address is
    /// part of a graph that may be replayed at any time, and the entry stays.
    pub pinned: bool,
}

/// A map from a launch's dynamic metadata to the device buffer that already holds it, for
/// one stream.
pub struct MetaCache {
    /// The entries, by the hash of their bytes.
    pub entries: HashMap<u64, Entry>,
    /// Monotonic, to order eviction.
    pub clock: u64,
    /// How many entries the cache may hold before it evicts.
    pub capacity: usize,
    /// What the cache did so far.
    pub stats: MetaCacheStats,
}

/// The bytes as words, one for each.
pub open spec fn words(bytes: Seq<u8>) -> Seq<u64> {
    bytes.map_values(|b: u8| b as u64)
}

/// What the hash of bytes starts from: their length is mixed in, so that bytes and their
/// prefix do not hash alike.
pub open spec fn seed(len: int) -> u64 {
    FNV_OFFSET ^ (((len % 0x1_0000_0000_0000_0000) * FNV_PRIME)
        % 0x1_0000_0000_0000_0000) as u64
}

/// The hash of bytes.
pub open spec fn hashed(bytes: Seq<u8>) -> u64 {
    fold(FNV_PRIME, seed(bytes.len() as int), words(bytes))
}

/// FNV-1a over the payload, seeded with its length. This is an index, not a proof of
/// equality.
pub fn hash(bytes: &[u8]) -> (r: u64)
    ensures
        r == hashed(bytes@),
{
    let len: u64 = bytes.len() as u64;
    let mut h: u64 = FNV_OFFSET ^ len.wrapping_mul(FNV_PRIME);
    let ghost all = words(bytes@);
    proof {
        vstd::arithmetic::div_mod::lemma_small_mod(len as nat, 0x1_0000_0000_0000_0000);
        assert(h == seed(bytes@.len() as int));
        assert(all.take(0) =~= Seq::<u64>::empty());
    }
    let mut i: usize = 0;
    while i < bytes.len()
        invariant
            i <= bytes.len(),
            all == words(bytes@),
            h == fold(FNV_PRIME, seed(bytes@.len() as int), all.take(i as int)),
        decreases bytes.len() - i,
    {
        proof {
            assert(all.take(i + 1).drop_last() =~= all.take(i as int));
            assert(all.take(i + 1).last() == bytes@[i as int] as u64);
        }
        h = fnv_round(FNV_PRIME, h, bytes[i] as u64);
        i += 1;
    }
    assert(all.take(i as int) =~= all);
    h
}

/// Bytes of different lengths start their hashes apart, and stay apart over every run of
/// bytes they have in common.
pub proof fn law_lengths_hash_apart(m: nat, n: nat, common: Seq<u8>)
    requires
        m != n,
        m < 0x1_0000_0000_0000_0000,
        n < 0x1_0000_0000_0000_0000,
    ensures
        fold(FNV_PRIME, seed(m as int), words(common)) != fold(FNV_PRIME, seed(n as int), words(common)),
{
    vstd::arithmetic::div_mod::lemma_small_mod(m, 0x1_0000_0000_0000_0000);
    vstd::arithmetic::div_mod::lemma_small_mod(n, 0x1_0000_0000_0000_0000);
    let a = ((m * FNV_PRIME) % 0x1_0000_0000_0000_0000) as u64;
    let b = ((n * FNV_PRIME) % 0x1_0000_0000_0000_0000) as u64;
    if a == b {
        crate::fnv::lemma_mul_injective(FNV_PRIME, m as u64, n as u64);
    }
    assert(a != b ==> FNV_OFFSET ^ a != FNV_OFFSET ^ b) by {
        let base = FNV_OFFSET;
        assert(a != b ==> base ^ a != base ^ b) by (bit_vector);
    }
    lemma_fold_injective(FNV_PRIME, seed(m as int), seed(n as int), words(common));
}

/// Whether bytes are the same.
fn same_bytes(a: &Vec<u8>, b: &[u8]) -> (r: bool)
    ensures
        r == (a@ == b@),
{
    if a.len() != b.len() {
        return false;
    }
    let mut i: usize = 0;
    while i < a.len()
        invariant
            i <= a.len() == b.len(),
            forall|k: int| 0 <= k < i ==> (#[trigger] a@[k]) == b@[k],
        decreases a.len() - i,
    {
        if a[i] != b[i] {
            return false;
        }
        i += 1;
    }
    assert(a@ =~= b@);
    true
}

/// Whether the entry at a key holds exactly these bytes.
pub open spec fn holds(entries: Map<u64, Entry>, key: u64, bytes: Seq<u8>) -> bool {
    entries.contains_key(key) && entries[key].bytes@ == bytes
}

/// Where bytes are found: at their hash, or at the smallest key whose entry holds them.
pub open spec fn found_at(entries: Map<u64, Entry>, bytes: Seq<u8>, key: u64) -> bool {
    &&& holds(entries, key, bytes)
    &&& key == hashed(bytes) || {
        &&& !holds(entries, hashed(bytes), bytes)
        &&& forall|other: u64| #[trigger] holds(entries, other, bytes) ==> key <= other
    }
}

/// The entries after a hit.
pub open spec fn after_hit(
    entries: Map<u64, Entry>,
    key: u64,
    clock: u64,
    capture_open: bool,
) -> Map<u64, Entry> {
    entries.insert(
        key,
        Entry { last_used: clock, pinned: entries[key].pinned || capture_open, ..entries[key] },
    )
}

/// The entries after bytes were remembered. An entry that holds other bytes under the same
/// hash keeps its place, and so does one that a graph points at.
pub open spec fn after_insert(
    entries: Map<u64, Entry>,
    bytes: Vec<u8>,
    handle: Handle,
    clock: u64,
) -> Map<u64, Entry> {
    if can_store(entries, bytes@) {
        entries.insert(hashed(bytes@), Entry { bytes, handle, last_used: clock, pinned: false })
    } else {
        entries
    }
}

/// Whether bytes can be remembered.
pub open spec fn can_store(entries: Map<u64, Entry>, bytes: Seq<u8>) -> bool {
    let key = hashed(bytes);
    entries.contains_key(key) ==> entries[key].bytes@ == bytes && !entries[key].pinned
}

/// Whether the entry at a key may be evicted.
pub open spec fn evictable(entries: Map<u64, Entry>, key: u64) -> bool {
    entries.contains_key(key) && !entries[key].pinned
}

/// Whether the entry at `a` goes before the one at `b`.
pub open spec fn older(entries: Map<u64, Entry>, a: u64, b: u64) -> bool {
    entries[a].last_used < entries[b].last_used || (entries[a].last_used == entries[b].last_used
        && a < b)
}

/// The entries that may be evicted and go before the one at a key.
pub open spec fn elders(entries: Map<u64, Entry>, key: u64) -> Set<u64> {
    Set::new(|k: u64| evictable(entries, k) && older(entries, k, key))
}

/// The entries that may be evicted.
pub open spec fn candidates(entries: Map<u64, Entry>) -> Set<u64> {
    Set::new(|k: u64| evictable(entries, k))
}

/// How many entries are evicted: down to three quarters of the capacity once it is
/// exceeded, but never more than there are unpinned ones.
pub open spec fn wanted(entries: Map<u64, Entry>, capacity: usize) -> nat {
    let target = capacity - capacity / 4;
    if entries.dom().len() <= capacity {
        0
    } else if entries.dom().len() - target <= candidates(entries).len() {
        (entries.dom().len() - target) as nat
    } else {
        candidates(entries).len()
    }
}

/// The entries after eviction: the oldest unpinned ones are gone.
pub open spec fn after_evict(entries: Map<u64, Entry>, capacity: usize) -> Map<u64, Entry> {
    Map::new(
        |k: u64|
            entries.contains_key(k) && !(evictable(entries, k) && elders(entries, k).len()
                < wanted(entries, capacity)),
        |k: u64| entries[k],
    )
}

/// An entry that a graph points at is never evicted.
pub proof fn law_pinned_entries_stay(entries: Map<u64, Entry>, capacity: usize, key: u64)
    requires
        entries.contains_key(key),
        entries[key].pinned,
    ensures
        after_evict(entries, capacity).contains_key(key),
        after_evict(entries, capacity)[key] == entries[key],
{
}

/// An entry that a graph points at keeps its buffer when other bytes are remembered.
pub proof fn law_pinned_entries_keep_their_buffer(
    entries: Map<u64, Entry>,
    bytes: Vec<u8>,
    handle: Handle,
    clock: u64,
    key: u64,
)
    requires
        entries.contains_key(key),
        entries[key].pinned,
    ensures
        after_insert(entries, bytes, handle, clock).contains_key(key),
        after_insert(entries, bytes, handle, clock)[key] == entries[key],
{
}

/// A hit while a capture is open pins what it handed out.
pub proof fn law_hit_in_a_capture_pins(entries: Map<u64, Entry>, key: u64, clock: u64)
    requires
        entries.contains_key(key),
    ensures
        after_hit(entries, key, clock, true)[key].pinned,
        after_hit(entries, key, clock, true)[key].handle == entries[key].handle,
        after_hit(entries, key, clock, true)[key].bytes == entries[key].bytes,
{
}

/// What was remembered is found, under the handle it was remembered with.
pub proof fn law_remembered_bytes_are_found(
    entries: Map<u64, Entry>,
    bytes: Vec<u8>,
    handle: Handle,
    clock: u64,
)
    requires
        can_store(entries, bytes@),
    ensures
        found_at(after_insert(entries, bytes, handle, clock), bytes@, hashed(bytes@)),
        after_insert(entries, bytes, handle, clock)[hashed(bytes@)].handle == handle,
{
}

/// Remembering bytes changes nothing of what is found of bytes with another hash.
pub proof fn law_other_bytes_are_unaffected(
    entries: Map<u64, Entry>,
    bytes: Vec<u8>,
    handle: Handle,
    clock: u64,
    key: u64,
)
    requires
        key != hashed(bytes@),
        entries.contains_key(key),
    ensures
        after_insert(entries, bytes, handle, clock).contains_key(key),
        after_insert(entries, bytes, handle, clock)[key] == entries[key],
{
}

/// The keys of the entries, each once.
fn keys_of(entries: &HashMap<u64, Entry>) -> (r: Vec<u64>)
    ensures
        r@.no_duplicates(),
        r@.len() == entries@.dom().len(),
        forall|k: u64| #[trigger] r@.contains(k) <==> entries@.contains_key(k),
{
    let mut r: Vec<u64> = Vec::new();
    let ghost all = entries.keys().remaining().unref();
    for key in it: entries.keys()
        invariant
            all == entries.keys().remaining().unref(),
            it.seq().unref() == all,
            r@ =~= all.take(it.index()),
    {
        r.push(*key);
    }
    proof {
        assert(r@ =~= all);
        assert forall|k: u64| #[trigger] r@.contains(k) == entries@.contains_key(k) by {
            assert(all.to_set().contains(k) == all.contains(k));
            assert(entries@.dom().contains(k) == entries@.contains_key(k));
        }
    }
    r
}

/// Whether a lookup finds other bytes at its hash.
pub open spec fn collides(entries: Map<u64, Entry>, bytes: Seq<u8>) -> bool {
    entries.contains_key(hashed(bytes)) && entries[hashed(bytes)].bytes@ != bytes
}

/// The counters after a lookup.
pub open spec fn looked_up(
    stats: MetaCacheStats,
    collided: bool,
    hit: bool,
    len: nat,
) -> MetaCacheStats {
    let counted = MetaCacheStats {
        lookups: bumped(stats.lookups, 1),
        collisions: bumped(
            stats.collisions,
            if collided {
                1
            } else {
                0
            },
        ),
        ..stats
    };
    if hit {
        MetaCacheStats {
            hits: bumped(stats.hits, 1),
            bytes_saved: bumped(stats.bytes_saved, len as int),
            ..counted
        }
    } else {
        MetaCacheStats { misses: bumped(stats.misses, 1), ..counted }
    }
}

/// Whether pairs are the ages and keys of the entries that may be evicted, each once.
spec fn lists(entries: Map<u64, Entry>, ages: Seq<(u64, u64)>) -> bool {
    &&& forall|i: int|
        0 <= i < ages.len() ==> evictable(entries, (#[trigger] ages[i]).1) && ages[i].0
            == entries[ages[i].1].last_used
    &&& forall|k: u64| #[trigger]
        evictable(entries, k) ==> ages.contains((entries[k].last_used, k))
    &&& ages.no_duplicates()
}

/// Whether pairs list the entries that may be evicted from the oldest on.
spec fn is_ranking(entries: Map<u64, Entry>, ages: Seq<(u64, u64)>) -> bool {
    &&& lists(entries, ages)
    &&& forall|i: int, j: int|
        0 <= i < j < ages.len() ==> older(entries, (#[trigger] ages[i]).1, (#[trigger] ages[j]).1)
    &&& ages.len() == candidates(entries).len()
}

/// The keys of the first `n` pairs.
spec fn first_keys(ages: Seq<(u64, u64)>, n: int) -> Set<u64> {
    Set::new(|k: u64| exists|j: int| 0 <= j < n && j < ages.len() && (#[trigger] ages[j]).1 == k)
}

proof fn lemma_first_keys_len(entries: Map<u64, Entry>, ages: Seq<(u64, u64)>, n: int)
    requires
        lists(entries, ages),
        0 <= n <= ages.len(),
    ensures
        first_keys(ages, n).finite(),
        first_keys(ages, n).len() == n,
    decreases n,
{
    if n == 0 {
        assert(first_keys(ages, 0) =~= Set::<u64>::empty());
    } else {
        lemma_first_keys_len(entries, ages, n - 1);
        let key = ages[n - 1].1;
        assert(!first_keys(ages, n - 1).contains(key)) by {
            if first_keys(ages, n - 1).contains(key) {
                let j = choose|j: int|
                    0 <= j < n - 1 && j < ages.len() && (#[trigger] ages[j]).1 == key;
                assert(ages[j] == ages[n - 1]);
            }
        }
        assert(first_keys(ages, n) =~= first_keys(ages, n - 1).insert(key)) by {
            assert forall|k: u64| #[trigger] first_keys(ages, n).contains(k) == first_keys(
                ages,
                n - 1,
            ).insert(key).contains(k) by {
                if first_keys(ages, n).contains(k) {
                    let j = choose|j: int|
                        0 <= j < n && j < ages.len() && (#[trigger] ages[j]).1 == k;
                    if j < n - 1 {
                        assert(ages[j].1 == k);
                    }
                }
                if k == key {
                    assert(ages[n - 1].1 == k);
                }
            }
        }
    }
}

proof fn lemma_sorted(
    entries: Map<u64, Entry>,
    unsorted: Seq<(u64, u64)>,
    sorted: Seq<(u64, u64)>,
)
    requires
        lists(entries, unsorted),
        sorted.to_multiset() == unsorted.to_multiset(),
        forall|i: int, j: int|
            0 <= i < j < sorted.len() ==> (#[trigger] sorted[i]).0 < (#[trigger] sorted[j]).0 || (
            sorted[i].0 == sorted[j].0 && sorted[i].1 <= sorted[j].1),
    ensures
        is_ranking(entries, sorted),
{
    broadcast use vstd::seq_lib::group_to_multiset_ensures;

    unsorted.lemma_multiset_has_no_duplicates();
    sorted.lemma_multiset_has_no_duplicates_conv();
    assert forall|x: (u64, u64)| #[trigger] sorted.contains(x) == unsorted.contains(x) by {
        assert(sorted.contains(x) == (sorted.to_multiset().count(x) > 0));
        assert(unsorted.contains(x) == (unsorted.to_multiset().count(x) > 0));
    }
    assert forall|i: int| 0 <= i < sorted.len() implies evictable(
        entries,
        (#[trigger] sorted[i]).1,
    ) && sorted[i].0 == entries[sorted[i].1].last_used by {
        assert(sorted.contains(sorted[i]));
        let j = choose|j: int| 0 <= j < unsorted.len() && unsorted[j] == sorted[i];
        assert(evictable(entries, unsorted[j].1));
    }
    assert(lists(entries, sorted));
    assert forall|i: int, j: int| 0 <= i < j < sorted.len() implies older(
        entries,
        (#[trigger] sorted[i]).1,
        (#[trigger] sorted[j]).1,
    ) by {
        assert(sorted[i] != sorted[j]);
    }
    lemma_first_keys_len(entries, sorted, sorted.len() as int);
    assert(candidates(entries) =~= first_keys(sorted, sorted.len() as int)) by {
        assert forall|k: u64| #[trigger] candidates(entries).contains(k) == first_keys(
            sorted,
            sorted.len() as int,
        ).contains(k) by {
            if evictable(entries, k) {
                let pair = (entries[k].last_used, k);
                assert(sorted.contains(pair));
                let j = choose|j: int| 0 <= j < sorted.len() && sorted[j] == pair;
                assert(sorted[j].1 == k);
            }
        }
    }
}

proof fn lemma_ranking(entries: Map<u64, Entry>, ages: Seq<(u64, u64)>, n: int)
    requires
        is_ranking(entries, ages),
        0 <= n <= ages.len(),
    ensures
        forall|k: u64|
            evictable(entries, k) ==> ((#[trigger] elders(entries, k)).len() < n
                <==> first_keys(ages, n).contains(k)),
        n == ages.len() ==> forall|k: u64| #[trigger]
            evictable(entries, k) ==> first_keys(ages, n).contains(k),
{
    assert forall|k: u64| evictable(entries, k) implies ((#[trigger] elders(entries, k)).len() < n
        <==> first_keys(ages, n).contains(k)) by {
        let pair = (entries[k].last_used, k);
        assert(ages.contains(pair));
        let i = choose|i: int| 0 <= i < ages.len() && ages[i] == pair;
        lemma_first_keys_len(entries, ages, i);
        assert(elders(entries, k) =~= first_keys(ages, i)) by {
            assert forall|e: u64| #[trigger] elders(entries, k).contains(e) == first_keys(
                ages,
                i,
            ).contains(e) by {
                if elders(entries, k).contains(e) {
                    assert(evictable(entries, e));
                    let other = (entries[e].last_used, e);
                    assert(ages.contains(other));
                    let j = choose|j: int| 0 <= j < ages.len() && ages[j] == other;
                    if j > i {
                        assert(older(entries, ages[i].1, ages[j].1));
                    }
                    assert(j < i);
                    assert(ages[j].1 == e);
                }
                if first_keys(ages, i).contains(e) {
                    let j = choose|j: int|
                        0 <= j < i && j < ages.len() && (#[trigger] ages[j]).1 == e;
                    assert(older(entries, ages[j].1, ages[i].1));
                }
            }
        }
        if first_keys(ages, n).contains(k) {
            let j = choose|j: int| 0 <= j < n && j < ages.len() && (#[trigger] ages[j]).1 == k;
            assert(ages[j] == pair);
            assert(i == j);
        } else {
            assert(ages[i].1 == k);
        }
    }
    if n == ages.len() {
        assert forall|k: u64| #[trigger] evictable(entries, k) implies first_keys(
            ages,
            n,
        ).contains(k) by {
            let pair = (entries[k].last_used, k);
            assert(ages.contains(pair));
            let i = choose|i: int| 0 <= i < ages.len() && ages[i] == pair;
            assert(ages[i].1 == k);
        }
    }
}

impl Default for MetaCache {
    fn default() -> (r: Self)
        ensures
            r.entries@ == Map::<u64, Entry>::empty(),
            r.clock == 0,
            r.capacity == DEFAULT_CAPACITY,
            r.stats == no_stats(),
    {
        MetaCache::with_capacity(DEFAULT_CAPACITY)
    }
}

impl MetaCache {
    /// A cache without entries that evicts above a capacity.
    pub fn with_capacity(capacity: usize) -> (r: Self)
        ensures
            r.entries@ == Map::<u64, Entry>::empty(),
            r.clock == 0,
            r.capacity == capacity,
            r.stats == no_stats(),
    {
        MetaCache {
            entries: HashMap::new(),
            clock: 0,
            capacity,
            stats: MetaCacheStats {
                lookups: 0,
                hits: 0,
                misses: 0,
                collisions: 0,
                bypassed: 0,
                inserts: 0,
                evictions: 0,
                bytes_saved: 0,
            },
        }
    }

    /// Where bytes are found, if any entry holds them.
    fn find(&self, bytes: &[u8]) -> (r: Option<u64>)
        ensures
            match r {
                Some(key) => found_at(self.entries@, bytes@, key),
                None => forall|key: u64| !(#[trigger] holds(self.entries@, key, bytes@)),
            },
    {
        let own: u64 = hash(bytes);
        match self.entries.get(&own) {
            Some(entry) => {
                if same_bytes(&entry.bytes, bytes) {
                    return Some(own);
                }
            },
            None => {},
        }
        let keys: Vec<u64> = keys_of(&self.entries);
        let mut best: Option<u64> = None;
        let mut i: usize = 0;
        while i < keys.len()
            invariant
                i <= keys.len(),
                forall|k: u64| #[trigger] keys@.contains(k) <==> self.entries@.contains_key(k),
                match best {
                    Some(key) => {
                        &&& holds(self.entries@, key, bytes@)
                        &&& forall|k: int|
                            0 <= k < i && holds(self.entries@, #[trigger] keys@[k], bytes@)
                                ==> key <= keys@[k]
                    },
                    None => forall|k: int|
                        0 <= k < i ==> !holds(self.entries@, #[trigger] keys@[k], bytes@),
                },
            decreases keys.len() - i,
        {
            let key: u64 = keys[i];
            assert(keys@.contains(keys@[i as int]));
            match self.entries.get(&key) {
                Some(entry) => {
                    if same_bytes(&entry.bytes, bytes) {
                        match best {
                            Some(other) => {
                                if key < other {
                                    best = Some(key);
                                }
                            },
                            None => {
                                best = Some(key);
                            },
                        }
                    }
                },
                None => {},
            }
            i += 1;
        }
        assert forall|other: u64| #[trigger] holds(
            self.entries@,
            other,
            bytes@,
        ) implies best is Some && best->0 <= other by {
            assert(keys@.contains(other));
            let k = choose|k: int| 0 <= k < keys@.len() && keys@[k] == other;
            assert(keys@[k] == other);
        }
        best
    }

    /// Look for a device buffer already holding exactly `bytes`.
    ///
    /// `capture_open` says whether a capture is open on the stream.
    #[verifier::rlimit(40)]
    pub fn get(&mut self, bytes: &[u8], mode: MetaCacheMode, capture_open: bool) -> (r: Option<
        Handle,
    >)
        requires
            old(self).clock < u64::MAX,
        ensures
            final(self).capacity == old(self).capacity,
            if mode == MetaCacheMode::Off {
                &&& r is None
                &&& *final(self) == *old(self)
            } else if capture_open && mode != MetaCacheMode::Captures {
                &&& r is None
                &&& final(self).entries == old(self).entries
                &&& final(self).clock == old(self).clock
                &&& final(self).stats == (MetaCacheStats {
                    bypassed: bumped(old(self).stats.bypassed, 1),
                    ..old(self).stats
                })
            } else {
                &&& final(self).clock == old(self).clock + 1
                &&& match r {
                    Some(handle) => exists|key: u64|
                        {
                            &&& #[trigger] found_at(old(self).entries@, bytes@, key)
                            &&& handle == old(self).entries@[key].handle
                            &&& final(self).entries@ == after_hit(
                                old(self).entries@,
                                key,
                                final(self).clock,
                                capture_open,
                            )
                        },
                    None => {
                        &&& forall|key: u64| !(#[trigger] holds(old(self).entries@, key, bytes@))
                        &&& final(self).entries@ == old(self).entries@
                    },
                }
                &&& final(self).stats == looked_up(
                    old(self).stats,
                    collides(old(self).entries@, bytes@),
                    r is Some,
                    bytes@.len(),
                )
            },
    {
        if !mode.enabled() {
            return None;
        }
        let captures: bool = match mode {
            MetaCacheMode::Captures => true,
            _ => false,
        };
        if capture_open && !captures {
            self.stats.bypassed = self.stats.bypassed.wrapping_add(1);
            return None;
        }
        let ghost before = self.entries@;
        self.stats.lookups = self.stats.lookups.wrapping_add(1);
        self.clock = self.clock + 1;
        // A hash match whose bytes differ is counted, and left alone.
        match self.entries.get(&hash(bytes)) {
            Some(entry) => {
                if !same_bytes(&entry.bytes, bytes) {
                    self.stats.collisions = self.stats.collisions.wrapping_add(1);
                }
            },
            None => {},
        }
        let found: Option<u64> = self.find(bytes);
        let entry: Option<Entry> = match found {
            Some(key) => self.entries.remove(&key),
            None => None,
        };
        match (found, entry) {
            (Some(key), Some(entry)) => {
                let handle: Handle = entry.handle.clone();
                let pinned: bool = entry.pinned || capture_open;
                self.entries.insert(
                    key,
                    Entry { bytes: entry.bytes, handle: entry.handle, last_used: self.clock, pinned },
                );
                self.stats.hits = self.stats.hits.wrapping_add(1);
                self.stats.bytes_saved = self.stats.bytes_saved.wrapping_add(bytes.len() as u64);
                proof {
                    assert(self.entries@ =~= after_hit(before, key, self.clock, capture_open));
                    assert(found_at(before, bytes@, key));
                }
                Some(handle)
            },
            _ => {
                self.stats.misses = self.stats.misses.wrapping_add(1);
                None
            },
        }
    }

    /// Remember that `handle` holds `bytes`.
    ///
    /// The handle must have been created on the eager path.
    pub fn insert(&mut self, bytes: &[u8], handle: Handle)
        requires
            old(self).clock < u64::MAX,
        ensures
            final(self).capacity == old(self).capacity,
            final(self).clock == old(self).clock + 1,
            exists|copy: Vec<u8>|
                {
                    let stored = #[trigger] after_insert(
                        old(self).entries@,
                        copy,
                        handle,
                        final(self).clock,
                    );
                    &&& copy@ == bytes@
                    &&& final(self).entries@ == after_evict(stored, old(self).capacity)
                    &&& final(self).entries@.dom().len() == stored.dom().len() - wanted(
                        stored,
                        old(self).capacity,
                    )
                    &&& final(self).stats == (MetaCacheStats {
                        inserts: bumped(
                            old(self).stats.inserts,
                            if can_store(old(self).entries@, bytes@) {
                                1
                            } else {
                                0
                            },
                        ),
                        evictions: bumped(
                            old(self).stats.evictions,
                            wanted(stored, old(self).capacity) as int,
                        ),
                        ..old(self).stats
                    })
                },
            final(self).entries@.dom().len() <= old(self).capacity || forall|k: u64| #[trigger]
                final(self).entries@.contains_key(k) ==> final(self).entries@[k].pinned,
    {
        let ghost before = self.entries@;
        self.clock = self.clock + 1;
        let key: u64 = hash(bytes);
        let copy: Vec<u8> = vstd::slice::slice_to_vec(bytes);
        let free: bool = match self.entries.get(&key) {
            Some(entry) => same_bytes(&entry.bytes, bytes) && !entry.pinned,
            None => true,
        };
        let ghost kept = copy;
        if free {
            self.stats.inserts = self.stats.inserts.wrapping_add(1);
            self.entries.insert(
                key,
                Entry { bytes: copy, handle, last_used: self.clock, pinned: false },
            );
        }
        assert(self.entries@ == after_insert(before, kept, handle, self.clock));
        self.evict();
    }

    /// The ages and keys of the entries that may be evicted.
    fn ages(&self) -> (r: Vec<(u64, u64)>)
        ensures
            lists(self.entries@, r@),
    {
        let keys: Vec<u64> = keys_of(&self.entries);
        let mut r: Vec<(u64, u64)> = Vec::new();
        let mut i: usize = 0;
        while i < keys.len()
            invariant
                i <= keys.len(),
                keys@.no_duplicates(),
                forall|k: u64| #[trigger] keys@.contains(k) <==> self.entries@.contains_key(k),
                forall|n: int|
                    0 <= n < r.len() ==> evictable(self.entries@, (#[trigger] r@[n]).1) && r@[n].0
                        == self.entries@[r@[n].1].last_used && exists|m: int|
                        0 <= m < i && (#[trigger] keys@[m]) == r@[n].1,
                forall|m: int|
                    0 <= m < i && evictable(self.entries@, #[trigger] keys@[m]) ==> r@.contains(
                        (self.entries@[keys@[m]].last_used, keys@[m]),
                    ),
                r@.no_duplicates(),
            decreases keys.len() - i,
        {
            let key: u64 = keys[i];
            assert(keys@.contains(keys@[i as int]));
            let ghost before = r@;
            match self.entries.get(&key) {
                Some(entry) => {
                    if !entry.pinned {
                        r.push((entry.last_used, key));
                        proof {
                            assert forall|m: int|
                                0 <= m <= i && evictable(
                                    self.entries@,
                                    #[trigger] keys@[m],
                                ) implies r@.contains(
                                (self.entries@[keys@[m]].last_used, keys@[m]),
                            ) by {
                                let pair = (self.entries@[keys@[m]].last_used, keys@[m]);
                                if m < i {
                                    assert(before.contains(pair));
                                    let n = choose|n: int|
                                        0 <= n < before.len() && before[n] == pair;
                                    assert(r@[n] == pair);
                                } else {
                                    assert(r@[r@.len() - 1] == pair);
                                }
                            }
                            assert forall|n: int| 0 <= n < before.len() implies (
                            #[trigger] before[n]).1 != key by {
                                let m = choose|m: int| 0 <= m < i && (#[trigger] keys@[m]) == before[n].1;
                                assert(r@[n] == before[n]);
                            }
                        }
                    }
                },
                None => {},
            }
            i += 1;
        }
        assert forall|k: u64| #[trigger] evictable(self.entries@, k) implies r@.contains(
            (self.entries@[k].last_used, k),
        ) by {
            assert(keys@.contains(k));
            let m = choose|m: int| 0 <= m < keys@.len() && keys@[m] == k;
            assert(keys@[m] == k);
        }
        r
    }

    /// Bring the cache back under its bound, oldest unpinned entry first, in a batch.
    fn evict(&mut self)
        ensures
            final(self).capacity == old(self).capacity,
            final(self).clock == old(self).clock,
            final(self).entries@ == after_evict(old(self).entries@, old(self).capacity),
            final(self).entries@.dom().len() == old(self).entries@.dom().len() - wanted(
                old(self).entries@,
                old(self).capacity,
            ),
            final(self).entries@.dom().len() <= old(self).capacity || forall|k: u64| #[trigger]
                final(self).entries@.contains_key(k) ==> final(self).entries@[k].pinned,
            final(self).stats == (MetaCacheStats {
                evictions: bumped(
                    old(self).stats.evictions,
                    wanted(old(self).entries@, old(self).capacity) as int,
                ),
                ..old(self).stats
            }),
    {
        let ghost before = self.entries@;
        let cap: usize = self.capacity;
        if self.entries.len() <= cap {
            proof {
                assert(wanted(before, cap) == 0);
                assert(after_evict(before, cap) =~= before);
            }
            return;
        }
        let target: usize = cap - cap / 4;
        let mut ages: Vec<(u64, u64)> = self.ages();
        let ghost unsorted = ages@;
        sort_pairs(&mut ages);
        proof {
            lemma_sorted(before, unsorted, ages@);
        }
        let over: usize = self.entries.len() - target;
        let goal: usize = if over < ages.len() {
            over
        } else {
            ages.len()
        };
        assert(goal == wanted(before, cap));
        let mut i: usize = 0;
        while i < goal
            invariant
                i <= goal <= ages.len(),
                is_ranking(before, ages@),
                self.capacity == cap,
                self.clock == old(self).clock,
                self.stats == old(self).stats,
                self.entries@ == before.remove_keys(first_keys(ages@, i as int)),
                self.entries@.dom().len() == before.dom().len() - i,
                before.dom().finite(),
            decreases goal - i,
        {
            let key: u64 = ages[i].1;
            proof {
                assert(evictable(before, key));
                assert(!first_keys(ages@, i as int).contains(key));
            }
            let ghost current = self.entries@;
            self.entries.remove(&key);
            proof {
                assert(current.contains_key(key));
                assert(self.entries@ =~= before.remove_keys(first_keys(ages@, i + 1)));
                assert(self.entries@.dom() =~= current.dom().remove(key));
            }
            i += 1;
        }
        self.stats.evictions = self.stats.evictions.wrapping_add(goal as u64);
        proof {
            lemma_ranking(before, ages@, goal as int);
            assert(self.entries@ =~= after_evict(before, cap));
            if self.entries@.dom().len() > cap {
                assert forall|k: u64| #[trigger]
                    self.entries@.contains_key(k) implies self.entries@[k].pinned by {
                    if !before[k].pinned {
                        assert(evictable(before, k));
                        assert(first_keys(ages@, goal as int).contains(k));
                    }
                }
            }
        }
    }
}

} // verus!
