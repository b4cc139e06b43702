//! What lookups and inserts do to the cache of metadata, entry by entry.

use vstd::prelude::*;

use crate::cuda::meta_cache::{
    after_evict, after_insert, candidates, elders, evictable, found_at, hash, hashed, holds, older,
    report_due, wanted, Entry, MetaCache, MetaCacheMode,
};
use crate::cuda::settings_laws::spelled;
use crate::fnv::fold;
use crate::handle::Handle;
use crate::settled::Settled;

verus! {

/// The cache serves the eager path exactly if its setting is one of three words, and captures
/// too exactly if it is one of three others. Else there is none.
pub proof fn law_cache_is_asked_for(value: Option<&str>, r: MetaCacheMode, on: bool)
    requires
        call_ensures(MetaCacheMode::from_value, (value,), r),
        call_ensures(MetaCacheMode::enabled, (&r,), on),
    ensures
        r is Eager <==> {
            ||| spelled(value, seq!['1'])
            ||| spelled(value, seq!['o', 'n'])
            ||| spelled(value, seq!['e', 'a', 'g', 'e', 'r'])
        },
        r is Captures <==> {
            ||| spelled(value, seq!['2'])
            ||| spelled(value, seq!['c', 'a', 'p', 't', 'u', 'r', 'e'])
            ||| spelled(value, seq!['c', 'a', 'p', 't', 'u', 'r', 'e', 's'])
        },
        on <==> r is Eager || r is Captures,
{
    reveal_strlit("1");
    reveal_strlit("2");
    reveal_strlit("on");
    reveal_strlit("eager");
    reveal_strlit("capture");
    reveal_strlit("captures");
    assert("1"@ =~= seq!['1']);
    assert("2"@ =~= seq!['2']);
    assert("on"@ =~= seq!['o', 'n']);
    assert("eager"@ =~= seq!['e', 'a', 'g', 'e', 'r']);
    assert("capture"@ =~= seq!['c', 'a', 'p', 't', 'u', 'r', 'e']);
    assert("captures"@ =~= seq!['c', 'a', 'p', 't', 'u', 'r', 'e', 's']);
    assert(seq!['1'][0] != seq!['2'][0]);
    assert(seq!['1'].len() == 1 && seq!['2'].len() == 1 && seq!['o', 'n'].len() == 2);
    assert(seq!['e', 'a', 'g', 'e', 'r'].len() == 5);
    assert(seq!['c', 'a', 'p', 't', 'u', 'r', 'e'].len() == 7);
    assert(seq!['c', 'a', 'p', 't', 'u', 'r', 'e', 's'].len() == 8);
}

/// A summary is due at every multiple of its period, and never with a period of zero.
pub proof fn law_summaries_are_due_at_multiples(lookups: u64, every: u64, r: bool, q: int)
    requires
        call_ensures(report_due, (lookups, every), r),
    ensures
        every == 0 ==> !r,
        every > 0 && lookups == q * every ==> r,
        r ==> lookups == (lookups as int / every as int) * every,
{
    if every > 0 {
        let e = every as int;
        vstd::arithmetic::div_mod::lemma_fundamental_div_mod(lookups as int, e);
        if lookups == q * every {
            vstd::arithmetic::div_mod::lemma_mod_multiples_basic(q, e);
        }
        let d = lookups as int / e;
        assert(e * d == d * e) by (nonlinear_arith);
    }
}

/// The hash of bytes takes one round for each, in order, from the offset basis mixed with as
/// many primes as there are bytes.
pub proof fn law_hash_takes_a_round_for_each_byte(bytes: &[u8], r: u64)
    requires
        call_ensures(hash, (bytes,), r),
        bytes@.len() < 0x1_0000_0000_0000_0000,
    ensures
        r == fold(
            0x100_0000_01b3,
            0xcbf2_9ce4_8422_2325u64 ^ ((bytes@.len() * 0x100_0000_01b3)
                % 0x1_0000_0000_0000_0000) as u64,
            Seq::new(bytes@.len(), |i: int| bytes@[i] as u64),
        ),
{
    vstd::arithmetic::div_mod::lemma_small_mod(bytes@.len(), 0x1_0000_0000_0000_0000);
    assert(crate::cuda::meta_cache::words(bytes@) =~= Seq::new(
        bytes@.len(),
        |i: int| bytes@[i] as u64,
    ));
}

/// Bytes that differ in one place hash apart.
pub proof fn law_one_byte_changes_the_hash(a: &[u8], b: &[u8], at: int, r: u64, s: u64)
    requires
        call_ensures(hash, (a,), r),
        call_ensures(hash, (b,), s),
        a@.len() == b@.len(),
        0 <= at < a@.len(),
        a@[at] != b@[at],
        forall|i: int| 0 <= i < a@.len() && i != at ==> (#[trigger] a@[i]) == b@[i],
    ensures
        r != s,
{
    let x = crate::cuda::meta_cache::words(a@);
    let y = crate::cuda::meta_cache::words(b@);
    assert(y =~= x.update(at, b@[at] as u64));
    crate::fnv::lemma_fold_one_word(
        crate::fnv::FNV_PRIME,
        crate::cuda::meta_cache::seed(a@.len() as int),
        x,
        at,
        b@[at] as u64,
    );
}

/// Whether an entry was handed out: only its age and its pin may have changed.
pub open spec fn handed_out(was: Entry, now: Entry, clock: u64, capture_open: bool) -> bool {
    &&& now.bytes == was.bytes && now.handle == was.handle
    &&& now.last_used == clock
    &&& now.pinned <==> was.pinned || capture_open
}

/// A lookup is not made without a cache, nor while a capture is open unless captures are
/// served. Else what comes back is a buffer that was remembered with exactly these bytes, if
/// there is one. Its entry is the youngest from then on, and pinned if a capture is open; no
/// other entry changes.
pub proof fn law_lookup_finds_the_same_bytes(
    cache: &mut MetaCache,
    bytes: &[u8],
    mode: MetaCacheMode,
    capture_open: bool,
    r: Option<Handle>,
)
    requires
        old(cache).clock < u64::MAX,
        call_ensures(MetaCache::get, (cache, bytes, mode, capture_open), r),
    ensures
        final(cache).capacity == old(cache).capacity,
        mode is Off ==> r is None && *final(cache) == *old(cache),
        mode is Eager && capture_open ==> r is None && final(cache).entries == old(cache).entries
            && final(cache).clock == old(cache).clock,
        mode is Captures || (mode is Eager && !capture_open) ==> {
            let entries = old(cache).entries@;
            let now = final(cache).entries@;
            &&& final(cache).clock == old(cache).clock + 1
            &&& now.dom() =~= entries.dom()
            &&& r is Some <==> exists|key: u64|
                entries.contains_key(key) && (#[trigger] entries[key]).bytes@ == bytes@
            &&& r matches Some(handle) ==> exists|key: u64|
                {
                    &&& entries.contains_key(key)
                    &&& (#[trigger] entries[key]).bytes@ == bytes@
                    &&& entries[key].handle == handle
                    &&& handed_out(entries[key], now[key], final(cache).clock, capture_open)
                    &&& forall|other: u64|
                        other != key && entries.contains_key(other) ==> (#[trigger] now[other])
                            == entries[other]
                }
            &&& r is None ==> now == entries
        },
{
    let entries = old(cache).entries@;
    let now = final(cache).entries@;
    if mode is Captures || (mode is Eager && !capture_open) {
        match r {
            Some(handle) => {
                let key = choose|key: u64|
                    {
                        &&& #[trigger] found_at(entries, bytes@, key)
                        &&& handle == entries[key].handle
                        &&& now == crate::cuda::meta_cache::after_hit(
                            entries,
                            key,
                            final(cache).clock,
                            capture_open,
                        )
                    };
                assert(entries[key].bytes@ == bytes@);
                assert(now.dom() =~= entries.dom());
            },
            None => {
                assert forall|key: u64| !(entries.contains_key(key) && (
                #[trigger] entries[key]).bytes@ == bytes@) by {
                    assert(!holds(entries, key, bytes@));
                }
            },
        }
    }
}

/// Every lookup that is made counts as one, as a hit with its bytes or as a miss, as long as
/// the counters do not wrap around. One that a capture rules out counts as that.
pub proof fn law_lookups_are_counted(
    cache: &mut MetaCache,
    bytes: &[u8],
    mode: MetaCacheMode,
    capture_open: bool,
    r: Option<Handle>,
)
    requires
        old(cache).clock < u64::MAX,
        call_ensures(MetaCache::get, (cache, bytes, mode, capture_open), r),
        old(cache).stats.lookups < u64::MAX,
        old(cache).stats.hits < u64::MAX,
        old(cache).stats.misses < u64::MAX,
        old(cache).stats.bypassed < u64::MAX,
        old(cache).stats.collisions < u64::MAX,
        old(cache).stats.bytes_saved + bytes@.len() <= u64::MAX,
    ensures
        ({
            let was = old(cache).stats;
            let now = final(cache).stats;
            let made = mode is Captures || (mode is Eager && !capture_open);
            let own = old(cache).entries@;
            &&& now.lookups == was.lookups + (if made {
                1int
            } else {
                0
            })
            &&& now.hits == was.hits + (if made && r is Some {
                1int
            } else {
                0
            })
            &&& now.misses == was.misses + (if made && r is None {
                1int
            } else {
                0
            })
            &&& now.bytes_saved == was.bytes_saved + (if made && r is Some {
                bytes@.len() as int
            } else {
                0
            })
            &&& now.bypassed == was.bypassed + (if mode is Eager && capture_open {
                1int
            } else {
                0
            })
            &&& now.collisions == was.collisions + (if made && own.contains_key(hashed(bytes@))
                && own[hashed(bytes@)].bytes@ != bytes@ {
                1int
            } else {
                0
            })
            &&& now.inserts == was.inserts && now.evictions == was.evictions
        }),
{
}

proof fn lemma_elders_fewer(entries: Map<u64, Entry>, a: u64, b: u64)
    requires
        entries.dom().finite(),
        evictable(entries, a),
        evictable(entries, b),
        older(entries, b, a),
    ensures
        elders(entries, b).len() < elders(entries, a).len(),
{
    let x = elders(entries, b);
    let y = elders(entries, a);
    assert(y.subset_of(entries.dom()));
    vstd::set_lib::lemma_set_subset_finite(entries.dom(), y);
    assert(x.subset_of(y.remove(b))) by {
        assert forall|k: u64| #[trigger] x.contains(k) implies y.remove(b).contains(k) by {}
    }
    assert(y.contains(b));
    vstd::set_lib::lemma_len_subset(x, y.remove(b));
}

/// What an insert leaves: an entry that a graph points at is as it was; an entry that is gone
/// was older than every entry that is left and may go, or as old under a smaller key; and every entry that is left is as it
/// was, but for the one of the bytes.
pub proof fn law_insert_evicts_the_oldest(
    cache: &mut MetaCache,
    bytes: &[u8],
    handle: Handle,
    r: (),
    a: u64,
    b: u64,
)
    requires
        old(cache).clock < u64::MAX,
        old(cache).entries@.dom().finite(),
        call_ensures(MetaCache::insert, (cache, bytes, handle), r),
    ensures
        ({
            let was = old(cache).entries@;
            let now = final(cache).entries@;
            &&& was.contains_key(a) && was[a].pinned ==> now.contains_key(a) && now[a] == was[a]
            &&& now.contains_key(a) && a != hashed(bytes@) ==> was.contains_key(a) && now[a] == was[a]
            &&& now.contains_key(a) && !(was.contains_key(a) && now[a] == was[a]) ==> {
                &&& a == hashed(bytes@)
                &&& now[a].bytes@ == bytes@ && now[a].handle == handle && !now[a].pinned
                &&& now[a].last_used == final(cache).clock
            }
            &&& was.contains_key(a) && !now.contains_key(a) && now.contains_key(b)
                && !now[b].pinned && a != hashed(bytes@) ==> now[b].last_used > was[a].last_used || (
            now[b].last_used == was[a].last_used && a < b)
            &&& final(cache).clock == old(cache).clock + 1
            &&& final(cache).capacity == old(cache).capacity
        }),
{
    let was = old(cache).entries@;
    let now = final(cache).entries@;
    let copy = choose|copy: Vec<u8>|
        {
            let stored = #[trigger] after_insert(was, copy, handle, final(cache).clock);
            &&& copy@ == bytes@
            &&& now == after_evict(stored, old(cache).capacity)
        };
    let stored = after_insert(was, copy, handle, final(cache).clock);
    assert(stored.dom().subset_of(was.dom().insert(hashed(bytes@))));
    vstd::set_lib::lemma_set_subset_finite(was.dom().insert(hashed(bytes@)), stored.dom());
    if was.contains_key(a) && !now.contains_key(a) && now.contains_key(b) && !now[b].pinned && a
        != hashed(bytes@) {
        assert(stored[a] == was[a]);
        assert(evictable(stored, a) && evictable(stored, b));
        if now[b].last_used < was[a].last_used || (now[b].last_used == was[a].last_used && b < a) {
            assert(older(stored, b, a));
            lemma_elders_fewer(stored, a, b);
        }
    }
}

/// Below the capacity an insert evicts nothing. Above it, where nothing is pinned, a quarter of
/// the capacity is free again. It never stays above unless everything is pinned.
pub proof fn law_insert_keeps_the_capacity(
    cache: &mut MetaCache,
    bytes: &[u8],
    handle: Handle,
    r: (),
)
    requires
        old(cache).clock < u64::MAX,
        old(cache).entries@.dom().finite(),
        call_ensures(MetaCache::insert, (cache, bytes, handle), r),
    ensures
        ({
            let was = old(cache).entries@;
            let now = final(cache).entries@;
            let capacity = old(cache).capacity;
            &&& was.dom().len() < capacity ==> forall|k: u64| #[trigger]
                was.contains_key(k) ==> now.contains_key(k)
            &&& !was.contains_key(hashed(bytes@)) && was.dom().len() < capacity
                ==> now.contains_key(hashed(bytes@)) && now[hashed(bytes@)].handle == handle
                && now.dom().len() == was.dom().len() + 1
            &&& !was.contains_key(hashed(bytes@)) && was.dom().len() >= capacity && (forall|k: u64|
                #[trigger] was.contains_key(k) ==> !was[k].pinned) ==> now.dom().len() == capacity
                - capacity / 4
            &&& now.dom().len() > capacity ==> forall|k: u64| #[trigger]
                now.contains_key(k) ==> now[k].pinned
        }),
{
    let was = old(cache).entries@;
    let now = final(cache).entries@;
    let capacity = old(cache).capacity;
    let key = hashed(bytes@);
    let copy = choose|copy: Vec<u8>|
        {
            let stored = #[trigger] after_insert(was, copy, handle, final(cache).clock);
            &&& copy@ == bytes@
            &&& now == after_evict(stored, old(cache).capacity)
            &&& now.dom().len() == stored.dom().len() - wanted(stored, old(cache).capacity)
        };
    let stored = after_insert(was, copy, handle, final(cache).clock);
    if was.contains_key(key) {
        assert(stored.dom() =~= was.dom());
    } else {
        assert(stored.dom() =~= was.dom().insert(key));
    }
    assert(stored.dom().len() <= was.dom().len() + 1);
    if !was.contains_key(key) && was.dom().len() >= capacity && (forall|k: u64| #[trigger]
        was.contains_key(k) ==> !was[k].pinned) {
        assert(candidates(stored) =~= stored.dom()) by {
            assert forall|k: u64| #[trigger] candidates(stored).contains(k) == stored.dom().contains(
                k,
            ) by {
                if stored.contains_key(k) && k != key {
                    assert(was.contains_key(k));
                }
            }
        }
    }
}

/// A cache begins empty, with the capacity that it is told, or 4096.
pub proof fn law_cache_begins_empty(capacity: usize, r: MetaCache)
    requires
        call_ensures(MetaCache::with_capacity, (capacity,), r),
    ensures
        forall|k: u64| !(#[trigger] r.entries@.contains_key(k)),
        r.capacity == capacity,
        r.stats.lookups == 0 && r.stats.hits == 0 && r.stats.misses == 0,
        r.stats.inserts == 0 && r.stats.evictions == 0 && r.stats.bypassed == 0,
        r.stats.collisions == 0 && r.stats.bytes_saved == 0,
{
}

/// The mode of the cache is settled where it is first asked for, as its setting says, and for
/// good.
pub proof fn law_mode_is_settled_once<F: FnOnce() -> Option<String>>(
    kept: &mut Settled<MetaCacheMode>,
    read: F,
    r: MetaCacheMode,
)
    requires
        old(kept).kept is None ==> read.requires(()),
        call_ensures(MetaCacheMode::current::<F>, (kept, read), r),
    ensures
        final(kept).kept == Some(r),
        old(kept).kept matches Some(mode) ==> r == mode,
        old(kept).kept is None ==> exists|value: Option<String>| #[trigger]
            read.ensures((), value) && (r is Eager <==> value is Some && {
                ||| (value->0)@ == seq!['1']
                ||| (value->0)@ == seq!['o', 'n']
                ||| (value->0)@ == seq!['e', 'a', 'g', 'e', 'r']
            }) && (r is Captures <==> value is Some && {
                ||| (value->0)@ == seq!['2']
                ||| (value->0)@ == seq!['c', 'a', 'p', 't', 'u', 'r', 'e']
                ||| (value->0)@ == seq!['c', 'a', 'p', 't', 'u', 'r', 'e', 's']
            }),
{
    reveal_strlit("1");
    reveal_strlit("on");
    reveal_strlit("eager");
    reveal_strlit("2");
    reveal_strlit("capture");
    reveal_strlit("captures");
    assert("1"@ =~= seq!['1']);
    assert("on"@ =~= seq!['o', 'n']);
    assert("eager"@ =~= seq!['e', 'a', 'g', 'e', 'r']);
    assert("2"@ =~= seq!['2']);
    assert("capture"@ =~= seq!['c', 'a', 'p', 't', 'u', 'r', 'e']);
    assert("captures"@ =~= seq!['c', 'a', 'p', 't', 'u', 'r', 'e', 's']);
    if old(kept).kept is None {
        let value = choose|value: Option<String>| #[trigger]
            read.ensures((), value) && r == MetaCacheMode::selected(
                match value {
                    Some(v) => Some(v@),
                    None => None,
                },
            );
        assert(read.ensures((), value));
        if value is Some {
            assert(seq!['1'][0] == '1' && seq!['2'][0] == '2');
            assert(seq!['o', 'n'][0] == 'o');
            assert(seq!['e', 'a', 'g', 'e', 'r'][0] == 'e');
            assert(seq!['c', 'a', 'p', 't', 'u', 'r', 'e'][0] == 'c');
            assert(seq!['c', 'a', 'p', 't', 'u', 'r', 'e', 's'][0] == 'c');
        }
    }
}

} // verus!
