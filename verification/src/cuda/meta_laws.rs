//! What holds of a metadata cache over any sequence of lookups and inserts.

use vstd::prelude::*;

use crate::cuda::meta_cache::{
    after_evict, after_hit, after_insert, can_store, found_at, hashed, holds, Entry,
};
use crate::handle::Handle;

verus! {

/// A call on a cache, with what it did.
pub enum CacheCall {
    /// Bytes were to be remembered.
    Insert { bytes: Vec<u8>, handle: Handle, clock: u64, capacity: usize },
    /// A lookup found its bytes at a key.
    Hit { wanted: Seq<u8>, key: u64, clock: u64, capture_open: bool },
    /// A lookup found nothing, or did not look.
    Miss,
}

/// What a call does to the entries.
pub open spec fn leaves(
    entries: Map<u64, Entry>,
    call: CacheCall,
    after: Map<u64, Entry>,
) -> bool {
    match call {
        CacheCall::Insert { bytes, handle, clock, capacity } => after == after_evict(
            after_insert(entries, bytes, handle, clock),
            capacity,
        ),
        CacheCall::Hit { wanted, key, clock, capture_open } => found_at(entries, wanted, key)
            && after == after_hit(entries, key, clock, capture_open),
        CacheCall::Miss => after == entries,
    }
}

/// Calls one after another on a cache that is empty at first, and its entries between them.
pub struct CacheHistory {
    pub calls: Seq<CacheCall>,
    pub states: Seq<Map<u64, Entry>>,
}

impl CacheHistory {
    /// The cache is empty at first, and every call leaves the entries that follow it.
    pub open spec fn happens(self) -> bool {
        &&& self.states.len() == self.calls.len() + 1
        &&& self.states[0] == Map::<u64, Entry>::empty()
        &&& forall|t: int|
            0 <= t < self.calls.len() ==> leaves(
                self.states[t],
                #[trigger] self.calls[t],
                self.states[t + 1],
            )
    }

    /// Whether call `t` is an insert that was taken, of bytes with this hash.
    pub open spec fn stores(self, t: int, key: u64) -> bool {
        &&& self.calls[t] matches CacheCall::Insert { bytes, .. }
        &&& hashed(bytes@) == key
        &&& can_store(self.states[t], bytes@)
    }

    /// Whether call `i` is the insert that bytes of a hash come from after `n` calls: it was
    /// taken, no later one of that hash was, and it has not been evicted since.
    pub open spec fn last_stored(self, i: int, n: int, bytes: Seq<u8>, handle: Handle) -> bool {
        let key = hashed(bytes);
        &&& 0 <= i < n
        &&& self.stores(i, key)
        &&& self.calls[i]->bytes@ == bytes
        &&& self.calls[i]->handle == handle
        &&& forall|t: int| i < t < n ==> !(#[trigger] self.stores(t, key))
        &&& forall|t: int| i < t <= n ==> (#[trigger] self.states[t]).contains_key(key)
    }
}

/// Whether every entry stands at the hash of its bytes.
pub open spec fn keyed(entries: Map<u64, Entry>) -> bool {
    forall|key: u64| #[trigger] entries.contains_key(key) ==> hashed(entries[key].bytes@) == key
}

proof fn lemma_keyed(history: CacheHistory, n: int)
    requires
        history.happens(),
        0 <= n <= history.calls.len(),
    ensures
        keyed(history.states[n]),
    decreases n,
{
    if n > 0 {
        lemma_keyed(history, n - 1);
        assert(leaves(history.states[n - 1], history.calls[n - 1], history.states[n]));
    }
}

/// Bytes are found exactly where the latest insert of their hash that was taken is an insert
/// of those bytes and has not been evicted since; and what is found is the buffer that they
/// were remembered with.
pub proof fn law_lookup_finds_the_last_insert(
    history: CacheHistory,
    bytes: Seq<u8>,
    handle: Handle,
)
    requires
        history.happens(),
    ensures
        ({
            let end = history.states.last();
            (exists|key: u64| #[trigger] found_at(end, bytes, key) && end[key].handle == handle)
                <==> exists|i: int|
                #[trigger] history.last_stored(i, history.calls.len() as int, bytes, handle)
        }),
{
    let n = history.calls.len() as int;
    let end = history.states.last();
    let key = hashed(bytes);
    lemma_keyed(history, n);
    if exists|k: u64| #[trigger] found_at(end, bytes, k) && end[k].handle == handle {
        let k = choose|k: u64| #[trigger] found_at(end, bytes, k) && end[k].handle == handle;
        assert(k == key);
        let i = lemma_comes_from(history, n, key);
        assert(history.last_stored(i, n, bytes, handle));
    }
    if exists|i: int| #[trigger] history.last_stored(i, n, bytes, handle) {
        let i = choose|i: int| #[trigger] history.last_stored(i, n, bytes, handle);
        assert(history.states[n].contains_key(key));
        let j = lemma_comes_from(history, n, key);
        assert(history.stores(i, key) && history.stores(j, key));
        assert(i == j);
        assert(holds(end, key, bytes));
        assert(found_at(end, bytes, key));
    }
}

/// Every entry comes from the latest insert of its hash that was taken.
proof fn lemma_comes_from(history: CacheHistory, n: int, key: u64) -> (i: int)
    requires
        history.happens(),
        0 <= n <= history.calls.len(),
        history.states[n].contains_key(key),
    ensures
        history.last_stored(
            i,
            n,
            history.states[n][key].bytes@,
            history.states[n][key].handle,
        ),
        hashed(history.states[n][key].bytes@) == key,
    decreases n,
{
    lemma_keyed(history, n);
    let was = history.states[n - 1];
    let call = history.calls[n - 1];
    let is = history.states[n];
    assert(leaves(was, call, is));
    if history.stores(n - 1, key) {
        n - 1
    } else {
        assert(was.contains_key(key));
        assert(was[key].bytes == is[key].bytes && was[key].handle == is[key].handle);
        let i = lemma_comes_from(history, n - 1, key);
        assert forall|t: int| i < t < n implies !(#[trigger] history.stores(t, key)) by {}
        i
    }
}

} // verus!
