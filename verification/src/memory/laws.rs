//! What holds of a memory management across its operations.

use vstd::prelude::*;

use crate::first::lemma_first_from;
use crate::fnv::{lemma_fold_one_word, FNV_OFFSET, SIGNATURE_MULTIPLIER};
use crate::memory::error::IoError;
use crate::memory::handle::{ManagedMemoryHandle, MemoryLocation};
use crate::memory::manage::signature;
use crate::memory::model::{Liveness, MemoryView, Plan};
use crate::memory::page::{page_wf, shaped, slice_count, slice_of, table_owns, vacant, PageView};
use crate::memory::pool::{lemma_spot, lemma_with_taken, PoolView, Spot};
use crate::memory::storage::StorageHandle;
use crate::memory::usage::lemma_usage_within_reserved;

verus! {

/// While the arena is open it is the only pool that a reservation changes.
pub proof fn law_open_arena_is_alone(
    m: MemoryView,
    size: u64,
    live: Liveness,
    r: Result<ManagedMemoryHandle, IoError>,
    after: MemoryView,
)
    requires
        m.wf(),
        m.arena_active,
        m.reserved(size, live, r, after),
    ensures
        after.pools.len() == m.pools.len(),
        forall|k: int|
            0 <= k < m.pools.len() && k != m.arena_at() ==> (#[trigger] after.pools[k])
                == m.pools[k],
{
}

/// While the arena is closed no reservation takes or changes anything of it.
pub proof fn law_closed_arena_is_untouched(
    m: MemoryView,
    size: u64,
    live: Liveness,
    r: Result<ManagedMemoryHandle, IoError>,
    after: MemoryView,
)
    requires
        m.wf(),
        !m.arena_active,
        m.reserved(size, live, r, after),
    ensures
        after.arena() == m.arena(),
        after.arena_served == m.arena_served,
        after.arena_misses == m.arena_misses,
        after.arena_sizes == m.arena_sizes,
{
    lemma_first_from(0, m.dynamic(), |k: int| m.pools[k].accepts(size));
}

/// A cleanup returns no page of the arena, whether it was asked for or not.
pub proof fn law_cleanup_keeps_arena(m: MemoryView, live: Liveness, explicit: bool)
    requires
        m.wf(),
    ensures
        m.cleaned(live, explicit).arena() == m.arena(),
        forall|id: usize|
            m.owned_by(m.arena_at(), id) ==> #[trigger] m.cleaned(
                live,
                explicit,
            ).allocated.contains(id),
{
    let after = m.cleaned(live, explicit);
    assert forall|id: usize| m.owned_by(m.arena_at(), id) implies #[trigger] after.allocated.contains(
        id,
    ) by {
        assert(m.allocated.contains(id));
        assert forall|k: int| 0 <= k < m.pools.len() && #[trigger] m.owned_by(
            k,
            id,
        ) implies table_owns(after.pools[k].table, id) by {
            if k < m.arena_at() {
                assert(!m.owned_by(m.arena_at(), id));
            }
        }
    }
}

/// A free slice of the arena that takes up what a request needs is handed out again:
/// the request is no miss, and needs no allocation.
pub proof fn law_arena_reuses(m: MemoryView, size: u64, live: Liveness, p: int)
    requires
        m.wf(),
        m.shaped(live),
        m.arena_active,
        m.arena().need(size) <= u64::MAX,
        0 <= p < m.arena().table.len(),
        m.arena().table[p] is Some,
        live[m.arena_at()][p][0],
        m.arena().table[p]->0.slices[0].effective_size() == m.arena().need(size),
    ensures
        m.plan(size, live) matches Plan::Serve { pool, spot } && pool == m.arena_at()
            && live[m.arena_at()][spot.page][0],
{
    let arena = m.arena();
    let free = live[m.arena_at()];
    assert(arena.rules is Persistent);
    assert(shaped(arena.table, free));
    assert(arena.page_follows(arena.table[p]->0));
    let room = |q: int| arena.has_room(free, q, size);
    assert(room(p));
    lemma_first_from(0, arena.table.len() as int, room);
    lemma_spot(arena, free, size);
    let spot = arena.spot(free, size)->0;
    assert(arena.page_follows(arena.table[spot.page]->0));
}

/// Two pools have the same layout when they differ in nothing but who holds their slices
/// and when those were used.
pub open spec fn same_layout(a: PoolView, b: PoolView) -> bool {
    &&& a.rules == b.rules
    &&& a.alignment == b.alignment
    &&& a.table.len() == b.table.len()
    &&& forall|i: int|
        0 <= i < a.table.len() ==> same_slot(#[trigger] a.table[i], #[trigger] b.table[i])
}

/// Two slots of tables have the same layout.
pub open spec fn same_slot(a: Option<PageView>, b: Option<PageView>) -> bool {
    match (a, b) {
        (Some(x), Some(y)) => {
            &&& x.storage == y.storage
            &&& x.bytes == y.bytes
            &&& x.slices.len() == y.slices.len()
            &&& forall|k: int|
                0 <= k < x.slices.len() ==> (#[trigger] x.slices[k]).storage == y.slices[k].storage
                    && x.slices[k].padding == y.slices[k].padding
        },
        (None, None) => true,
        _ => false,
    }
}

/// The arena has a deterministic base: against the same layout and the same free slices,
/// the same request is served at the same place, and leaves the same layout. So a region
/// that issues the same requests gets the same addresses.
pub proof fn law_arena_repeats(
    a: PoolView,
    b: PoolView,
    free: Seq<Seq<bool>>,
    size: u64,
    now_a: u64,
    now_b: u64,
    spare_a: ManagedMemoryHandle,
    spare_b: ManagedMemoryHandle,
)
    requires
        a.wf(),
        b.wf(),
        a.rules is Persistent,
        same_layout(a, b),
        shaped(a.table, free),
    ensures
        a.spot(free, size) == b.spot(free, size),
        a.spot(free, size) matches Some(spot) ==> {
            &&& a.table[spot.page]->0.slices[spot.first].storage.id
                == b.table[spot.page]->0.slices[spot.first].storage.id
            &&& a.table[spot.page]->0.slices[spot.first].start()
                == b.table[spot.page]->0.slices[spot.first].start()
            &&& same_layout(
                a.with_taken(spot, size, now_a, spare_a),
                b.with_taken(spot, size, now_b, spare_b),
            )
        },
{
    let in_a = |p: int| a.has_room(free, p, size);
    let in_b = |p: int| b.has_room(free, p, size);
    assert forall|p: int| 0 <= p < a.table.len() implies #[trigger] in_a(p) == in_b(p) by {
        assert(same_slot(a.table[p], b.table[p]));
        if a.table[p] is Some {
            assert(a.page_follows(a.table[p]->0));
        }
    }
    lemma_first_from(0, a.table.len() as int, in_a);
    lemma_first_from(0, b.table.len() as int, in_b);
    assert(shaped(b.table, free)) by {
        assert forall|i: int| 0 <= i < b.table.len() implies (#[trigger] free[i]).len()
            == slice_count(b.table[i]) by {
            assert(same_slot(a.table[i], b.table[i]));
        }
    }
    lemma_spot(a, free, size);
    lemma_spot(b, free, size);
    match (a.spot(free, size), b.spot(free, size)) {
        (Some(x), Some(y)) => {
            assert(in_a(x.page) && in_a(y.page));
            assert(x.page == y.page);
            let page_a = a.table[x.page]->0;
            let page_b = b.table[x.page]->0;
            assert(same_slot(a.table[x.page], b.table[x.page]));
            assert(a.page_follows(page_a) && b.page_follows(page_b));
            let after_a = a.with_taken(x, size, now_a, spare_a);
            let after_b = b.with_taken(x, size, now_b, spare_b);
            assert forall|i: int| 0 <= i < after_a.table.len() implies same_slot(
                #[trigger] after_a.table[i],
                #[trigger] after_b.table[i],
            ) by {
                assert(same_slot(a.table[i], b.table[i]));
            }
        },
        (Some(x), None) => {
            assert(in_b(x.page));
        },
        (None, Some(y)) => {
            assert(in_a(y.page));
        },
        (None, None) => {},
    }
}

/// One request to an arena: how many bytes are asked for, which slices are free at that
/// time, what time it is, and the handle that a slice split off would get.
pub struct Request {
    /// How many bytes are asked for.
    pub size: u64,
    /// Which slices are free, page by page.
    pub free: Seq<Seq<bool>>,
    /// When the request comes.
    pub now: u64,
    /// The handle of a slice that is split off.
    pub spare: ManagedMemoryHandle,
}

/// An arena after it served requests one after the other.
pub open spec fn served(pool: PoolView, requests: Seq<Request>) -> PoolView
    decreases requests.len(),
{
    if requests.len() == 0 {
        pool
    } else {
        let last = requests.last();
        let before = served(pool, requests.drop_last());
        before.with_taken(before.spot(last.free, last.size)->0, last.size, last.now, last.spare)
    }
}

/// Where an arena serves request `i` of several.
pub open spec fn placed(pool: PoolView, requests: Seq<Request>, i: int) -> Option<Spot> {
    served(pool, requests.take(i)).spot(requests[i].free, requests[i].size)
}

/// An arena serves every one of several requests from the pages it has.
pub open spec fn serves(pool: PoolView, requests: Seq<Request>) -> bool {
    forall|i: int|
        0 <= i < requests.len() ==> {
            &&& shaped(served(pool, requests.take(i)).table, (#[trigger] requests[i]).free)
            &&& placed(pool, requests, i) is Some
        }
}

/// A region that issues the same requests, against the same free slices, gets the same
/// addresses each time, however long it is: request by request, an arena of the same layout
/// serves it at the same place.
pub proof fn law_region_repeats(a: PoolView, b: PoolView, xs: Seq<Request>, ys: Seq<Request>)
    requires
        a.wf(),
        b.wf(),
        a.rules is Persistent,
        same_layout(a, b),
        serves(a, xs),
        xs.len() == ys.len(),
        forall|i: int|
            0 <= i < xs.len() ==> (#[trigger] xs[i]).size == ys[i].size && xs[i].free == ys[i].free,
    ensures
        serves(b, ys),
        same_layout(served(a, xs), served(b, ys)),
        forall|i: int|
            0 <= i < xs.len() ==> {
                let spot = (#[trigger] placed(a, xs, i))->0;
                let x = served(a, xs.take(i)).table[spot.page]->0.slices[spot.first];
                let y = served(b, ys.take(i)).table[spot.page]->0.slices[spot.first];
                &&& placed(b, ys, i) == Some(spot)
                &&& x.storage.id == y.storage.id
                &&& x.start() == y.start()
            },
{
    assert forall|i: int| 0 <= i < xs.len() implies {
        let spot = (#[trigger] placed(a, xs, i))->0;
        let x = served(a, xs.take(i)).table[spot.page]->0.slices[spot.first];
        let y = served(b, ys.take(i)).table[spot.page]->0.slices[spot.first];
        &&& placed(b, ys, i) == Some(spot)
        &&& shaped(served(b, ys.take(i)).table, ys[i].free)
        &&& x.storage.id == y.storage.id
        &&& x.start() == y.start()
    } by {
        lemma_prefix_repeats(a, b, xs, ys, i);
        let before_a = served(a, xs.take(i));
        let before_b = served(b, ys.take(i));
        let x = xs[i];
        let y = ys[i];
        law_arena_repeats(before_a, before_b, x.free, x.size, x.now, y.now, x.spare, y.spare);
        assert forall|k: int| 0 <= k < before_b.table.len() implies (#[trigger] y.free[k]).len()
            == slice_count(before_b.table[k]) by {
            assert(same_slot(before_a.table[k], before_b.table[k]));
            assert(x.free[k].len() == slice_count(before_a.table[k]));
        }
    }
    assert forall|i: int| 0 <= i < ys.len() implies {
        &&& shaped(served(b, ys.take(i)).table, (#[trigger] ys[i]).free)
        &&& placed(b, ys, i) is Some
    } by {
        assert(placed(a, xs, i) is Some || placed(a, xs, i) is None);
    }
    lemma_prefix_repeats(a, b, xs, ys, xs.len() as int);
    assert(xs.take(xs.len() as int) == xs);
    assert(ys.take(ys.len() as int) == ys);
}

/// After as many of the same requests, two arenas of the same layout still have the same
/// layout.
proof fn lemma_prefix_repeats(
    a: PoolView,
    b: PoolView,
    xs: Seq<Request>,
    ys: Seq<Request>,
    n: int,
)
    requires
        a.wf(),
        b.wf(),
        a.rules is Persistent,
        same_layout(a, b),
        serves(a, xs),
        xs.len() == ys.len(),
        0 <= n <= xs.len(),
        forall|i: int|
            0 <= i < xs.len() ==> (#[trigger] xs[i]).size == ys[i].size && xs[i].free == ys[i].free,
    ensures
        served(a, xs.take(n)).wf(),
        served(b, ys.take(n)).wf(),
        served(a, xs.take(n)).rules is Persistent,
        same_layout(served(a, xs.take(n)), served(b, ys.take(n))),
    decreases n,
{
    if n > 0 {
        lemma_prefix_repeats(a, b, xs, ys, n - 1);
        let x = xs[n - 1];
        let y = ys[n - 1];
        assert(xs.take(n).drop_last() == xs.take(n - 1));
        assert(ys.take(n).drop_last() == ys.take(n - 1));
        assert(xs.take(n).last() == x && ys.take(n).last() == y);
        let before_a = served(a, xs.take(n - 1));
        let before_b = served(b, ys.take(n - 1));
        law_arena_repeats(before_a, before_b, x.free, x.size, x.now, y.now, x.spare, y.spare);
        assert(placed(a, xs, n - 1) is Some);
        assert forall|k: int| 0 <= k < before_b.table.len() implies (#[trigger] y.free[k]).len()
            == slice_count(before_b.table[k]) by {
            assert(same_slot(before_a.table[k], before_b.table[k]));
            assert(x.free[k].len() == slice_count(before_a.table[k]));
        }
        lemma_with_taken(before_a, x.free, x.size, x.now, x.spare);
        lemma_with_taken(before_b, y.free, y.size, y.now, y.spare);
    }
}

/// No two slices share a byte, whatever pools they are in.
pub proof fn law_slices_are_disjoint(
    m: MemoryView,
    k1: int,
    p1: int,
    i1: int,
    k2: int,
    p2: int,
    i2: int,
)
    requires
        m.wf(),
        0 <= k1 < m.pools.len(),
        0 <= p1 < m.pools[k1].table.len(),
        m.pools[k1].table[p1] is Some,
        0 <= i1 < m.pools[k1].table[p1]->0.slices.len(),
        0 <= k2 < m.pools.len(),
        0 <= p2 < m.pools[k2].table.len(),
        m.pools[k2].table[p2] is Some,
        0 <= i2 < m.pools[k2].table[p2]->0.slices.len(),
        (k1, p1, i1) != (k2, p2, i2),
    ensures
        ({
            let a = m.pools[k1].table[p1]->0.slices[i1];
            let b = m.pools[k2].table[p2]->0.slices[i2];
            a.storage.id != b.storage.id || a.end() <= b.start() || b.end() <= a.start()
        }),
{
    let page1 = m.pools[k1].table[p1]->0;
    let page2 = m.pools[k2].table[p2]->0;
    assert(m.pools[k1].wf() && m.pools[k2].wf());
    assert(page_wf(page1) && page_wf(page2));
    assert(page1.slices[i1].storage.id == page1.storage);
    assert(page2.slices[i2].storage.id == page2.storage);
    assert(m.owned_by(k1, page1.storage));
    assert(m.owned_by(k2, page2.storage));
    if k1 == k2 && p1 == p2 {
        if i1 < i2 {
            assert(page1.slices[i1].end() <= page1.slices[i2].start());
        } else {
            assert(page1.slices[i2].end() <= page1.slices[i1].start());
        }
    }
}

/// Every slice starts at a multiple of the alignment, and ends on its page.
pub proof fn law_slices_are_aligned(pool: PoolView, p: int, i: int)
    requires
        pool.wf(),
        0 <= p < pool.table.len(),
        pool.table[p] is Some,
        0 <= i < pool.table[p]->0.slices.len(),
    ensures
        pool.table[p]->0.slices[i].start() % (pool.alignment as int) == 0,
        pool.table[p]->0.slices[i].end() <= pool.table[p]->0.bytes,
{
    let page = pool.table[p]->0;
    assert(page_wf(page) && pool.page_follows(page));
    assert(page.slices[i].end() <= page.bytes);
    if pool.rules !is Sliced {
        vstd::arithmetic::div_mod::lemma_small_mod(0, pool.alignment as nat);
    }
}

/// A slice that is in use survives every reservation: it keeps its page, its bytes and
/// its handle.
pub proof fn law_reserve_keeps_what_is_in_use(
    m: MemoryView,
    size: u64,
    live: Liveness,
    r: Result<ManagedMemoryHandle, IoError>,
    after: MemoryView,
    k: int,
    p: int,
    i: int,
)
    requires
        m.wf(),
        m.shaped(live),
        m.reserved(size, live, r, after),
        0 <= k < m.pools.len(),
        0 <= p < m.pools[k].table.len(),
        m.pools[k].table[p] is Some,
        0 <= i < m.pools[k].table[p]->0.slices.len(),
        !live[k][p][i],
    ensures
        p < after.pools[k].table.len(),
        after.pools[k].table[p] is Some,
        after.pools[k].table[p]->0.slices.contains(m.pools[k].table[p]->0.slices[i]),
{
    let page = m.pools[k].table[p]->0;
    lemma_first_from(0, m.dynamic(), |n: int| m.pools[n].accepts(size));
    assert(page.slices.contains(page.slices[i]));
    match m.plan(size, live) {
        Plan::Serve { pool, spot } => {
            assert(shaped(m.pools[pool].table, live[pool]));
            lemma_spot(m.pools[pool], live[pool], size);
            if pool == k && spot.page == p {
                let s = after.pools[k].table[p]->0.slices;
                if i < spot.first {
                    assert(s[i] == page.slices[i]);
                } else {
                    assert(i > spot.last);
                    let shift = s.len() - page.slices.len();
                    assert(m.pools[k].page_follows(page));
                    assert(s[i + shift] == page.slices[i]);
                }
            } else {
                assert(after.pools[k].table[p] == m.pools[k].table[p]);
            }
        },
        Plan::Grow { pool } => {
            if pool == k {
                let table = m.pools[k].table;
                lemma_first_from(0, table.len() as int, |n: int| table[n] is None);
                assert(after.pools[k].table[p] == m.pools[k].table[p]);
            }
        },
        Plan::TooBig => {},
    }
}

/// A slice that is in use survives every cleanup, in its place.
pub proof fn law_cleanup_keeps_what_is_in_use(
    m: MemoryView,
    live: Liveness,
    explicit: bool,
    which: Set<int>,
    k: int,
    p: int,
    i: int,
)
    requires
        m.wf(),
        m.shaped(live),
        0 <= k < m.pools.len(),
        0 <= p < m.pools[k].table.len(),
        m.pools[k].table[p] is Some,
        0 <= i < m.pools[k].table[p]->0.slices.len(),
        !live[k][p][i],
    ensures
        ({
            let after = m.cleaned_where(live, explicit, which).pools[k].table[p];
            after is Some && after->0.slices[i] == m.pools[k].table[p]->0.slices[i]
        }),
{
    assert(shaped(m.pools[k].table, live[k]));
    assert(live[k][p].len() == slice_count(m.pools[k].table[p]));
}

/// A reservation that succeeds holds a slice of exactly the bytes asked for.
pub proof fn law_reserved_has_its_size(
    m: MemoryView,
    size: u64,
    live: Liveness,
    handle: ManagedMemoryHandle,
    after: MemoryView,
)
    requires
        m.wf(),
        m.shaped(live),
        m.reserved(size, live, Ok(handle), after),
    ensures
        exists|k: int, p: int, i: int|
            {
                &&& 0 <= k < after.pools.len()
                &&& 0 <= p < after.pools[k].table.len()
                &&& after.pools[k].table[p] is Some
                &&& 0 <= i < after.pools[k].table[p]->0.slices.len()
                &&& (#[trigger] after.pools[k].table[p]->0.slices[i]).handle == handle
                &&& after.pools[k].table[p]->0.slices[i].storage.size == size
            },
{
    lemma_first_from(0, m.dynamic(), |n: int| m.pools[n].accepts(size));
    match m.plan(size, live) {
        Plan::Serve { pool, spot } => {
            assert(shaped(m.pools[pool].table, live[pool]));
            lemma_spot(m.pools[pool], live[pool], size);
            let slice = after.pools[pool].table[spot.page]->0.slices[spot.first];
            assert(slice.handle == handle && slice.storage.size == size);
        },
        Plan::Grow { pool } => {
            let table = m.pools[pool].table;
            lemma_first_from(0, table.len() as int, |n: int| table[n] is None);
            let p = vacant(table);
            let slice = after.pools[pool].table[p]->0.slices[0];
            assert(slice.handle == handle && slice.storage.size == size);
        },
        Plan::TooBig => {},
    }
}

/// After a slice was given to a handle that no slice of the page held, that handle finds
/// it: with the bytes it had, and the cursor it was given.
pub proof fn law_bound_handle_finds_its_slice(
    m: MemoryView,
    id: usize,
    location: MemoryLocation,
    assigned: ManagedMemoryHandle,
    cursor: u64,
)
    requires
        m.wf(),
        m.find(id, location) is Ok,
        !m.external.contains_key(id),
        !m.external.contains_key(assigned.id()),
        slice_of(
            m.pools[m.pool_of(location.pool)].table[location.page as int]->0.slices,
            assigned.id(),
        ) is None,
    ensures
        m.bound(id, location, assigned, cursor).storage_of(assigned.id(), location)
            == m.storage_of(id, location),
        m.bound(id, location, assigned, cursor).cursor_of(assigned.id(), location) == Ok::<
            u64,
            IoError,
        >(cursor),
{
    let k = m.pool_of(location.pool);
    let p = location.page as int;
    let after = m.bound(id, location, assigned, cursor);
    let was = m.pools[k].table[p]->0.slices;
    let is = after.pools[k].table[p]->0.slices;
    lemma_first_from(0, was.len() as int, |n: int| was[n].handle.id() == id);
    lemma_first_from(0, was.len() as int, |n: int| was[n].handle.id() == assigned.id());
    let at = slice_of(was, id)->0;
    let held = |n: int| is[n].handle.id() == assigned.id();
    assert forall|n: int| 0 <= n < at implies !(#[trigger] held(n)) by {
        assert(is[n] == was[n]);
        let p = |n: int| was[n].handle.id() == assigned.id();
        assert(!p(n));
    }
    assert(held(at));
    crate::first::lemma_first_is(is.len(), held, at);
}

/// A handle that was registered finds what it was registered with, with nothing to wait
/// for; and every other handle finds what it found before.
pub proof fn law_registered_handle_resolves(
    m: MemoryView,
    id: usize,
    storage: StorageHandle,
    location: MemoryLocation,
    other: usize,
)
    requires
        other != id,
    ensures
        ({
            let after = m.registered(id, storage);
            &&& after.storage_of(id, location) == Ok::<StorageHandle, IoError>(storage)
            &&& after.cursor_of(id, location) == Ok::<u64, IoError>(0)
            &&& after.storage_of(other, location) == m.storage_of(other, location)
            &&& after.cursor_of(other, location) == m.cursor_of(other, location)
        }),
{
}

/// Two regions whose requests differ in one size have different signatures.
pub proof fn law_signature_tells_one_size(a: Seq<u64>, b: Seq<u64>, i: int)
    requires
        a.len() == b.len(),
        0 <= i < a.len(),
        a[i] != b[i],
        forall|j: int| 0 <= j < a.len() && j != i ==> a[j] == b[j],
    ensures
        signature(a, 0) != signature(b, 0),
{
    assert(a.skip(0) =~= a);
    assert(b.skip(0) =~= b);
    assert(b =~= a.update(i, b[i]));
    lemma_fold_one_word(SIGNATURE_MULTIPLIER, FNV_OFFSET, a, i, b[i]);
}

/// What is in use never exceeds what is reserved, over all pools.
pub proof fn law_usage_within_reserved(m: MemoryView, live: Liveness, n: nat)
    requires
        m.wf(),
        n <= m.pools.len(),
    ensures
        m.usage_upto(live, n).bytes_in_use + m.usage_upto(live, n).bytes_padding <= m.usage_upto(
            live,
            n,
        ).bytes_reserved,
    decreases n,
{
    if n > 0 {
        law_usage_within_reserved(m, live, (n - 1) as nat);
        assert(m.pools[n - 1].wf());
        lemma_usage_within_reserved(
            m.pools[n - 1].table,
            live[n - 1],
            m.pools[n - 1].table.len(),
        );
    }
}

} // verus!
