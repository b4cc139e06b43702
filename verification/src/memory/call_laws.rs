//! What each call does to a memory management, pool by pool and slice by slice.

use vstd::prelude::*;

use crate::first::{first_where, lemma_first_from};
use crate::fnv::fold;
use crate::handle::{Binding, Handle};
use crate::memory::error::{IoError, Missing};
use crate::memory::handle::{
    can_mut_with, holders_with, is_free_with, located, HandleIds, ManagedMemoryBinding,
    ManagedMemoryHandle, MemoryLocation,
};
use crate::memory::manage::{configurable, ArenaStats, MemoryManagement, Reservation};
use crate::memory::model::{lives, MemoryView};
use crate::memory::option_laws::pages_bytes;
use crate::memory::options::{
    MemoryAllocationMode, MemoryAllocationOption, MemoryConfiguration, MemoryDeviceProperties,
    MemoryManagementOptions, PersistentMemory,
};
use crate::memory::page::{
    flags, free_flags, shaped, table_owns, tallies, unheld, vacant, PageTable, PageView, Slice,
};
use crate::memory::pool::{PoolRules, PoolView};
use crate::memory::range_laws::{first_slice, pool_meant};
use crate::memory::storage::{ComputeStorage, StorageHandle};
use crate::memory::table_laws::{first_held, lemma_first_held, one_rebound, page_at};
use crate::memory::usage::{table_usage, MemoryUsage};

verus! {

/// Memory is free exactly if nobody but the pool holds it, and may be written in place if at
/// most one user does beside. Memory that is read only is neither, whoever holds it.
pub proof fn law_holders_decide(
    clones: usize,
    read_only: bool,
    holders: usize,
    writable: bool,
    free: bool,
)
    requires
        1 <= clones,
        call_ensures(holders_with, (clones, read_only), holders),
        call_ensures(can_mut_with, (holders,), writable),
        call_ensures(is_free_with, (holders,), free),
    ensures
        read_only ==> !writable && !free,
        !read_only ==> (free <==> clones == 1),
        !read_only ==> (writable <==> clones <= 2),
        holders >= clones,
{
}

/// A location counts once its mark was read, with the pool and the page that were read.
pub proof fn law_marked_locations_count(init: u8, pool: u8, page: usize, r: MemoryLocation)
    requires
        call_ensures(located, (init, pool, page), r),
    ensures
        r.init == 0 <==> init == 0,
        r.init <= 1,
        init != 0 ==> r.pool == pool && r.page == page,
        init == 0 ==> r.pool == 0 && r.page == 0,
{
}

/// A handle to memory stands for all of it. Its binding names the same memory, stream and
/// bytes, with as many left out at the start and at the end.
pub proof fn law_bindings_name_what_handles_do(
    memory: ManagedMemoryHandle,
    stream: u64,
    size: u64,
    handle: Handle,
    bytes: u64,
    other: Handle,
    binding: Binding,
)
    requires
        call_ensures(Handle::from_memory, (memory, stream, size), handle),
        call_ensures(Handle::size, (&handle,), bytes),
        call_ensures(Handle::binding, (other,), binding),
    ensures
        handle.memory == memory && handle.stream == stream && handle.bytes == size && bytes == size,
        handle.offset_start is None && handle.offset_end is None,
        binding.memory.id() == other.memory.id(),
        binding.stream == other.stream,
        binding.offset_start == other.offset_start,
        binding.offset_end == other.offset_end,
        binding.bytes == other.bytes,
{
}

/// A slice is free exactly if at most one holds it, slice by slice.
pub proof fn law_slices_without_holders_are_free(
    counts: Vec<Vec<usize>>,
    r: Vec<Vec<bool>>,
    i: int,
    k: int,
)
    requires
        call_ensures(free_flags, (&counts,), r),
    ensures
        r@.len() == counts@.len(),
        0 <= i < r@.len() ==> r@[i]@.len() == counts@[i]@.len(),
        0 <= i < r@.len() && 0 <= k < r@[i]@.len() ==> (r@[i]@[k] <==> counts@[i]@[k] <= 1),
{
    assert(flags(r@).len() == r@.len());
    assert(unheld(tallies(counts@)).len() == counts@.len());
    if 0 <= i < r@.len() {
        assert(flags(r@)[i] == r@[i]@);
        assert(tallies(counts@)[i] == counts@[i]@);
    }
}

/// Whether a handle holds a slice of a table.
pub open spec fn held_in(table: Seq<Option<PageView>>, id: usize) -> bool {
    exists|p: int, k: int|
        0 <= p < table.len() && table[p] is Some && 0 <= k < table[p]->0.slices.len() && (
        #[trigger] table[p]->0.slices[k]).handle.id() == id
}

/// The pages of a table are searched for a handle from the first on. A new page goes to the
/// first slot without one, or behind all.
pub proof fn law_tables_are_searched_in_order(
    table: PageTable,
    id: usize,
    holds: bool,
    r: Option<usize>,
    at: usize,
)
    requires
        call_ensures(PageTable::holds, (&table, id), holds),
        call_ensures(PageTable::page_of, (&table, id), r),
        call_ensures(PageTable::vacancy, (&table,), at),
    ensures
        holds <==> held_in(table@, id),
        r is Some <==> holds,
        r matches Some(p) ==> {
            &&& p < table@.len() && table@[p as int] is Some
            &&& exists|k: int|
                0 <= k < table@[p as int]->0.slices.len() && (
                #[trigger] table@[p as int]->0.slices[k]).handle.id() == id
            &&& forall|q: int, k: int|
                0 <= q < p && table@[q] is Some && 0 <= k < table@[q]->0.slices.len() ==> (
                #[trigger] table@[q]->0.slices[k]).handle.id() != id
        },
        at <= table@.len(),
        at < table@.len() ==> table@[at as int] is None,
        forall|q: int| 0 <= q < at ==> (#[trigger] table@[q]) is Some,
{
    let t = table@;
    crate::memory::page::lemma_page_with(t, id);
    let found = |p: int| crate::memory::page::find_slice(t, p, id) is Ok;
    lemma_first_from(0, t.len() as int, found);
    let empty = |i: int| t[i] is None;
    lemma_first_from(0, t.len() as int, empty);
    assert forall|q: int| 0 <= q < at implies (#[trigger] t[q]) is Some by {
        assert(!empty(q));
    }
    if let Some(p) = r {
        assert(found(p as int));
        let slices = t[p as int]->0.slices;
        lemma_first_from(0, slices.len() as int, |k: int| slices[k].handle.id() == id);
        let k = crate::memory::page::slice_of(slices, id)->0;
        assert(t[p as int]->0.slices[k].handle.id() == id);
        assert forall|q: int, k: int|
            0 <= q < p && t[q] is Some && 0 <= k < t[q]->0.slices.len() implies (
        #[trigger] t[q]->0.slices[k]).handle.id() != id by {
            assert(!found(q));
            let others = t[q]->0.slices;
            let held = |k: int| others[k].handle.id() == id;
            lemma_first_from(0, others.len() as int, held);
            assert(!held(k));
        }
    }
}

/// Which pool a reservation was sent to, if it was sent to one.
pub open spec fn sent_to(r: Reservation) -> Option<int> {
    match r {
        Reservation::Served { pool, .. } => Some(pool as int),
        Reservation::Grow { pool, .. } => Some(pool as int),
        Reservation::TooBig => None,
    }
}

/// Whether persistent memory is used for a reservation: the mode says so, or the pool has a
/// slice of the size, free or not.
pub open spec fn persists(m: MemoryView, size: u64, free: Seq<Seq<bool>>) -> bool {
    let pool = m.pools[m.pools.len() - 2];
    m.mode is Persistent || pool.owns_size(size) || pool.spot(free, size) is Some
}

/// While the arena is open every reservation is sent there. Else it is sent to persistent
/// memory where that is used, and otherwise to the first pool that takes the size. It is served
/// from a spot if there is one, and needs a page of the pool's size if there is none.
pub proof fn law_reservations_are_sent_to_their_pool<Storage: ComputeStorage>(
    memory: &mut MemoryManagement<Storage>,
    size: u64,
    live: Vec<Vec<Vec<bool>>>,
    spare: ManagedMemoryHandle,
    r: Reservation,
    k: int,
)
    requires
        old(memory)@.wf(),
        old(memory)@.can_count(),
        old(memory)@.shaped(lives(live@)),
        call_ensures(
            MemoryManagement::<Storage>::begin_reserve,
            (memory, size, &live, spare),
            r,
        ),
    ensures
        ({
            let m = old(memory)@;
            let n = m.pools.len() as int;
            let l = lives(live@);
            &&& m.arena_active && sent_to(r) is Some ==> sent_to(r) == Some(n - 1)
            &&& !m.arena_active && persists(m, size, l[n - 2]) && sent_to(r) is Some ==> sent_to(r)
                == Some(n - 2)
            &&& !m.arena_active && !persists(m, size, l[n - 2]) && sent_to(r) is Some ==> {
                &&& 0 <= sent_to(r)->0 < n - 2
                &&& m.pools[sent_to(r)->0].accepts(size)
                &&& 0 <= k < sent_to(r)->0 ==> !m.pools[k].accepts(size)
            }
            &&& r is TooBig && !m.arena_active && !persists(m, size, l[n - 2]) && 0 <= k < n - 2
                && m.pools[k].accepts(size) ==> exists|j: int|
                0 <= j <= k && (#[trigger] m.pools[j]).accepts(size) && !m.pools[j].can_hold(size)
            &&& r matches Reservation::Served { pool, .. } ==> m.pools[pool as int].spot(
                l[pool as int],
                size,
            ) is Some
            &&& r matches Reservation::Grow { pool, bytes } ==> {
                &&& m.pools[pool as int].spot(l[pool as int], size) is None
                &&& m.pools[pool as int].can_hold(size)
                &&& bytes == m.pools[pool as int].page_bytes(size)
            }
        }),
{
    let m = old(memory)@;
    let n = m.pools.len() as int;
    let p = |k: int| m.pools[k].accepts(size);
    lemma_first_from(0, m.dynamic(), p);
    if !m.arena_active && !persists(m, size, lives(live@)[n - 2]) {
        if let Some(s) = sent_to(r) {
            assert(p(s));
            if 0 <= k < s {
                assert(!p(k));
            }
        }
        if r is TooBig && 0 <= k < n - 2 && m.pools[k].accepts(size) {
            assert(p(k));
            let j = first_where(m.dynamic() as nat, p)->0;
            assert(m.pools[j].accepts(size));
            if j > k {
                assert(!p(k));
            }
        }
    }
}

/// Every reservation counts as one. While the arena is open it counts for the arena, with its
/// size behind the others, and as a miss unless it was served.
pub proof fn law_reservations_are_counted<Storage: ComputeStorage>(
    memory: &mut MemoryManagement<Storage>,
    size: u64,
    live: Vec<Vec<Vec<bool>>>,
    spare: ManagedMemoryHandle,
    r: Reservation,
)
    requires
        old(memory)@.wf(),
        old(memory)@.can_count(),
        old(memory)@.shaped(lives(live@)),
        call_ensures(
            MemoryManagement::<Storage>::begin_reserve,
            (memory, size, &live, spare),
            r,
        ),
    ensures
        ({
            let was = old(memory)@;
            let now = final(memory)@;
            let one: int = if was.arena_active {
                1
            } else {
                0
            };
            &&& now.reserve_count == was.reserve_count + 1
            &&& now.arena_served == was.arena_served + one
            &&& now.arena_misses == was.arena_misses + (if r is Served {
                0
            } else {
                one
            })
            &&& was.arena_active ==> now.arena_sizes == was.arena_sizes.push(size)
            &&& !was.arena_active ==> now.arena_sizes == was.arena_sizes
            &&& !(r is Served) ==> now.pools == was.pools
            &&& now.arena_active == was.arena_active && now.mode == was.mode
            &&& now.external == was.external && now.allocated == was.allocated
            &&& now.pools.len() == was.pools.len()
            &&& forall|j: int|
                0 <= j < was.pools.len() && sent_to(r) != Some(j) ==> (#[trigger] now.pools[j])
                    == was.pools[j]
        }),
{
}

/// A page that the storage allocated is put into its pool for the reservation, under the handle
/// that names it. A refusal of the storage is passed on and changes nothing.
pub proof fn law_pages_complete_reservations<Storage: ComputeStorage>(
    memory: &mut MemoryManagement<Storage>,
    pool: usize,
    size: u64,
    allocated: Result<StorageHandle, IoError>,
    handle: ManagedMemoryHandle,
    spare: ManagedMemoryHandle,
    r: Result<(ManagedMemoryHandle, usize), IoError>,
)
    requires
        old(memory)@.wf(),
        pool < old(memory)@.pools.len(),
        old(memory)@.pools[pool as int].can_hold(size),
        allocated matches Ok(storage) ==> {
            &&& storage.offset == 0
            &&& storage.size == old(memory)@.pools[pool as int].page_bytes(size)
            &&& old(memory)@.outside(storage.id)
        },
        call_ensures(
            MemoryManagement::<Storage>::complete_reserve,
            (memory, pool, size, allocated, handle, spare),
            r,
        ),
    ensures
        allocated matches Err(error) ==> r == Err::<(ManagedMemoryHandle, usize), IoError>(error)
            && final(memory)@ == old(memory)@,
        allocated matches Ok(storage) ==> {
            let was = old(memory)@.pools[pool as int].table;
            let now = final(memory)@.pools[pool as int].table;
            &&& r matches Ok((named, at)) && {
                &&& named == handle
                &&& at <= was.len()
                &&& at < was.len() ==> was[at as int] is None
                &&& now[at as int] matches Some(page) && page.storage == storage.id
                    && page.slices[0].handle == handle && page.slices[0].storage.size == size
                    && page.slices[0].storage.offset == 0
            }
            &&& forall|j: int|
                0 <= j < old(memory)@.pools.len() && j != pool ==> (
                #[trigger] final(memory)@.pools[j]) == old(memory)@.pools[j]
        },
{
    let was = old(memory)@.pools[pool as int].table;
    let empty = |i: int| was[i] is None;
    lemma_first_from(0, was.len() as int, empty);
}

/// Opening the arena begins a new window, of the next generation, and frees nothing.
pub proof fn law_arena_opens_a_window<Storage: ComputeStorage>(
    memory: &mut MemoryManagement<Storage>,
    r: u64,
)
    requires
        old(memory)@.wf(),
        old(memory)@.arena_generation < u64::MAX,
        call_ensures(MemoryManagement::<Storage>::arena_begin, (memory,), r),
    ensures
        final(memory)@.arena_active,
        final(memory)@.arena_sizes.len() == 0,
        final(memory)@.arena_generation == r && r == old(memory)@.arena_generation + 1,
        final(memory)@.pools == old(memory)@.pools,
        final(memory)@.allocated == old(memory)@.allocated,
        final(memory)@.arena_served == old(memory)@.arena_served,
        final(memory)@.arena_misses == old(memory)@.arena_misses,
{
}

/// Closing the arena keeps everything that it has, and its window.
pub proof fn law_arena_closes_and_keeps<Storage: ComputeStorage>(
    memory: &mut MemoryManagement<Storage>,
    r: (),
)
    requires
        old(memory)@.wf(),
        call_ensures(MemoryManagement::<Storage>::arena_end, (memory,), r),
    ensures
        !final(memory)@.arena_active,
        final(memory)@.pools == old(memory)@.pools,
        final(memory)@.allocated == old(memory)@.allocated,
        final(memory)@.arena_sizes == old(memory)@.arena_sizes,
        final(memory)@.arena_generation == old(memory)@.arena_generation,
        final(memory)@.arena_served == old(memory)@.arena_served,
        final(memory)@.arena_misses == old(memory)@.arena_misses,
{
}

/// Resetting the counters of the arena leaves all else as it is.
pub proof fn law_arena_counts_anew<Storage: ComputeStorage>(
    memory: &mut MemoryManagement<Storage>,
    r: (),
)
    requires
        old(memory)@.wf(),
        call_ensures(MemoryManagement::<Storage>::arena_reset_counters, (memory,), r),
    ensures
        final(memory)@.arena_served == 0 && final(memory)@.arena_misses == 0,
        final(memory)@.pools == old(memory)@.pools,
        final(memory)@.arena_active == old(memory)@.arena_active,
        final(memory)@.arena_sizes == old(memory)@.arena_sizes,
        final(memory)@.arena_generation == old(memory)@.arena_generation,
        final(memory)@.reserve_count == old(memory)@.reserve_count,
{
}

/// What is told of the arena is what it is: whether it is open, how far its window is, whether
/// it can be opened again, and the hash of the sizes since a mark.
pub proof fn law_arena_is_told_as_it_is<Storage: ComputeStorage>(
    memory: MemoryManagement<Storage>,
    from: usize,
    open: bool,
    mark: usize,
    again: bool,
    hash: u64,
)
    requires
        call_ensures(MemoryManagement::<Storage>::arena_active, (&memory,), open),
        call_ensures(MemoryManagement::<Storage>::arena_mark, (&memory,), mark),
        call_ensures(MemoryManagement::<Storage>::can_open_arena, (&memory,), again),
        call_ensures(MemoryManagement::<Storage>::arena_signature, (&memory, from), hash),
    ensures
        open == memory@.arena_active,
        mark == memory@.arena_sizes.len(),
        again <==> memory@.arena_generation < u64::MAX,
        from <= mark ==> hash == fold(
            0x1000_0000_01b3,
            0xcbf2_9ce4_8422_2325,
            memory@.arena_sizes.skip(from as int),
        ),
        from >= mark ==> hash == 0xcbf2_9ce4_8422_2325,
{
    let sizes = memory@.arena_sizes;
    assert(sizes.skip(sizes.len() as int) =~= Seq::<u64>::empty());
}

/// The arena owns a handle's memory if it holds the handle and no other pool does, and does not
/// if it is the other way round, whatever the handle says.
pub proof fn law_pools_know_who_owns<Storage: ComputeStorage>(
    memory: MemoryManagement<Storage>,
    binding: ManagedMemoryBinding,
    r: bool,
    location: MemoryLocation,
    placed: bool,
)
    requires
        memory@.wf(),
        call_ensures(MemoryManagement::<Storage>::arena_owns, (&memory, &binding), r),
        call_ensures(MemoryManagement::<Storage>::arena_owns_at, (&memory, location), placed),
    ensures
        ({
            let n = memory@.pools.len() as int;
            let here = held_in(memory@.pools[n - 1].table, binding.id());
            let there = exists|k: int|
                0 <= k < n - 1 && held_in((#[trigger] memory@.pools[k]).table, binding.id());
            &&& here && !there ==> r
            &&& !here && there ==> !r
            &&& placed <==> location.pool == n - 1
        }),
{
    let m = memory@;
    let n = m.pools.len() as int;
    let id = binding.id();
    assert forall|k: int| 0 <= k < n implies #[trigger] m.held_by(k, id) == held_in(
        m.pools[k].table,
        id,
    ) by {}
    assert(m.held_by(n - 1, id) == held_in(m.pools[n - 1].table, id));
    if exists|k: int| 0 <= k < n - 1 && held_in((#[trigger] m.pools[k]).table, id) {
        let k = choose|k: int| 0 <= k < n - 1 && held_in((#[trigger] m.pools[k]).table, id);
        assert(m.held_by(k, id));
        assert(m.held_elsewhere(id));
    }
    if m.held_elsewhere(id) {
        let k = choose|k: int| 0 <= k < m.arena_at() && #[trigger] m.held_by(k, id);
        assert(held_in(m.pools[k].table, id));
    }
}

/// What the arena is holding is told field by field: how often it was opened, what it served
/// and missed, and the bytes of its pages.
pub proof fn law_arena_stats_are_its_numbers<Storage: ComputeStorage>(
    memory: MemoryManagement<Storage>,
    free: Vec<Vec<bool>>,
    r: ArenaStats,
    arena: PoolView,
)
    requires
        memory@.wf(),
        arena == memory@.pools[memory@.pools.len() - 1],
        shaped(arena.table, flags(free@)),
        table_usage(arena.table, flags(free@)).fits(),
        call_ensures(MemoryManagement::<Storage>::arena_stats_with, (&memory, &free), r),
    ensures
        r.generation == memory@.arena_generation,
        r.served == memory@.arena_served,
        r.misses == memory@.arena_misses,
        r.bytes_reserved == table_usage(arena.table, flags(free@)).bytes_reserved,
        r.bytes_in_use == table_usage(arena.table, flags(free@)).bytes_in_use,
{
    crate::memory::usage::lemma_table_usage_nonnegative(arena.table, flags(free@));
}

/// The mode is the one asked for exactly where the configuration leaves it open and none was
/// provided. Nothing else changes.
pub proof fn law_mode_changes_where_it_may<Storage: ComputeStorage>(
    memory: &mut MemoryManagement<Storage>,
    mode: MemoryAllocationMode,
    r: (),
)
    requires
        old(memory)@.wf(),
        call_ensures(MemoryManagement::<Storage>::mode, (memory, mode), r),
    ensures
        old(memory)@.config is Enabled && !old(memory)@.forced ==> final(memory)@.mode == mode,
        !(old(memory)@.config is Enabled) || old(memory)@.forced ==> final(memory)@.mode
            == old(memory)@.mode,
        final(memory)@.pools == old(memory)@.pools,
        final(memory)@.forced == old(memory)@.forced,
        final(memory)@.config == old(memory)@.config,
        final(memory)@.arena_active == old(memory)@.arena_active,
{
}

/// Memory that is registered is found under a handle of its own, which cannot be written. What
/// was registered before stays, and no pool changes.
pub proof fn law_registered_memory_is_found<Storage: ComputeStorage>(
    memory: &mut MemoryManagement<Storage>,
    storage: StorageHandle,
    r: ManagedMemoryHandle,
    other: usize,
)
    requires
        old(memory)@.wf(),
        call_ensures(MemoryManagement::<Storage>::register_external, (memory, storage), r),
    ensures
        r.read_only(),
        r.id() >= old(memory)@.next_id,
        final(memory)@.external.contains_key(r.id()),
        final(memory)@.external[r.id()] == storage,
        other != r.id() ==> final(memory)@.external.contains_key(other)
            == old(memory)@.external.contains_key(other) && final(memory)@.external[other]
            == old(memory)@.external[other],
        final(memory)@.pools == old(memory)@.pools,
        final(memory)@.allocated == old(memory)@.allocated,
        final(memory)@.reserve_count == old(memory)@.reserve_count,
{
}

/// Giving a slice to another handle changes the holder and the cursor of the first slice that
/// the handle holds on its page, and nothing else. It is refused where the handle was never
/// placed, where there is no such page, and where it holds nothing there; then nothing changes.
pub proof fn law_slices_change_hands<Storage: ComputeStorage>(
    memory: &mut MemoryManagement<Storage>,
    id: usize,
    location: MemoryLocation,
    assigned: ManagedMemoryHandle,
    cursor: u64,
    r: Result<(), IoError>,
    k: int,
)
    requires
        old(memory)@.wf(),
        call_ensures(
            MemoryManagement::<Storage>::bind_at,
            (memory, id, location, assigned, cursor),
            r,
        ),
    ensures
        ({
            let q = pool_meant(old(memory)@, location.pool);
            let was = old(memory)@.pools[q].table;
            let now = final(memory)@.pools[q].table;
            let p = location.page as int;
            &&& location.init == 0 ==> r == Err::<(), IoError>(
                IoError::NotFound { reason: Missing::Uninitialized },
            ) && final(memory)@ == old(memory)@
            &&& location.init != 0 && (p >= was.len() || was[p] is None) ==> r == Err::<(), IoError>(
                IoError::NotFound { reason: Missing::Page { index: location.page } },
            ) && now == was
            &&& location.init != 0 && p < was.len() && was[p] is Some && (forall|j: int|
                0 <= j < was[p]->0.slices.len() ==> (#[trigger] was[p]->0.slices[j]).handle.id()
                    != id) ==> r == Err::<(), IoError>(IoError::InvalidHandle) && now == was
            &&& location.init != 0 && p < was.len() && was[p] is Some && first_slice(
                was[p]->0,
                id,
                k,
            ) ==> {
                let slice = now[p]->0.slices[k];
                &&& r is Ok
                &&& now.len() == was.len() && now[p] is Some
                &&& now[p]->0.slices.len() == was[p]->0.slices.len()
                &&& slice.handle == assigned && slice.cursor == cursor
                &&& slice.storage == was[p]->0.slices[k].storage
                &&& slice.padding == was[p]->0.slices[k].padding
                &&& forall|j: int|
                    0 <= j < was[p]->0.slices.len() && j != k ==> (#[trigger] now[p]->0.slices[j])
                        == was[p]->0.slices[j]
                &&& forall|j: int| 0 <= j < was.len() && j != p ==> (#[trigger] now[j]) == was[j]
            }
            &&& forall|j: int|
                0 <= j < old(memory)@.pools.len() && j != q ==> (
                #[trigger] final(memory)@.pools[j]) == old(memory)@.pools[j]
        }),
{
    let q = pool_meant(old(memory)@, location.pool);
    let was = old(memory)@.pools[q].table;
    let p = location.page as int;
    if p < was.len() && was[p] is Some {
        let slices = was[p]->0.slices;
        let held = |j: int| slices[j].handle.id() == id;
        lemma_first_from(0, slices.len() as int, held);
        if first_slice(was[p]->0, id, k) {
            assert(held(k));
            let found = crate::memory::page::slice_of(slices, id)->0;
            assert(held(found));
            if found < k {
                assert(slices[found].handle.id() != id);
            }
        }
    }
}

/// Whether a cleanup gives a page back: no slice of it is in use, and either it is asked for or
/// the page is exclusive and overdue.
pub open spec fn given_back(
    pool: PoolView,
    p: int,
    row: Seq<bool>,
    now: u64,
    explicit: bool,
) -> bool {
    &&& forall|k: int| 0 <= k < row.len() ==> #[trigger] row[k]
    &&& explicit || (pool.rules matches PoolRules::Exclusive { dealloc_period, .. } && now
        > pool.table[p]->0.last_used + dealloc_period)
}

/// A cleanup gives back pages of every pool but the arena, which keeps all of its own. The
/// storage keeps what is not given back.
pub proof fn law_cleanup_leaves_the_arena<Storage: ComputeStorage>(
    memory: &mut MemoryManagement<Storage>,
    explicit: bool,
    live: Vec<Vec<Vec<bool>>>,
    r: (),
    k: int,
    p: int,
)
    requires
        old(memory)@.wf(),
        old(memory)@.shaped(lives(live@)),
        call_ensures(MemoryManagement::<Storage>::cleanup_with, (memory, explicit, &live), r),
    ensures
        ({
            let was = old(memory)@;
            let now = final(memory)@;
            let n = was.pools.len() as int;
            &&& now.pools.len() == n
            &&& now.pools[n - 1] == was.pools[n - 1]
            &&& 0 <= k < n - 1 && 0 <= p < was.pools[k].table.len() && was.pools[k].table[p] is Some
                ==> {
                let page = was.pools[k].table[p]->0;
                let gone = given_back(
                    was.pools[k],
                    p,
                    lives(live@)[k][p],
                    was.reserve_count,
                    explicit,
                );
                &&& now.pools[k].table[p] is None <==> gone
                &&& !gone ==> now.pools[k].table[p]->0.slices == page.slices
                &&& was.allocated.contains(page.storage) && !gone ==> now.allocated.contains(
                    page.storage,
                )
                &&& gone ==> !now.allocated.contains(page.storage)
            }
            &&& now.external == was.external && now.reserve_count == was.reserve_count
            &&& now.mode == was.mode && now.arena_active == was.arena_active
        }),
{
    let was = old(memory)@;
    let now = final(memory)@;
    let n = was.pools.len() as int;
    if 0 <= k < n - 1 && 0 <= p < was.pools[k].table.len() && was.pools[k].table[p] is Some {
        let page = was.pools[k].table[p]->0;
        let id = page.storage;
        assert(was.pools[k].wf());
        assert(was.owned_by(k, id));
        let gone = now.pools[k].table[p] is None;
        if gone {
            if table_owns(now.pools[k].table, id) {
                let i = choose|i: int|
                    0 <= i < now.pools[k].table.len() && (#[trigger] now.pools[k].table[i]) is Some
                        && now.pools[k].table[i]->0.storage == id;
                assert(was.pools[k].table[i] is Some && was.pools[k].table[i]->0.storage == id);
            }
        } else {
            assert(now.pools[k].table[p]->0.storage == id);
            assert(table_owns(now.pools[k].table, id));
            assert forall|j: int|
                0 <= j < n && #[trigger] was.owned_by(j, id) implies table_owns(
                now.pools[j].table,
                id,
            ) by {
                if j != k {
                    assert(was.owned_by(k, id));
                }
            }
        }
    }
}

/// Releasing the arena gives back its pages without a slice in use, and no page of another
/// pool.
pub proof fn law_release_is_of_the_arena<Storage: ComputeStorage>(
    memory: &mut MemoryManagement<Storage>,
    live: Vec<Vec<Vec<bool>>>,
    r: (),
    k: int,
    p: int,
)
    requires
        old(memory)@.wf(),
        !old(memory)@.arena_active,
        old(memory)@.shaped(lives(live@)),
        call_ensures(MemoryManagement::<Storage>::arena_release_with, (memory, &live), r),
    ensures
        ({
            let was = old(memory)@;
            let now = final(memory)@;
            let n = was.pools.len() as int;
            &&& now.pools.len() == n
            &&& 0 <= k < n - 1 ==> now.pools[k] == was.pools[k]
            &&& 0 <= p < was.pools[n - 1].table.len() && was.pools[n - 1].table[p] is Some ==> {
                let row = lives(live@)[n - 1][p];
                now.pools[n - 1].table[p] is None <==> forall|j: int|
                    0 <= j < row.len() ==> #[trigger] row[j]
            }
        }),
{
}

/// A new handle has an id that was not known, and can be written.
pub proof fn law_new_handles_are_new<Storage: ComputeStorage>(
    memory: &mut MemoryManagement<Storage>,
    r: ManagedMemoryHandle,
)
    requires
        old(memory)@.wf(),
        call_ensures(MemoryManagement::<Storage>::new_handle, (memory,), r),
    ensures
        !r.read_only(),
        r.id() >= old(memory)@.next_id,
        final(memory)@.pools == old(memory)@.pools,
        final(memory)@.external == old(memory)@.external,
        final(memory)@.next_id >= old(memory)@.next_id,
{
}

/// The bytes of all pages of the first `n` pools.
pub open spec fn pool_bytes(m: MemoryView, n: nat) -> int
    decreases n,
{
    if n == 0 {
        0
    } else {
        pool_bytes(m, (n - 1) as nat) + pages_bytes(
            m.pools[n - 1].table,
            m.pools[n - 1].table.len(),
        )
    }
}

/// All that is in use or not adds up to the pages.
pub proof fn lemma_pool_bytes(m: MemoryView, live: crate::memory::model::Liveness, n: nat)
    requires
        n <= m.pools.len(),
    ensures
        m.usage_upto(live, n).bytes_reserved == pool_bytes(m, n),
    decreases n,
{
    if n > 0 {
        lemma_pool_bytes(m, live, (n - 1) as nat);
        let table = m.pools[n - 1].table;
        crate::memory::option_laws::lemma_pages(table, live[n - 1], table.len());
    }
}

/// What memory reserves are the bytes of the pages of all pools, the arena among them.
pub proof fn law_all_pages_are_reserved<Storage: ComputeStorage>(
    memory: MemoryManagement<Storage>,
    live: Vec<Vec<Vec<bool>>>,
    r: MemoryUsage,
)
    requires
        memory@.wf(),
        memory@.shaped(lives(live@)),
        memory@.usage(lives(live@)).fits(),
        call_ensures(MemoryManagement::<Storage>::memory_usage_with, (&memory, &live), r),
    ensures
        r.bytes_reserved == pool_bytes(memory@, memory@.pools.len()),
{
    lemma_pool_bytes(memory@, lives(live@), memory@.pools.len());
}

/// A new memory management has one pool for each of its options and two more: the persistent
/// one, which takes what a page may be, and the arena, which takes anything. All are empty,
/// aligned as the device says, and numbered in order. Its arena is closed.
pub proof fn law_memory_begins_with_empty_pools<Storage: ComputeStorage>(
    storage: Storage,
    properties: MemoryDeviceProperties,
    config: MemoryConfiguration,
    persistent: PersistentMemory,
    options: MemoryManagementOptions,
    ids: HandleIds,
    r: MemoryManagement<Storage>,
    n: int,
    k: int,
)
    requires
        configurable(config, properties),
        call_ensures(
            MemoryManagement::<Storage>::from_configuration,
            (storage, &properties, config, persistent, options, ids),
            r,
        ),
        n == r@.pools.len(),
    ensures
        n >= 2,
        config matches MemoryConfiguration::Custom { pool_options } ==> n == pool_options@.len() + 2,
        config matches MemoryConfiguration::ExclusivePages { buckets } ==> {
            &&& n == buckets@.len() + 2
            &&& 0 <= k < n - 2 ==> r@.pools[k].rules == (PoolRules::Exclusive {
                max_alloc_size: buckets@[k].size,
                dealloc_period: buckets@[k].dealloc_period,
            })
        },
        r@.pools[n - 2].rules == (PoolRules::Persistent {
            max_alloc_size: properties.max_page_size,
        }),
        r@.pools[n - 1].rules == (PoolRules::Persistent { max_alloc_size: u64::MAX }),
        0 <= k < n ==> {
            &&& r@.pools[k].table.len() == 0
            &&& r@.pools[k].alignment == properties.alignment
            &&& r@.pools[k].position == k
        },
        !r@.arena_active && r@.arena_served == 0 && r@.arena_misses == 0,
        r@.arena_generation == 0 && r@.arena_sizes.len() == 0 && r@.reserve_count == 0,
        r@.name == options.name@,
        r@.config == persistent,
        options.memory matches MemoryAllocationOption::Provided(mode) ==> r@.mode == mode
            && r@.forced,
        options.memory is FromConfig ==> !r@.forced && (r@.mode is Persistent
            <==> persistent is Enforced),
        forall|id: usize| !(#[trigger] r@.external.contains_key(id)),
{
}

/// There is room for one more reservation exactly if no counter that it counts for is full.
pub proof fn law_counters_leave_room<Storage: ComputeStorage>(
    memory: MemoryManagement<Storage>,
    r: bool,
)
    requires
        call_ensures(MemoryManagement::<Storage>::can_reserve, (&memory,), r),
    ensures
        r <==> {
            &&& memory@.reserve_count < u64::MAX
            &&& memory@.arena_active ==> memory@.arena_served < u64::MAX && memory@.arena_misses
                < u64::MAX
        },
{
}

/// Whether a slice of so many bytes lies on a page of a pool under a handle.
pub open spec fn lies_at(
    m: MemoryView,
    k: int,
    p: int,
    handle: ManagedMemoryHandle,
    size: u64,
) -> bool {
    &&& 0 <= k < m.pools.len()
    &&& 0 <= p < m.pools[k].table.len()
    &&& m.pools[k].table[p] is Some
    &&& exists|i: int|
        0 <= i < m.pools[k].table[p]->0.slices.len() && (
        #[trigger] m.pools[k].table[p]->0.slices[i]).handle == handle
            && m.pools[k].table[p]->0.slices[i].storage.size == size
}

/// A reservation that succeeds is a slice of the size asked for, where its location says, under
/// a handle that can be written. It lies in the arena exactly if that is open. Whether it
/// succeeds or not, it is counted; where it does not, no pool changes.
pub proof fn law_reservations_have_a_place<Storage: ComputeStorage>(
    memory: &mut MemoryManagement<Storage>,
    size: u64,
    r: Result<(ManagedMemoryHandle, MemoryLocation), IoError>,
)
    requires
        old(memory)@.wf(),
        old(memory)@.can_count(),
        call_ensures(MemoryManagement::<Storage>::reserve_placed, (memory, size), r),
    ensures
        ({
            let was = old(memory)@;
            let now = final(memory)@;
            let n = was.pools.len() as int;
            &&& now.reserve_count == was.reserve_count + 1
            &&& was.arena_active ==> now.arena_sizes == was.arena_sizes.push(size)
                && now.arena_served == was.arena_served + 1
            &&& !was.arena_active ==> now.arena_sizes == was.arena_sizes && now.arena_served
                == was.arena_served
            &&& now.arena_active == was.arena_active && now.external == was.external
            &&& r matches Ok((handle, location)) ==> {
                &&& !handle.read_only()
                &&& location.init == 1
                &&& location.pool == n - 1 <==> was.arena_active
                &&& lies_at(now, location.pool as int, location.page as int, handle, size)
            }
            &&& r is Err ==> now.pools == was.pools && now.allocated == was.allocated
        }),
{
    let was = old(memory)@;
    let now = final(memory)@;
    let live = choose|live: crate::memory::model::Liveness|
        {
            &&& was.sees(live)
            &&& #[trigger] was.reserved(size, live, crate::memory::manage::handle_of(r), now)
            &&& r matches Ok((_, location)) ==> location == was.planned(size, live)
        };
    let p = |k: int| was.pools[k].accepts(size);
    lemma_first_from(0, was.dynamic(), p);
    if let Ok((handle, location)) = r {
        let k = now.pool_of(location.pool);
        let page = location.page as int;
        let i = choose|i: int|
            0 <= i < now.pools[k].table[page]->0.slices.len() && (
            #[trigger] now.pools[k].table[page]->0.slices[i]).handle == handle
                && now.pools[k].table[page]->0.slices[i].storage.size == size;
        assert(now.pools[k].table[page]->0.slices[i].handle == handle);
        assert(k == location.pool);
    }
}

/// A reservation without its place is counted as one with it, and hands out a handle that can
/// be written.
pub proof fn law_reservations_can_be_written<Storage: ComputeStorage>(
    memory: &mut MemoryManagement<Storage>,
    size: u64,
    r: Result<ManagedMemoryHandle, IoError>,
)
    requires
        old(memory)@.wf(),
        old(memory)@.can_count(),
        call_ensures(MemoryManagement::<Storage>::reserve, (memory, size), r),
    ensures
        asked_of(old(memory)@, final(memory)@, size, r),
{
    let was = old(memory)@;
    let now = final(memory)@;
    let live = choose|live: crate::memory::model::Liveness|
        {
            &&& was.sees(live)
            &&& #[trigger] was.reserved(size, live, r, now)
            &&& crate::memory::manage::refused_by(old(memory).held(), was, size, live, r)
        };
    lemma_asked_of(was, now, size, live, r);
}

/// Whether a cursor is that of a handle: none for what was registered, and else that of a slice
/// that it holds.
pub open spec fn is_cursor_of(m: MemoryView, id: usize, cursor: u64) -> bool {
    if m.external.contains_key(id) {
        cursor == 0
    } else {
        exists|k: int, p: int, i: int|
            0 <= k < m.pools.len() && 0 <= p < m.pools[k].table.len() && m.pools[k].table[p] is Some
                && 0 <= i < m.pools[k].table[p]->0.slices.len() && (
            #[trigger] m.pools[k].table[p]->0.slices[i]).handle.id() == id
                && m.pools[k].table[p]->0.slices[i].cursor == cursor
    }
}

/// Whether a handle holds a slice of some pool.
pub open spec fn held_somewhere(m: MemoryView, id: usize) -> bool {
    exists|k: int| 0 <= k < m.pools.len() && held_in((#[trigger] m.pools[k]).table, id)
}

proof fn lemma_held_somewhere(m: MemoryView, id: usize)
    ensures
        m.holds(id) <==> held_somewhere(m, id),
{
    if m.holds(id) {
        let k = choose|k: int| 0 <= k < m.pools.len() && #[trigger] m.held_by(k, id);
        assert(held_in(m.pools[k].table, id));
    }
    if held_somewhere(m, id) {
        let k = choose|k: int| 0 <= k < m.pools.len() && held_in((#[trigger] m.pools[k]).table, id);
        assert(m.held_by(k, id));
    }
}

/// Where a cursor is found.
pub proof fn lemma_cursor_is_found(m: MemoryView, id: usize, cursor: Result<u64, IoError>)
    requires
        m.wf(),
        crate::memory::manage::sought_cursor(m, id, cursor),
    ensures
        cursor is Ok <==> m.external.contains_key(id) || held_somewhere(m, id),
        cursor matches Ok(found) ==> is_cursor_of(m, id, found),
{
    lemma_held_somewhere(m, id);
    if let Ok(found) = cursor {
        if !m.external.contains_key(id) {
            let location = choose|location: MemoryLocation| #[trigger]
                location.reported() && cursor == m.cursor_of(id, m.sought(id, location));
            let place = m.sought(id, location);
            crate::memory::model::lemma_found_is_slice(m, id, place);
            let slice = m.find(id, place)->Ok_0;
            let (k, p, i) = choose|k: int, p: int, i: int|
                crate::memory::model::has_slice(m, k, p, i) && (
                #[trigger] m.pools[k].table[p]->0.slices[i]) == slice;
            assert(m.pools[k].table[p]->0.slices[i].handle.id() == id);
        }
    }
}

/// A binding is found exactly if its handle was registered or holds a slice, and then what is
/// found is its memory and its cursor.
pub proof fn law_bindings_are_found<Storage: ComputeStorage>(
    memory: MemoryManagement<Storage>,
    binding: ManagedMemoryBinding,
    storage: Result<StorageHandle, IoError>,
    cursor: Result<u64, IoError>,
)
    requires
        memory@.wf(),
        call_ensures(MemoryManagement::<Storage>::get_storage, (&memory, binding), storage),
        call_ensures(MemoryManagement::<Storage>::get_cursor, (&memory, binding), cursor),
    ensures
        storage is Ok <==> memory@.external.contains_key(binding.id()) || held_somewhere(
            memory@,
            binding.id(),
        ),
        cursor is Ok <==> storage is Ok,
        storage matches Ok(found) ==> crate::memory::range_laws::is_memory_of(
            memory@,
            binding.id(),
            found,
        ),
        cursor matches Ok(found) ==> is_cursor_of(memory@, binding.id(), found),
{
    let m = memory@;
    let id = binding.id();
    lemma_held_somewhere(m, id);
    if let Ok(found) = storage {
        if !m.external.contains_key(id) {
            let slice = choose|slice: Slice| #[trigger]
                m.slice_of(id, slice) && slice.storage == found;
            let (k, p, i) = choose|k: int, p: int, i: int|
                crate::memory::model::has_slice(m, k, p, i) && (
                #[trigger] m.pools[k].table[p]->0.slices[i]) == slice;
            assert(m.pools[k].table[p]->0.slices[i].handle.id() == id);
        }
    }
    lemma_cursor_is_found(m, id, cursor);
}

/// Whether a slice that one handle held is another's from then on, at a cursor, and nothing
/// else in the pools changed.
pub open spec fn changes_hands(
    was: MemoryView,
    now: MemoryView,
    id: usize,
    assigned: ManagedMemoryHandle,
    cursor: u64,
) -> bool {
    &&& now.pools.len() == was.pools.len()
    &&& exists|k: int, p: int, i: int|
        {
            &&& 0 <= k < was.pools.len()
            &&& page_at(was.pools[k].table, p)
            &&& #[trigger] first_held(was.pools[k].table[p]->0.slices, id, i)
            &&& one_rebound(was.pools[k].table, now.pools[k].table, p, i, assigned, cursor)
            &&& forall|q: int| 0 <= q < was.pools.len() && q != k ==> #[trigger] now.pools[q]
                == was.pools[q]
        }
}

/// What giving a slice to another handle comes to.
pub proof fn lemma_changes_hands(
    m: MemoryView,
    id: usize,
    assigned: ManagedMemoryHandle,
    cursor: u64,
    r: Result<(), IoError>,
    now: MemoryView,
)
    requires
        m.wf(),
        crate::memory::manage::rebinds(m, id, assigned, cursor, r, now),
    ensures
        r is Ok <==> held_somewhere(m, id),
        r is Ok ==> changes_hands(m, now, id, assigned, cursor),
        r is Ok ==> held_somewhere(now, assigned.id()),
        r is Err ==> now.pools == m.pools,
        now.external == m.external,
        now.allocated == m.allocated,
        now.reserve_count == m.reserve_count,
{
    lemma_held_somewhere(m, id);
    let location = choose|location: MemoryLocation| #[trigger]
        location.reported() && crate::memory::manage::bound_at(
            m,
            id,
            m.sought(id, location),
            assigned,
            cursor,
            r,
            now,
        );
    let place = m.sought(id, location);
    if r is Ok {
        let k = m.pool_of(place.pool);
        let p = place.page as int;
        let slices = m.pools[k].table[p]->0.slices;
        lemma_first_held(slices, id);
        let i = crate::memory::page::slice_of(slices, id)->0;
        assert(first_held(m.pools[k].table[p]->0.slices, id, i));
        assert(now.pools[k].table[p]->0.slices[i].handle.id() == assigned.id());
        assert(held_in(now.pools[k].table, assigned.id()));
    } else {
        assert(now.pools =~= m.pools);
    }
}

/// A slice changes hands exactly if the handle holds one: the other holds it from then on, at
/// the cursor that is given, and it keeps its memory. Nothing else changes.
pub proof fn law_held_slices_change_hands<Storage: ComputeStorage>(
    memory: &mut MemoryManagement<Storage>,
    reserved: ManagedMemoryHandle,
    assigned: ManagedMemoryHandle,
    cursor: u64,
    r: Result<(), IoError>,
)
    requires
        old(memory)@.wf(),
        call_ensures(
            MemoryManagement::<Storage>::bind,
            (memory, reserved, assigned, cursor),
            r,
        ),
    ensures
        r is Ok <==> held_somewhere(old(memory)@, reserved.id()),
        r is Ok ==> changes_hands(
            old(memory)@,
            final(memory)@,
            reserved.id(),
            assigned,
            cursor,
        ),
        r is Ok ==> held_somewhere(final(memory)@, assigned.id()),
        r is Err ==> final(memory)@.pools == old(memory)@.pools,
        final(memory)@.external == old(memory)@.external,
        final(memory)@.allocated == old(memory)@.allocated,
        final(memory)@.reserve_count == old(memory)@.reserve_count,
{
    lemma_changes_hands(
        old(memory)@,
        reserved.id(),
        assigned,
        cursor,
        r,
        final(memory)@,
    );
}

/// What is said to be free fits the pools, slice by slice, and is never read only.
pub proof fn law_read_only_memory_is_never_free<Storage: ComputeStorage>(
    memory: MemoryManagement<Storage>,
    r: Vec<Vec<Vec<bool>>>,
    k: int,
    p: int,
    i: int,
)
    requires
        call_ensures(MemoryManagement::<Storage>::liveness, (&memory,), r),
    ensures
        r@.len() == memory@.pools.len(),
        0 <= k < r@.len() ==> r@[k]@.len() == memory@.pools[k].table.len(),
        0 <= k < r@.len() && 0 <= p < r@[k]@.len() && memory@.pools[k].table[p] is Some
            ==> r@[k]@[p]@.len() == memory@.pools[k].table[p]->0.slices.len(),
        0 <= k < r@.len() && 0 <= p < r@[k]@.len() && memory@.pools[k].table[p] is Some && 0 <= i
            < r@[k]@[p]@.len() && r@[k]@[p]@[i]
            ==> !memory@.pools[k].table[p]->0.slices[i].handle.read_only(),
{
    let m = memory@;
    let l = lives(r@);
    assert(l.len() == r@.len());
    if 0 <= k < r@.len() {
        assert(l[k] == flags(r@[k]@));
        assert(shaped(m.pools[k].table, l[k]));
        assert(flags(r@[k]@).len() == r@[k]@.len());
        if 0 <= p < r@[k]@.len() && m.pools[k].table[p] is Some {
            assert(flags(r@[k]@)[p] == r@[k]@[p]@);
            assert(l[k][p].len() == crate::memory::page::slice_count(m.pools[k].table[p]));
            if 0 <= i < r@[k]@[p]@.len() && r@[k]@[p]@[i] {
                assert(crate::memory::page::offered(m.pools[k].table, l[k]));
                assert(l[k][p][i]);
            }
        }
    }
}

/// A cleanup on its own terms leaves the arena as it is, and touches no page with a slice that
/// is read only.
pub proof fn law_cleanup_keeps_what_is_read_only<Storage: ComputeStorage>(
    memory: &mut MemoryManagement<Storage>,
    explicit: bool,
    r: (),
    k: int,
    p: int,
    i: int,
)
    requires
        old(memory)@.wf(),
        call_ensures(MemoryManagement::<Storage>::cleanup, (memory, explicit), r),
    ensures
        ({
            let was = old(memory)@;
            let now = final(memory)@;
            let n = was.pools.len() as int;
            &&& now.pools.len() == n
            &&& now.pools[n - 1] == was.pools[n - 1]
            &&& now.external == was.external
            &&& 0 <= k < n && 0 <= p < was.pools[k].table.len() && was.pools[k].table[p] is Some && 0
                <= i < was.pools[k].table[p]->0.slices.len()
                && was.pools[k].table[p]->0.slices[i].handle.read_only()
                ==> now.pools[k].table[p] is Some && now.pools[k].table[p]->0.slices
                == was.pools[k].table[p]->0.slices
        }),
{
    let was = old(memory)@;
    let now = final(memory)@;
    let n = was.pools.len() as int;
    let live = choose|live: crate::memory::model::Liveness|
        was.sees(live) && now == #[trigger] was.cleaned(live, explicit);
    if 0 <= k < n && 0 <= p < was.pools[k].table.len() && was.pools[k].table[p] is Some && 0 <= i
        < was.pools[k].table[p]->0.slices.len()
        && was.pools[k].table[p]->0.slices[i].handle.read_only() {
        assert(shaped(was.pools[k].table, live[k]));
        assert(crate::memory::page::offered(was.pools[k].table, live[k]));
        assert(live[k][p].len() == was.pools[k].table[p]->0.slices.len());
        assert(!live[k][p][i]);
        assert(!crate::memory::page::all_free(live[k][p]));
    }
}

/// Releasing the arena on its own terms touches no other pool.
pub proof fn law_release_touches_the_arena_alone<Storage: ComputeStorage>(
    memory: &mut MemoryManagement<Storage>,
    r: (),
    k: int,
)
    requires
        old(memory)@.wf(),
        !old(memory)@.arena_active,
        call_ensures(MemoryManagement::<Storage>::arena_release, (memory,), r),
    ensures
        final(memory)@.pools.len() == old(memory)@.pools.len(),
        0 <= k < old(memory)@.pools.len() - 1 ==> final(memory)@.pools[k]
            == old(memory)@.pools[k],
        final(memory)@.external == old(memory)@.external,
        final(memory)@.reserve_count == old(memory)@.reserve_count,
{
}

/// What the arena is holding is told as its counters say, whatever is free.
pub proof fn law_arena_stats_tell_its_counters<Storage: ComputeStorage>(
    memory: MemoryManagement<Storage>,
    r: ArenaStats,
    arena: PoolView,
)
    requires
        memory@.wf(),
        arena == memory@.pools[memory@.pools.len() - 1],
        crate::memory::usage::table_capacity(arena.table).fits(),
        call_ensures(MemoryManagement::<Storage>::arena_stats, (&memory,), r),
    ensures
        r.generation == memory@.arena_generation,
        r.served == memory@.arena_served,
        r.misses == memory@.arena_misses,
        r.bytes_reserved == pages_bytes(arena.table, arena.table.len()),
{
    let free = choose|free: Seq<Seq<bool>>|
        shaped(memory@.arena().table, free) && r
            == #[trigger] crate::memory::manage::arena_stats_of(memory@, free);
    crate::memory::usage::lemma_usage_within_capacity(arena.table, free);
    crate::memory::usage::lemma_table_usage_nonnegative(arena.table, free);
    crate::memory::option_laws::lemma_pages(arena.table, free, arena.table.len());
}

/// The usage of a memory reserves the bytes of all its pages, whatever is free.
pub proof fn law_usage_reserves_all_pages<Storage: ComputeStorage>(
    memory: MemoryManagement<Storage>,
    r: MemoryUsage,
)
    requires
        memory@.wf(),
        memory@.capacity().fits(),
        call_ensures(MemoryManagement::<Storage>::memory_usage, (&memory,), r),
    ensures
        r.bytes_reserved == pool_bytes(memory@, memory@.pools.len()),
{
    let live = choose|live: crate::memory::model::Liveness|
        memory@.sees(live) && r@ == #[trigger] memory@.usage(live);
    lemma_pool_bytes(memory@, live, memory@.pools.len());
}

/// Memory can be made of pools that are given exactly if there is an alignment, a byte can
/// number the pools with two more, and every page is a number there is once it is aligned. It
/// can be divided exactly if the quarters come to an end below 32 MiB.
pub proof fn law_memory_is_made_of_pages_that_fit(
    config: MemoryConfiguration,
    properties: MemoryDeviceProperties,
    r: bool,
)
    requires
        call_ensures(crate::memory::manage::can_configure, (&config, &properties), r),
    ensures
        properties.alignment == 0 ==> !r,
        config is SubSlices ==> (r <==> properties.alignment > 0 && (properties.max_page_size < 32
            * 1024 * 1024 || properties.alignment < 32 * 1024 * 1024)),
        config matches MemoryConfiguration::ExclusivePages { buckets } ==> (r
            <==> properties.alignment > 0 && buckets@.len() <= 254 && forall|i: int|
            0 <= i < buckets@.len() ==> crate::memory::align::aligned_up(
                (#[trigger] buckets@[i]).size as int,
                properties.alignment as int,
            ) <= u64::MAX),
{
    if let MemoryConfiguration::ExclusivePages { buckets } = config {
        let options = crate::memory::options::pool_options_for(config, properties);
        assert(options.len() == buckets@.len());
        if properties.alignment > 0 && buckets@.len() <= 254 {
            let alignment = properties.alignment;
            assert forall|i: int| 0 <= i < buckets@.len() implies (
            crate::memory::memory_pool::empty_pool(
                crate::memory::options::rules_for(options[i]),
                alignment,
                0,
            ).rules_wf() <==> crate::memory::align::aligned_up(
                (#[trigger] buckets@[i]).size as int,
                alignment as int,
            ) <= u64::MAX) by {
                assert(options[i].pool_type == (crate::memory::options::PoolType::ExclusivePages {
                    max_alloc_size: buckets@[i].size,
                }));
            }
            if r {
                assert forall|i: int| 0 <= i < buckets@.len() implies crate::memory::align::aligned_up(
                    (#[trigger] buckets@[i]).size as int,
                    alignment as int,
                ) <= u64::MAX by {
                    assert(crate::memory::memory_pool::empty_pool(
                        crate::memory::options::rules_for(options[i]),
                        alignment,
                        0,
                    ).rules_wf());
                }
            } else if forall|i: int|
                0 <= i < buckets@.len() ==> crate::memory::align::aligned_up(
                    (#[trigger] buckets@[i]).size as int,
                    alignment as int,
                ) <= u64::MAX {
                assert forall|i: int| 0 <= i < options.len() implies crate::memory::memory_pool::empty_pool(
                    crate::memory::options::rules_for(#[trigger] options[i]),
                    alignment,
                    0,
                ).rules_wf() by {
                    assert(crate::memory::align::aligned_up(
                        buckets@[i].size as int,
                        alignment as int,
                    ) <= u64::MAX);
                }
            }
        }
    }
}

/// A handle that is read only is neither writable nor free, and a handle is told by its id.
pub proof fn law_read_only_handles_stay_so(
    handle: ManagedMemoryHandle,
    id: usize,
    writable: bool,
    free: bool,
    binding: ManagedMemoryBinding,
    bound: usize,
)
    requires
        call_ensures(ManagedMemoryHandle::handle_id, (&handle,), id),
        call_ensures(ManagedMemoryHandle::can_mut, (&handle,), writable),
        call_ensures(ManagedMemoryHandle::is_free, (&handle,), free),
        call_ensures(ManagedMemoryHandle::binding, (handle,), binding),
        call_ensures(ManagedMemoryBinding::handle_id, (&binding,), bound),
    ensures
        handle.read_only() ==> !writable && !free,
        id == handle.id(),
        bound == id,
        binding.of() == handle,
{
}

/// Whether a reservation was asked of one memory: it is counted, of the size that it has, and
/// where it cannot be had no pool changes.
pub open spec fn asked_of(
    was: MemoryView,
    now: MemoryView,
    size: u64,
    r: Result<ManagedMemoryHandle, IoError>,
) -> bool {
    &&& now.reserve_count == was.reserve_count + 1
    &&& was.arena_active ==> now.arena_sizes == was.arena_sizes.push(size)
    &&& r matches Ok(handle) ==> !handle.read_only() && exists|k: int, p: int, i: int|
        {
            &&& 0 <= k < now.pools.len()
            &&& 0 <= p < now.pools[k].table.len()
            &&& now.pools[k].table[p] is Some
            &&& 0 <= i < now.pools[k].table[p]->0.slices.len()
            &&& (#[trigger] now.pools[k].table[p]->0.slices[i]).handle == handle
            &&& now.pools[k].table[p]->0.slices[i].storage.size == size
        }
    &&& r is Err ==> now.pools == was.pools
    &&& now.external == was.external
}

/// What a reservation comes to.
pub proof fn lemma_asked_of(
    was: MemoryView,
    now: MemoryView,
    size: u64,
    live: crate::memory::model::Liveness,
    r: Result<ManagedMemoryHandle, IoError>,
)
    requires
        was.wf(),
        was.can_count(),
        was.sees(live),
        was.reserved(size, live, r, now),
    ensures
        asked_of(was, now, size, r),
{
    let p = |k: int| was.pools[k].accepts(size);
    lemma_first_from(0, was.dynamic(), p);
    match was.plan(size, live) {
        crate::memory::model::Plan::Serve { pool, spot } => {
            assert(shaped(was.pools[pool].table, live[pool]));
            assert(crate::memory::page::offered(was.pools[pool].table, live[pool]));
            crate::memory::pool::lemma_spot(was.pools[pool], live[pool], size);
            let spare = choose|spare: ManagedMemoryHandle|
                now == #[trigger] was.with_served(pool, spot, size, spare) && was.next_id
                    <= spare.id() && !spare.read_only();
            let slice = now.pools[pool].table[spot.page]->0.slices[spot.first];
            assert(slice.handle == r->Ok_0 && slice.storage.size == size);
        },
        crate::memory::model::Plan::Grow { pool } => {
            if let Ok(handle) = r {
                let at = crate::memory::page::vacant(was.pools[pool].table);
                let t = was.pools[pool].table;
                lemma_first_from(0, t.len() as int, |i: int| t[i] is None);
                let slice = now.pools[pool].table[at]->0.slices[0];
                assert(slice.handle == handle && slice.storage.size == size);
            }
        },
        crate::memory::model::Plan::TooBig => {},
    }
}

/// Whether memory was cleaned up whatever is free: the arena is as it was, and so is every page
/// with a slice that is read only.
pub open spec fn cleaned_up(was: MemoryView, now: MemoryView) -> bool {
    &&& now.pools.len() == was.pools.len()
    &&& now.pools[was.pools.len() - 1] == was.pools[was.pools.len() - 1]
    &&& now.external == was.external
    &&& forall|k: int, p: int, i: int|
        0 <= k < was.pools.len() && 0 <= p < was.pools[k].table.len() && was.pools[k].table[p] is Some
            && 0 <= i < was.pools[k].table[p]->0.slices.len() && (
        #[trigger] was.pools[k].table[p]->0.slices[i]).handle.read_only()
            ==> now.pools[k].table[p] is Some && now.pools[k].table[p]->0.slices
            == was.pools[k].table[p]->0.slices
}

/// What a cleanup comes to.
pub proof fn lemma_cleaned_up(was: MemoryView, now: MemoryView, live: crate::memory::model::Liveness, explicit: bool)
    requires
        was.wf(),
        was.sees(live),
        now == was.cleaned(live, explicit),
    ensures
        cleaned_up(was, now),
{
    assert forall|k: int, p: int, i: int|
        0 <= k < was.pools.len() && 0 <= p < was.pools[k].table.len() && was.pools[k].table[p] is Some
            && 0 <= i < was.pools[k].table[p]->0.slices.len() && (
        #[trigger] was.pools[k].table[p]->0.slices[i]).handle.read_only() implies
        now.pools[k].table[p] is Some && now.pools[k].table[p]->0.slices
            == was.pools[k].table[p]->0.slices by {
        assert(shaped(was.pools[k].table, live[k]));
        assert(crate::memory::page::offered(was.pools[k].table, live[k]));
        assert(live[k][p].len() == was.pools[k].table[p]->0.slices.len());
        assert(!live[k][p][i]);
        assert(!crate::memory::page::all_free(live[k][p]));
    }
}

/// Whether a resource is what the memory of a handle looks like, all of it.
pub open spec fn is_resource_of<Storage: ComputeStorage>(
    memory: MemoryManagement<Storage>,
    id: usize,
    resource: Storage::Resource,
) -> bool {
    exists|range: StorageHandle|
        crate::memory::range_laws::is_memory_of(memory@, id, range)
            && #[trigger] memory.held().resolves(range, resource)
}

/// What is handed out with a reservation looks like its memory.
pub proof fn lemma_resource_of<Storage: ComputeStorage>(
    memory: MemoryManagement<Storage>,
    size: u64,
    handle: ManagedMemoryHandle,
    location: MemoryLocation,
    resource: Storage::Resource,
)
    requires
        crate::memory::manage::holds_at::<Storage>(memory, size, handle, location, resource),
    ensures
        is_resource_of(memory, handle.id(), resource),
{
    let m = memory@;
    let id = handle.id();
    let range = m.storage_of(id, location)->Ok_0;
    if !m.external.contains_key(id) {
        let k = m.pool_of(location.pool);
        let p = location.page as int;
        let slices = m.pools[k].table[p]->0.slices;
        lemma_first_held(slices, id);
        let i = crate::memory::page::slice_of(slices, id)->0;
        assert(m.pools[k].table[p]->0.slices[i].handle.id() == id);
    }
    assert(memory.held().resolves(range, resource));
}

} // verus!
