//! What holds of a memory management over any sequence of calls.

use vstd::prelude::*;

use crate::first::lemma_first_from;
use crate::memory::error::IoError;
use crate::memory::handle::{ManagedMemoryHandle, MemoryLocation};
use crate::memory::laws::{
    law_cleanup_keeps_what_is_in_use, law_reserve_keeps_what_is_in_use, law_slices_are_disjoint,
};
use crate::memory::manage::{
    bound_at, fresh, pools_for, rebinds, sought_cursor, sought_storage,
};
use crate::memory::model::{
    below, has_slice, lemma_cleaned_owns, lemma_grown_owns, lemma_rebound_owns, lemma_same_pools,
    lemma_taken_owns, table_below, Liveness, MemoryView, Plan,
};
use crate::memory::options::{
    MemoryAllocationMode, MemoryDeviceProperties, MemoryPoolOptions, PersistentMemory,
};
use crate::memory::page::{shaped, slice_of, vacant, Slice};
use crate::memory::pool::{lemma_spot, PoolView, Spot};
use crate::memory::storage::StorageHandle;

verus! {

/// A call on a memory management, with what it read.
pub enum Call {
    /// A reservation, with the slices that were free and what came of it.
    Reserve { size: u64, live: Liveness, r: Result<ManagedMemoryHandle, IoError> },
    /// A slice was given to another handle.
    Bind { id: usize, location: MemoryLocation, assigned: ManagedMemoryHandle, cursor: u64 },
    /// An id was given to a handle.
    Name { id: usize },
    /// A handle was made for new memory: it got an id, memory was reserved with the slices that
    /// were free, and what was reserved was given to it.
    Fill {
        size: u64,
        live: Liveness,
        reserved: Result<ManagedMemoryHandle, IoError>,
        memory: ManagedMemoryHandle,
        cursor: u64,
    },
    /// Memory was registered.
    Register { id: usize, storage: StorageHandle },
    /// A cleanup, with the slices that were free.
    Cleanup { live: Liveness, explicit: bool },
    /// The arena was opened.
    ArenaBegin,
    /// The arena was closed.
    ArenaEnd,
    /// The arena's counters were reset.
    ArenaResetCounters,
    /// The arena's free pages were given back, with the slices that were free.
    ArenaRelease { live: Liveness },
    /// Another mode was asked for.
    Mode { mode: MemoryAllocationMode },
    /// Something else changed nothing but the allocations of the storage.
    Storage { allocated: Set<usize> },
}

/// What a call comes to.
pub open spec fn comes_to(m: MemoryView, call: Call, after: MemoryView) -> bool {
    match call {
        Call::Reserve { size, live, r } => m.shaped(live) && m.reserved(size, live, r, after),
        Call::Bind { id, location, assigned, cursor } => after == m.bound(
            id,
            location,
            assigned,
            cursor,
        ),
        Call::Name { id } => m.next_id <= id && after == m.naming(id),
        Call::Fill { size, live, reserved, memory, cursor } => makes_handle(
            m,
            size,
            live,
            reserved,
            memory,
            cursor,
            after,
        ),
        Call::Register { id, storage } => m.next_id <= id && after == m.registered(id, storage),
        Call::Cleanup { live, explicit } => m.shaped(live) && after == m.cleaned(live, explicit),
        Call::ArenaBegin => after == (MemoryView {
            arena_generation: (m.arena_generation + 1) as u64,
            arena_active: true,
            arena_sizes: Seq::empty(),
            ..m
        }),
        Call::ArenaEnd => after == (MemoryView { arena_active: false, ..m }),
        Call::ArenaResetCounters => after == (MemoryView {
            arena_served: 0,
            arena_misses: 0,
            ..m
        }),
        Call::ArenaRelease { live } => m.shaped(live) && after == m.cleaned_where(
            live,
            true,
            Set::empty().insert(m.arena_at()),
        ),
        Call::Mode { mode } => after == m.with_mode(mode),
        Call::Storage { allocated } => after == (MemoryView { allocated, ..m }),
    }
}

/// Whether making a handle for new memory can come to `after`.
pub open spec fn makes_handle(
    m: MemoryView,
    size: u64,
    live: Liveness,
    reserved: Result<ManagedMemoryHandle, IoError>,
    memory: ManagedMemoryHandle,
    cursor: u64,
    after: MemoryView,
) -> bool {
    &&& m.next_id <= memory.id()
    &&& m.shaped(live)
    &&& exists|mid: MemoryView| #[trigger]
        filled(m.naming(memory.id()), size, live, reserved, memory, cursor, mid, after)
}

/// Whether a reservation can come to `mid`, and giving away what was reserved to `after`.
pub open spec fn filled(
    m: MemoryView,
    size: u64,
    live: Liveness,
    reserved: Result<ManagedMemoryHandle, IoError>,
    memory: ManagedMemoryHandle,
    cursor: u64,
    mid: MemoryView,
    after: MemoryView,
) -> bool {
    &&& m.reserved(size, live, reserved, mid)
    &&& match reserved {
        Ok(slice) => {
            &&& mid.placed(size, slice, m.planned(size, live))
            &&& after == mid.bound(slice.id(), m.planned(size, live), memory, cursor)
        },
        Err(_) => after == mid,
    }
}

/// Calls one after another, and the states between them.
pub struct History {
    pub calls: Seq<Call>,
    pub states: Seq<MemoryView>,
}

impl History {
    /// Every call comes to the state that follows it, and every state is well formed.
    pub open spec fn happens(self) -> bool {
        &&& self.states.len() == self.calls.len() + 1
        &&& forall|t: int|
            0 <= t < self.states.len() ==> (#[trigger] self.states[t]).wf()
        &&& forall|t: int|
            0 <= t < self.calls.len() ==> comes_to(
                self.states[t],
                #[trigger] self.calls[t],
                self.states[t + 1],
            )
    }

    /// Whether handles keep ids of their own: they have them at first, there are ids left in the
    /// end, and slices are given to handles with ids of their own only.
    pub open spec fn keeps_ids(self) -> bool {
        &&& self.happens()
        &&& orderly(self.states[0])
        &&& self.end().ids_left()
        &&& forall|t: int|
            0 <= t < self.calls.len() ==> binds_apart(self.states[t], #[trigger] self.calls[t])
    }

    /// The last state.
    pub open spec fn end(self) -> MemoryView {
        self.states.last()
    }

    /// Whether a handle is held from a state on: whenever a call reads which slices are free,
    /// its own are not; and its slice is not given to another handle.
    pub open spec fn holds_from(self, from: int, handle: ManagedMemoryHandle) -> bool {
        forall|t: int|
            from <= t < self.calls.len() ==> keeps_held(
                self.states[t],
                #[trigger] self.calls[t],
                handle,
            )
    }
}

/// Whether a call finds a handle held.
pub open spec fn keeps_held(m: MemoryView, call: Call, handle: ManagedMemoryHandle) -> bool {
    match call {
        Call::Reserve { live, .. } => in_use(m, live, handle),
        Call::Fill { live, .. } => in_use(m, live, handle),
        Call::Cleanup { live, .. } => in_use(m, live, handle),
        Call::ArenaRelease { live } => in_use(m, live, handle),
        Call::Bind { id, .. } => id != handle.id(),
        _ => true,
    }
}

/// Whether no slice of a handle is free.
pub open spec fn in_use(m: MemoryView, live: Liveness, handle: ManagedMemoryHandle) -> bool {
    forall|k: int, p: int, i: int|
        #![trigger m.pools[k].table[p]->0.slices[i]]
        0 <= k < m.pools.len() && 0 <= p < m.pools[k].table.len() && m.pools[k].table[p] is Some
            && 0 <= i < m.pools[k].table[p]->0.slices.len()
            && m.pools[k].table[p]->0.slices[i].handle == handle ==> !live[k][p][i]
}

/// Whether handles have ids of their own: slices whose handles have the same id are the same
/// slice.
pub open spec fn separate(m: MemoryView) -> bool {
    forall|k1: int, p1: int, i1: int, k2: int, p2: int, i2: int|
        #![trigger m.pools[k1].table[p1]->0.slices[i1], m.pools[k2].table[p2]->0.slices[i2]]
        has_slice(m, k1, p1, i1) && has_slice(m, k2, p2, i2)
            && m.pools[k1].table[p1]->0.slices[i1].handle.id()
            == m.pools[k2].table[p2]->0.slices[i2].handle.id() ==> (k1, p1, i1) == (k2, p2, i2)
}

/// Whether handles have ids of their own, and registered memory has others.
pub open spec fn orderly(m: MemoryView) -> bool {
    &&& separate(m)
    &&& forall|k: int, p: int, i: int|
        #![trigger m.pools[k].table[p]->0.slices[i]]
        has_slice(m, k, p, i) ==> !m.external.contains_key(
            m.pools[k].table[p]->0.slices[i].handle.id(),
        )
}

/// Whether a slice or registered memory has an id.
pub open spec fn knows(m: MemoryView, id: usize) -> bool {
    ||| m.external.contains_key(id)
    ||| exists|k: int, p: int, i: int|
        has_slice(m, k, p, i) && (#[trigger] m.pools[k].table[p]->0.slices[i]).handle.id() == id
}

/// Whether a call gives a slice to no handle but one with an id of its own.
pub open spec fn binds_apart(m: MemoryView, call: Call) -> bool {
    call matches Call::Bind { assigned, .. } ==> !knows(m, assigned.id())
}

/// Whether a slice lies on a page.
pub open spec fn lies(m: MemoryView, k: int, p: int, slice: Slice) -> bool {
    &&& 0 <= k < m.pools.len()
    &&& 0 <= p < m.pools[k].table.len()
    &&& m.pools[k].table[p] is Some
    &&& m.pools[k].table[p]->0.slices.contains(slice)
}

/// Memory that was registered stays registered, whatever else is called, as long as there are
/// ids left: from then on its handle finds what it was registered with, wherever it says that
/// it is, and there is nothing to wait for.
pub proof fn law_registered_memory_stays(
    history: History,
    id: usize,
    storage: StorageHandle,
    found: Result<StorageHandle, IoError>,
    cursor: Result<u64, IoError>,
)
    requires
        history.happens(),
        history.calls.len() > 0,
        history.calls[0] == (Call::Register { id, storage }),
        history.end().ids_left(),
        sought_storage(history.end(), id, found),
        sought_cursor(history.end(), id, cursor),
    ensures
        found == Ok::<StorageHandle, IoError>(storage),
        cursor == Ok::<u64, IoError>(0),
{
    lemma_registered(history, id, storage, history.calls.len() as int);
}

/// An allocation that is no page of a pool stays one, whatever is called on the pools: it is
/// neither given back nor handed out. So is what was registered, if it was such an allocation.
pub proof fn law_outside_stays_outside(history: History, storage: usize, n: int)
    requires
        history.happens(),
        history.states[0].outside(storage),
        forall|t: int|
            0 <= t < history.calls.len() ==> (#[trigger] history.calls[t] matches Call::Storage {
                allocated,
            } ==> allocated.contains(storage)),
        0 <= n < history.states.len(),
    ensures
        history.states[n].outside(storage),
    decreases n,
{
    if n > 0 {
        law_outside_stays_outside(history, storage, n - 1);
        let m = history.states[n - 1];
        let call = history.calls[n - 1];
        let after = history.states[n];
        assert(comes_to(m, call, after));
        match call {
            Call::Reserve { size, live, r } => {
                lemma_reserve_outside(m, size, live, r, after, storage);
            },
            Call::Fill { size, live, reserved, memory, cursor } => {
                let named = m.naming(memory.id());
                let mid = choose|mid: MemoryView| #[trigger]
                    filled(named, size, live, reserved, memory, cursor, mid, after);
                lemma_same_pools(m, named);
                lemma_same_outside(m, named, storage);
                lemma_reserve_outside(named, size, live, reserved, mid, storage);
                match reserved {
                    Ok(slice) => {
                        let location = named.planned(size, live);
                        lemma_bind_outside(mid, slice.id(), location, memory, cursor, storage);
                    },
                    Err(_) => {},
                }
            },
            Call::Bind { id, location, assigned, cursor } => {
                lemma_bind_outside(m, id, location, assigned, cursor, storage);
            },
            Call::Cleanup { live, explicit } => {
                let which = Set::new(|k: int| 0 <= k < m.arena_at());
                lemma_cleanup_outside(m, live, explicit, which, storage);
            },
            Call::ArenaRelease { live } => {
                let which = Set::empty().insert(m.arena_at());
                lemma_cleanup_outside(m, live, true, which, storage);
            },
            _ => {
                lemma_same_outside(m, after, storage);
            },
        }
    }
}

proof fn lemma_same_outside(m: MemoryView, after: MemoryView, storage: usize)
    requires
        m.outside(storage),
        after.pools == m.pools,
        after.allocated.contains(storage),
    ensures
        after.outside(storage),
{
    assert forall|k: int| 0 <= k < after.pools.len() implies !(#[trigger] after.owned_by(
        k,
        storage,
    )) by {
        assert(!m.owned_by(k, storage));
    }
}

proof fn lemma_reserve_outside(
    m: MemoryView,
    size: u64,
    live: Liveness,
    r: Result<ManagedMemoryHandle, IoError>,
    after: MemoryView,
    storage: usize,
)
    requires
        m.wf(),
        m.shaped(live),
        m.reserved(size, live, r, after),
        m.outside(storage),
    ensures
        after.outside(storage),
{
    lemma_first_from(0, m.dynamic(), |n: int| m.pools[n].accepts(size));
    match m.plan(size, live) {
        Plan::Serve { pool, spot } => {
            let now = m.counted(size).reserve_count;
            let spare = choose|spare: ManagedMemoryHandle|
                after == #[trigger] m.with_served(pool, spot, size, spare) && m.next_id
                    <= spare.id();
            assert(shaped(m.pools[pool].table, live[pool]));
            lemma_spot(m.pools[pool], live[pool], size);
            lemma_taken_owns(m.pools[pool], spot, size, now, spare, storage);
            assert forall|k: int| 0 <= k < after.pools.len() implies !(#[trigger] after.owned_by(
                k,
                storage,
            )) by {
                assert(!m.owned_by(k, storage));
            }
        },
        Plan::Grow { pool } => {
            match r {
                Ok(handle) => {
                    let (page, spare) = choose|page: StorageHandle, spare: ManagedMemoryHandle|
                        {
                            &&& !m.allocated.contains(page.id)
                            &&& after == (MemoryView {
                                allocated: m.allocated.insert(page.id),
                                ..(#[trigger] m.with_miss(size).with_grown(
                                    pool,
                                    page,
                                    size,
                                    handle,
                                    spare,
                                ))
                            })
                        };
                    let now = m.with_miss(size).reserve_count;
                    lemma_grown_owns(m.pools[pool], page, size, now, handle, spare, storage);
                    assert forall|k: int| 0 <= k < after.pools.len() implies !(
                    #[trigger] after.owned_by(k, storage)) by {
                        assert(!m.owned_by(k, storage));
                    }
                },
                Err(_) => {
                    lemma_same_outside(m, after, storage);
                },
            }
        },
        Plan::TooBig => {
            lemma_same_outside(m, after, storage);
        },
    }
}

proof fn lemma_bind_outside(
    m: MemoryView,
    id: usize,
    location: MemoryLocation,
    assigned: ManagedMemoryHandle,
    cursor: u64,
    storage: usize,
)
    requires
        2 <= m.pools.len(),
        m.outside(storage),
    ensures
        m.bound(id, location, assigned, cursor).outside(storage),
{
    let after = m.bound(id, location, assigned, cursor);
    let at = m.pool_of(location.pool);
    lemma_rebound_owns(m.pools[at], location.page as int, id, assigned, cursor, storage);
    assert forall|k: int| 0 <= k < after.pools.len() implies !(#[trigger] after.owned_by(
        k,
        storage,
    )) by {
        assert(!m.owned_by(k, storage));
    }
}

proof fn lemma_cleanup_outside(
    m: MemoryView,
    live: Liveness,
    explicit: bool,
    which: Set<int>,
    storage: usize,
)
    requires
        m.outside(storage),
    ensures
        m.cleaned_where(live, explicit, which).outside(storage),
{
    let after = m.cleaned_where(live, explicit, which);
    assert forall|k: int| 0 <= k < after.pools.len() implies !(#[trigger] after.owned_by(
        k,
        storage,
    )) by {
        assert(!m.owned_by(k, storage));
        lemma_cleaned_owns(m.pools[k], live[k], m.reserve_count, explicit, storage);
    }
}

proof fn lemma_registered(history: History, id: usize, storage: StorageHandle, n: int)
    requires
        history.happens(),
        1 <= n <= history.calls.len(),
        history.calls[0] == (Call::Register { id, storage }),
        history.end().ids_left(),
    ensures
        history.states[n].external.contains_key(id),
        history.states[n].external[id] == storage,
    decreases n,
{
    assert(comes_to(history.states[n - 1], history.calls[n - 1], history.states[n]));
    if n > 1 {
        lemma_registered(history, id, storage, n - 1);
        lemma_external(history.states[n - 1], history.calls[n - 1], history.states[n]);
        lemma_ids_grow(history, n - 1, history.calls.len() as int);
        assert(below(id, history.states[n - 1].next_id));
    }
}

/// What new ids start from never falls.
proof fn lemma_ids_grow(history: History, from: int, to: int)
    requires
        history.happens(),
        0 <= from <= to <= history.calls.len(),
    ensures
        history.states[from].next_id <= history.states[to].next_id,
    decreases to - from,
{
    if from < to {
        lemma_ids_grow(history, from, to - 1);
        assert(comes_to(history.states[to - 1], history.calls[to - 1], history.states[to]));
    }
}

/// What was registered changes by registration only.
proof fn lemma_external(m: MemoryView, call: Call, after: MemoryView)
    requires
        m.wf(),
        comes_to(m, call, after),
    ensures
        match call {
            Call::Register { id, storage } => after.external == m.external.insert(id, storage),
            _ => after.external == m.external,
        },
{
}

/// A registration is no usage: what all pools count for stays what it was.
pub proof fn law_registration_is_no_usage(
    m: MemoryView,
    id: usize,
    storage: StorageHandle,
    live: Liveness,
    n: nat,
)
    ensures
        m.registered(id, storage).usage_upto(live, n) == m.usage_upto(live, n),
    decreases n,
{
    if n > 0 {
        law_registration_is_no_usage(m, id, storage, live, (n - 1) as nat);
    }
}

/// A mode that the options provided is the mode for ever, whatever is called.
pub proof fn law_provided_mode_stays(history: History, n: int)
    requires
        history.happens(),
        history.states[0].forced,
        0 <= n < history.states.len(),
    ensures
        history.states[n].forced,
        history.states[n].mode == history.states[0].mode,
    decreases n,
{
    if n > 0 {
        law_provided_mode_stays(history, n - 1);
        assert(comes_to(history.states[n - 1], history.calls[n - 1], history.states[n]));
    }
}

/// A new memory management is in a state where handles have ids of their own.
pub proof fn law_new_memory_is_orderly(
    name: Seq<char>,
    options: Seq<MemoryPoolOptions>,
    properties: MemoryDeviceProperties,
    mode: MemoryAllocationMode,
    config: PersistentMemory,
    forced: bool,
    allocated: Set<usize>,
)
    ensures
        orderly(fresh(name, pools_for(options, properties), mode, config, forced, allocated)),
{
    let m = fresh(name, pools_for(options, properties), mode, config, forced, allocated);
    assert forall|k: int, p: int, i: int| !has_slice(m, k, p, i) by {
        if 0 <= k < m.pools.len() {
            assert(m.pools[k].table.len() == 0);
        }
    }
}

/// Handles keep ids of their own, whatever is called, as long as there are ids left and slices
/// are given to handles with ids of their own only.
pub proof fn law_ids_stay_apart(history: History, n: int)
    requires
        history.keeps_ids(),
        0 <= n < history.states.len(),
    ensures
        orderly(history.states[n]),
    decreases n,
{
    if n > 0 {
        law_ids_stay_apart(history, n - 1);
        lemma_ids_grow(history, n - 1, history.calls.len() as int);
        lemma_ids_grow(history, n, history.calls.len() as int);
        let m = history.states[n - 1];
        let call = history.calls[n - 1];
        assert(comes_to(m, call, history.states[n]));
        assert(binds_apart(m, call));
        lemma_step_orderly(m, call, history.states[n]);
    }
}

/// Handles keep ids of their own, call by call.
proof fn lemma_step_orderly(m: MemoryView, call: Call, after: MemoryView)
    requires
        m.wf(),
        orderly(m),
        comes_to(m, call, after),
        binds_apart(m, call),
        m.ids_left(),
        after.ids_left(),
    ensures
        orderly(after),
{
    match call {
        Call::Reserve { size, live, r } => {
            lemma_reserve_orderly(m, size, live, r, after);
        },
        Call::Bind { id, location, assigned, cursor } => {
            lemma_bind_orderly(m, id, location, assigned, cursor);
        },
        Call::Fill { size, live, reserved, memory, cursor } => {
            lemma_fill_orderly(m, call, after);
        },
        Call::Register { id, storage } => {
            lemma_register_orderly(m, id, storage);
        },
        Call::Cleanup { live, explicit } => {
            let which = Set::new(|k: int| 0 <= k < m.arena_at());
            lemma_cleanup_orderly(m, live, explicit, which);
        },
        Call::ArenaRelease { live } => {
            let which = Set::empty().insert(m.arena_at());
            lemma_cleanup_orderly(m, live, true, which);
        },
        _ => {
            lemma_same_orderly(m, after);
        },
    }
}

/// Registered memory has an id that no slice has.
proof fn lemma_register_orderly(m: MemoryView, id: usize, storage: StorageHandle)
    requires
        m.wf(),
        orderly(m),
        m.ids_left(),
        m.next_id <= id,
    ensures
        orderly(m.registered(id, storage)),
{
    let after = m.registered(id, storage);
    lemma_same_orderly(m, after);
    assert forall|k: int, p: int, i: int|
        #![trigger after.pools[k].table[p]->0.slices[i]]
        has_slice(after, k, p, i) implies !after.external.contains_key(
        after.pools[k].table[p]->0.slices[i].handle.id(),
    ) by {
        assert(has_slice(m, k, p, i));
        lemma_slice_below(m, k, p, i);
    }
}

/// A cleanup brings no slice.
proof fn lemma_cleanup_orderly(m: MemoryView, live: Liveness, explicit: bool, which: Set<int>)
    requires
        orderly(m),
    ensures
        orderly(m.cleaned_where(live, explicit, which)),
{
    lemma_same_orderly(m, m.cleaned_where(live, explicit, which));
}

/// Where no slice is new, ids stay apart.
proof fn lemma_same_orderly(m: MemoryView, after: MemoryView)
    requires
        orderly(m),
        forall|k: int, p: int, i: int|
            #![trigger after.pools[k].table[p]->0.slices[i]]
            has_slice(after, k, p, i) ==> has_slice(m, k, p, i)
                && after.pools[k].table[p]->0.slices[i] == m.pools[k].table[p]->0.slices[i],
    ensures
        separate(after),
        after.external == m.external ==> orderly(after),
{
    assert forall|k1: int, p1: int, i1: int, k2: int, p2: int, i2: int|
        #![trigger after.pools[k1].table[p1]->0.slices[i1], after.pools[k2].table[p2]->0.slices[i2]]
        has_slice(after, k1, p1, i1) && has_slice(after, k2, p2, i2)
            && after.pools[k1].table[p1]->0.slices[i1].handle.id()
            == after.pools[k2].table[p2]->0.slices[i2].handle.id() implies (k1, p1, i1) == (
        k2,
        p2,
        i2,
    ) by {
        let a = m.pools[k1].table[p1]->0.slices[i1];
        let b = m.pools[k2].table[p2]->0.slices[i2];
    }
}

/// Which slice of its page a slice was before a reservation took up a spot. The slice that is
/// left over of a single one was none.
spec fn origin(spot: Spot, grown: int, p: int, i: int) -> Option<int> {
    if p != spot.page || i <= spot.first {
        Some(i)
    } else if i - grown > spot.last {
        Some(i - grown)
    } else if spot.last > spot.first {
        Some(spot.last)
    } else {
        None
    }
}

proof fn lemma_origin(
    pool: PoolView,
    free: Seq<Seq<bool>>,
    size: u64,
    now: u64,
    spare: ManagedMemoryHandle,
    p: int,
    i: int,
)
    requires
        pool.wf(),
        shaped(pool.table, free),
        pool.spot(free, size) is Some,
        ({
            let spot = pool.spot(free, size)->0;
            let after = pool.with_taken(spot, size, now, spare).table;
            0 <= p < after.len() && after[p] is Some && 0 <= i < after[p]->0.slices.len()
        }),
    ensures
        ({
            let spot = pool.spot(free, size)->0;
            let after = pool.with_taken(spot, size, now, spare).table;
            let grown = after[spot.page]->0.slices.len() - pool.table[spot.page]->0.slices.len();
            match origin(spot, grown, p, i) {
                Some(j) => {
                    &&& pool.table[p] is Some
                    &&& 0 <= j < pool.table[p]->0.slices.len()
                    &&& after[p]->0.slices[i].handle == pool.table[p]->0.slices[j].handle
                },
                None => {
                    &&& p == spot.page
                    &&& i == spot.first + 1
                    &&& after[p]->0.slices[i].handle == spare
                },
            }
        }),
        ({
            let spot = pool.spot(free, size)->0;
            let after = pool.with_taken(spot, size, now, spare).table;
            let grown = after[spot.page]->0.slices.len() - pool.table[spot.page]->0.slices.len();
            &&& spot.last == spot.first + 1 - grown || spot.last == spot.first - grown
            &&& spot.first <= spot.last
        }),
{
    lemma_spot(pool, free, size);
}

/// A reservation gives no slice an id that is known.
proof fn lemma_reserve_orderly(
    m: MemoryView,
    size: u64,
    live: Liveness,
    r: Result<ManagedMemoryHandle, IoError>,
    after: MemoryView,
)
    requires
        m.wf(),
        m.shaped(live),
        m.reserved(size, live, r, after),
        orderly(m),
        m.ids_left(),
    ensures
        orderly(after),
{
    lemma_first_from(0, m.dynamic(), |n: int| m.pools[n].accepts(size));
    match m.plan(size, live) {
        Plan::Serve { pool, spot } => {
            let spare = choose|spare: ManagedMemoryHandle|
                after == #[trigger] m.with_served(pool, spot, size, spare) && m.next_id
                    <= spare.id();
            lemma_serve_orderly(m, size, live, spare, pool);
        },
        Plan::Grow { pool } => {
            match r {
                Ok(handle) => {
                    let (storage, spare) = choose|
                        storage: StorageHandle,
                        spare: ManagedMemoryHandle,
                    |
                        {
                            &&& storage.offset == 0
                            &&& storage.size == m.pools[pool].page_bytes(size)
                            &&& !m.allocated.contains(storage.id)
                            &&& m.next_id <= handle.id()
                            &&& m.next_id <= spare.id()
                            &&& m.ids_left() ==> handle.id() != spare.id()
                            &&& after == (MemoryView {
                                allocated: m.allocated.insert(storage.id),
                                ..(#[trigger] m.with_miss(size).with_grown(
                                    pool,
                                    storage,
                                    size,
                                    handle,
                                    spare,
                                ))
                            })
                        };
                    lemma_grow_orderly(m, after, pool, storage, size, handle, spare);
                },
                Err(_) => {
                    lemma_same_orderly(m, after);
                },
            }
        },
        Plan::TooBig => {
            lemma_same_orderly(m, after);
        },
    }
}

proof fn lemma_serve_orderly(
    m: MemoryView,
    size: u64,
    live: Liveness,
    spare: ManagedMemoryHandle,
    pool: int,
)
    requires
        m.wf(),
        m.shaped(live),
        orderly(m),
        m.ids_left(),
        0 <= pool < m.pools.len(),
        m.pools[pool].spot(live[pool], size) is Some,
        m.next_id <= spare.id(),
    ensures
        orderly(m.with_served(pool, m.pools[pool].spot(live[pool], size)->0, size, spare)),
{
    let spot = m.pools[pool].spot(live[pool], size)->0;
    let after = m.with_served(pool, spot, size, spare);
    let now = m.counted(size).reserve_count;
    let table = m.pools[pool].table;
    let grown = after.pools[pool].table[spot.page]->0.slices.len()
        - table[spot.page]->0.slices.len();
    assert(shaped(table, live[pool]));
    lemma_spot(m.pools[pool], live[pool], size);
    assert forall|k: int, p: int, i: int|
        #![trigger after.pools[k].table[p]->0.slices[i]]
        has_slice(after, k, p, i) implies if k != pool {
        has_slice(m, k, p, i) && after.pools[k].table[p]->0.slices[i]
            == m.pools[k].table[p]->0.slices[i]
    } else {
        match origin(spot, grown, p, i) {
            Some(j) => has_slice(m, k, p, j) && after.pools[k].table[p]->0.slices[i].handle
                == m.pools[k].table[p]->0.slices[j].handle,
            None => p == spot.page && i == spot.first + 1
                && after.pools[k].table[p]->0.slices[i].handle == spare,
        }
    } by {
        if k == pool {
            lemma_origin(m.pools[pool], live[pool], size, now, spare, p, i);
        }
    }
    let from = |k: int, p: int, i: int|
        if k != pool {
            Some(i)
        } else {
            origin(spot, grown, p, i)
        };
    lemma_moved_orderly(m, after, from, spare);
}

/// Where every slice of a state was one before, but for one with an unknown id, ids stay apart.
proof fn lemma_moved_orderly(
    m: MemoryView,
    after: MemoryView,
    from: spec_fn(int, int, int) -> Option<int>,
    spare: ManagedMemoryHandle,
)
    requires
        m.wf(),
        orderly(m),
        m.ids_left(),
        m.next_id <= spare.id(),
        after.external == m.external,
        forall|k: int, p: int, i: int|
            #![trigger after.pools[k].table[p]->0.slices[i]]
            has_slice(after, k, p, i) ==> match from(k, p, i) {
                Some(j) => has_slice(m, k, p, j) && after.pools[k].table[p]->0.slices[i].handle
                    == m.pools[k].table[p]->0.slices[j].handle,
                None => after.pools[k].table[p]->0.slices[i].handle == spare,
            },
        forall|k1: int, p1: int, i1: int, k2: int, p2: int, i2: int|
            #![trigger from(k1, p1, i1), from(k2, p2, i2)]
            has_slice(after, k1, p1, i1) && has_slice(after, k2, p2, i2) && (match (
                from(k1, p1, i1),
                from(k2, p2, i2),
            ) {
                (Some(a), Some(b)) => (k1, p1, a) == (k2, p2, b),
                (None, None) => true,
                _ => false,
            }) ==> (k1, p1, i1) == (k2, p2, i2),
    ensures
        orderly(after),
{
    assert forall|k: int, p: int, i: int|
        #![trigger m.pools[k].table[p]->0.slices[i]]
        has_slice(m, k, p, i) implies m.pools[k].table[p]->0.slices[i].handle.id() < m.next_id by {
        assert(table_below(m.pools[k].table, m.next_id));
    }
    assert(!m.external.contains_key(spare.id()));
    assert forall|k1: int, p1: int, i1: int, k2: int, p2: int, i2: int|
        #![trigger after.pools[k1].table[p1]->0.slices[i1], after.pools[k2].table[p2]->0.slices[i2]]
        has_slice(after, k1, p1, i1) && has_slice(after, k2, p2, i2)
            && after.pools[k1].table[p1]->0.slices[i1].handle.id()
            == after.pools[k2].table[p2]->0.slices[i2].handle.id() implies (k1, p1, i1) == (
        k2,
        p2,
        i2,
    ) by {
        let a = from(k1, p1, i1);
        let b = from(k2, p2, i2);
        if a is Some {
            let x = m.pools[k1].table[p1]->0.slices[a->0];
        }
        if b is Some {
            let x = m.pools[k2].table[p2]->0.slices[b->0];
        }
    }
    assert forall|k: int, p: int, i: int|
        #![trigger after.pools[k].table[p]->0.slices[i]]
        has_slice(after, k, p, i) implies !after.external.contains_key(
        after.pools[k].table[p]->0.slices[i].handle.id(),
    ) by {
        let a = from(k, p, i);
        if a is Some {
            let x = m.pools[k].table[p]->0.slices[a->0];
        }
    }
}

proof fn lemma_grow_orderly(
    m: MemoryView,
    after: MemoryView,
    pool: int,
    storage: StorageHandle,
    size: u64,
    handle: ManagedMemoryHandle,
    spare: ManagedMemoryHandle,
)
    requires
        m.wf(),
        orderly(m),
        m.ids_left(),
        0 <= pool < m.pools.len(),
        m.next_id <= handle.id(),
        m.next_id <= spare.id(),
        handle.id() != spare.id(),
        after.external == m.external,
        after.pools == m.with_miss(size).with_grown(pool, storage, size, handle, spare).pools,
    ensures
        orderly(after),
{
    let table = m.pools[pool].table;
    lemma_first_from(0, table.len() as int, |n: int| table[n] is None);
    let v = vacant(table);
    assert forall|k: int, p: int, i: int|
        #![trigger m.pools[k].table[p]->0.slices[i]]
        has_slice(m, k, p, i) implies m.pools[k].table[p]->0.slices[i].handle.id() < m.next_id by {
        assert(table_below(m.pools[k].table, m.next_id));
    }
    assert forall|id: usize| #[trigger] m.external.contains_key(id) implies id < m.next_id by {
        assert(below(id, m.next_id));
    }
    assert forall|k: int, p: int, i: int|
        #![trigger after.pools[k].table[p]->0.slices[i]]
        has_slice(after, k, p, i) implies if k == pool && p == v {
        ||| i == 0 && after.pools[k].table[p]->0.slices[i].handle == handle
        ||| i == 1 && after.pools[k].table[p]->0.slices[i].handle == spare
    } else {
        has_slice(m, k, p, i) && after.pools[k].table[p]->0.slices[i]
            == m.pools[k].table[p]->0.slices[i]
    } by {
        if k == pool && p != v {
            assert(after.pools[k].table[p] == table[p]);
        }
    }
    assert forall|k1: int, p1: int, i1: int, k2: int, p2: int, i2: int|
        #![trigger after.pools[k1].table[p1]->0.slices[i1], after.pools[k2].table[p2]->0.slices[i2]]
        has_slice(after, k1, p1, i1) && has_slice(after, k2, p2, i2)
            && after.pools[k1].table[p1]->0.slices[i1].handle.id()
            == after.pools[k2].table[p2]->0.slices[i2].handle.id() implies (k1, p1, i1) == (
        k2,
        p2,
        i2,
    ) by {
        let a = m.pools[k1].table[p1]->0.slices[i1];
        let b = m.pools[k2].table[p2]->0.slices[i2];
    }
    assert forall|k: int, p: int, i: int|
        #![trigger after.pools[k].table[p]->0.slices[i]]
        has_slice(after, k, p, i) implies !after.external.contains_key(
        after.pools[k].table[p]->0.slices[i].handle.id(),
    ) by {
        let a = m.pools[k].table[p]->0.slices[i];
    }
}

/// Giving a slice to a handle with an id of its own keeps ids apart.
proof fn lemma_bind_orderly(
    m: MemoryView,
    id: usize,
    location: MemoryLocation,
    assigned: ManagedMemoryHandle,
    cursor: u64,
)
    requires
        2 <= m.pools.len(),
        orderly(m),
        !knows(m, assigned.id()),
    ensures
        orderly(m.bound(id, location, assigned, cursor)),
{
    let after = m.bound(id, location, assigned, cursor);
    let at = m.pool_of(location.pool);
    let page = location.page as int;
    let slices = m.pools[at].table[page]->0.slices;
    lemma_first_from(0, slices.len() as int, |n: int| slices[n].handle.id() == id);
    assert forall|k: int, p: int, i: int|
        #![trigger after.pools[k].table[p]->0.slices[i]]
        has_slice(after, k, p, i) implies has_slice(m, k, p, i) && (
    after.pools[k].table[p]->0.slices[i].handle == m.pools[k].table[p]->0.slices[i].handle || (k
        == at && p == page && slice_of(slices, id) == Some(i)
        && after.pools[k].table[p]->0.slices[i].handle == assigned)) by {}
    assert forall|k1: int, p1: int, i1: int, k2: int, p2: int, i2: int|
        #![trigger after.pools[k1].table[p1]->0.slices[i1], after.pools[k2].table[p2]->0.slices[i2]]
        has_slice(after, k1, p1, i1) && has_slice(after, k2, p2, i2)
            && after.pools[k1].table[p1]->0.slices[i1].handle.id()
            == after.pools[k2].table[p2]->0.slices[i2].handle.id() implies (k1, p1, i1) == (
        k2,
        p2,
        i2,
    ) by {
        let a = m.pools[k1].table[p1]->0.slices[i1];
        let b = m.pools[k2].table[p2]->0.slices[i2];
    }
    assert forall|k: int, p: int, i: int|
        #![trigger after.pools[k].table[p]->0.slices[i]]
        has_slice(after, k, p, i) implies !after.external.contains_key(
        after.pools[k].table[p]->0.slices[i].handle.id(),
    ) by {
        let a = m.pools[k].table[p]->0.slices[i];
    }
}

/// A reservation brings no id that is smaller than those of new handles.
proof fn lemma_reserve_knows(
    m: MemoryView,
    size: u64,
    live: Liveness,
    r: Result<ManagedMemoryHandle, IoError>,
    after: MemoryView,
    id: usize,
)
    requires
        m.wf(),
        m.shaped(live),
        m.reserved(size, live, r, after),
        id < m.next_id,
        knows(after, id),
    ensures
        knows(m, id),
{
    lemma_first_from(0, m.dynamic(), |n: int| m.pools[n].accepts(size));
    if !after.external.contains_key(id) {
        let (k, p, i) = choose|k: int, p: int, i: int|
            has_slice(after, k, p, i) && (
            #[trigger] after.pools[k].table[p]->0.slices[i]).handle.id() == id;
        match m.plan(size, live) {
            Plan::Serve { pool, spot } => {
                let spare = choose|spare: ManagedMemoryHandle|
                    after == #[trigger] m.with_served(pool, spot, size, spare) && m.next_id
                        <= spare.id();
                assert(shaped(m.pools[pool].table, live[pool]));
                if k == pool {
                    let now = m.counted(size).reserve_count;
                    let table = m.pools[pool].table;
                    let grown = after.pools[pool].table[spot.page]->0.slices.len()
                        - table[spot.page]->0.slices.len();
                    lemma_spot(m.pools[pool], live[pool], size);
                    lemma_origin(m.pools[pool], live[pool], size, now, spare, p, i);
                    assert(origin(spot, grown, p, i) is Some);
                    let j = origin(spot, grown, p, i)->0;
                    let was = m.pools[k].table[p]->0.slices[j];
                    assert(has_slice(m, k, p, j));
                } else {
                    let was = m.pools[k].table[p]->0.slices[i];
                    assert(has_slice(m, k, p, i));
                }
            },
            Plan::Grow { pool } => {
                let table = m.pools[pool].table;
                lemma_first_from(0, table.len() as int, |n: int| table[n] is None);
                let v = vacant(table);
                let was = m.pools[k].table[p]->0.slices[i];
                if k == pool && p != v {
                    assert(after.pools[k].table[p] == table[p]);
                }
                assert(has_slice(m, k, p, i));
            },
            Plan::TooBig => {
                let was = m.pools[k].table[p]->0.slices[i];
                assert(has_slice(m, k, p, i));
            },
        }
    }
}

/// Slices have ids that are smaller than those of new handles.
proof fn lemma_slice_below(m: MemoryView, k: int, p: int, i: int)
    requires
        m.wf(),
        has_slice(m, k, p, i),
    ensures
        below(m.pools[k].table[p]->0.slices[i].handle.id(), m.next_id),
{
    assert(table_below(m.pools[k].table, m.next_id));
}

/// A handle that has an id and no memory yet is unknown, also once memory was reserved for it.
proof fn lemma_named_unknown(
    m: MemoryView,
    size: u64,
    live: Liveness,
    reserved: Result<ManagedMemoryHandle, IoError>,
    id: usize,
    mid: MemoryView,
)
    requires
        m.wf(),
        m.shaped(live),
        m.next_id <= id,
        m.naming(id).reserved(size, live, reserved, mid),
        m.naming(id).ids_left(),
    ensures
        m.naming(id).wf(),
        m.naming(id).shaped(live),
        !knows(m, id),
        !knows(mid, id),
{
    let named = m.naming(id);
    lemma_same_pools(m, named);
    if knows(m, id) && !m.external.contains_key(id) {
        let (k, p, i) = choose|k: int, p: int, i: int|
            has_slice(m, k, p, i) && (#[trigger] m.pools[k].table[p]->0.slices[i]).handle.id()
                == id;
        lemma_slice_below(m, k, p, i);
    }
    assert(!knows(m, id));
    if knows(mid, id) {
        lemma_reserve_knows(named, size, live, reserved, mid, id);
        if !named.external.contains_key(id) {
            let (k, p, i) = choose|k: int, p: int, i: int|
                has_slice(named, k, p, i) && (
                #[trigger] named.pools[k].table[p]->0.slices[i]).handle.id() == id;
            let same = m.pools[k].table[p]->0.slices[i];
            assert(has_slice(m, k, p, i));
        }
    }
}

/// Making a handle for new memory keeps ids apart.
pub proof fn lemma_fill_orderly(m: MemoryView, call: Call, after: MemoryView)
    requires
        m.wf(),
        call is Fill,
        comes_to(m, call, after),
        orderly(m),
        after.ids_left(),
    ensures
        orderly(after),
{
    let (size, live, reserved, memory, cursor) = (
        call->Fill_size,
        call->Fill_live,
        call->reserved,
        call->memory,
        call->Fill_cursor,
    );
    let named = m.naming(memory.id());
    let mid = choose|mid: MemoryView| #[trigger]
        filled(named, size, live, reserved, memory, cursor, mid, after);
    lemma_first_from(0, named.dynamic(), |n: int| named.pools[n].accepts(size));
    assert(named.next_id <= mid.next_id <= after.next_id);
    lemma_named_unknown(m, size, live, reserved, memory.id(), mid);
    lemma_same_orderly(m, named);
    lemma_reserve_orderly(named, size, live, reserved, mid);
    match reserved {
        Ok(slice) => {
            lemma_bind_orderly(mid, slice.id(), named.planned(size, live), memory, cursor);
        },
        Err(_) => {},
    }
}

/// Whether a call gives a slice to a handle: it reserved memory, made a handle for new memory,
/// or gave the slice of another handle away.
pub open spec fn gives(m: MemoryView, call: Call, handle: ManagedMemoryHandle) -> bool {
    match call {
        Call::Reserve { r, .. } => r == Ok::<ManagedMemoryHandle, IoError>(handle),
        Call::Fill { reserved, memory, .. } => reserved is Ok && memory == handle,
        Call::Bind { id, location, assigned, .. } => assigned == handle && m.find(
            id,
            location,
        ) is Ok,
        _ => false,
    }
}

/// How many bytes a call gives to a handle: as many as were asked for, or as the slice has.
pub open spec fn given_bytes(m: MemoryView, call: Call) -> u64 {
    match call {
        Call::Reserve { size, .. } => size,
        Call::Fill { size, .. } => size,
        Call::Bind { id, location, .. } => m.find(id, location)->Ok_0.storage.size,
        _ => 0,
    }
}

/// Memory in use is never handed out twice: two handles that were given memory and are both
/// still held find ranges of different allocations, or ranges that do not overlap; each of the
/// size that was asked for, and wherever the handles say that they are. So it is from a state
/// where handles have ids of their own, which a new memory management is in, as long as there
/// are ids left and slices are given to handles with ids of their own only.
pub proof fn law_held_memory_is_apart(
    history: History,
    i: int,
    j: int,
    first: ManagedMemoryHandle,
    second: ManagedMemoryHandle,
    a: Result<StorageHandle, IoError>,
    b: Result<StorageHandle, IoError>,
)
    requires
        history.happens(),
        0 <= i < j < history.calls.len(),
        gives(history.states[i], history.calls[i], first),
        gives(history.states[j], history.calls[j], second),
        history.holds_from(i + 1, first),
        history.holds_from(j + 1, second),
        history.keeps_ids(),
        history.end().stored(first.id(), a),
        history.end().stored(second.id(), b),
    ensures
        first.id() != second.id(),
        a matches Ok(x) && b matches Ok(y) && {
            &&& x.size == given_bytes(history.states[i], history.calls[i])
            &&& y.size == given_bytes(history.states[j], history.calls[j])
            &&& x.id != y.id || x.offset + x.size <= y.offset || y.offset + y.size <= x.offset
        },
{
    let n = history.calls.len() as int;
    lemma_given_ids_apart(history, i, j, first, second);
    let at = lemma_held_lies(history, i, n, first);
    let there = lemma_held_lies(history, j, n, second);
    lemma_ends_apart(history, at, there, a, b);
}

/// Slices at the end of a history do not overlap.
proof fn lemma_ends_apart(
    history: History,
    at: (int, int, Slice),
    there: (int, int, Slice),
    a: Result<StorageHandle, IoError>,
    b: Result<StorageHandle, IoError>,
)
    requires
        history.keeps_ids(),
        lies(history.end(), at.0, at.1, at.2),
        lies(history.end(), there.0, there.1, there.2),
        at.2.handle.id() != there.2.handle.id(),
        history.end().stored(at.2.handle.id(), a),
        history.end().stored(there.2.handle.id(), b),
    ensures
        a == Ok::<StorageHandle, IoError>(at.2.storage),
        b == Ok::<StorageHandle, IoError>(there.2.storage),
        a->Ok_0.id != b->Ok_0.id || a->Ok_0.offset + a->Ok_0.size <= b->Ok_0.offset
            || b->Ok_0.offset + b->Ok_0.size <= a->Ok_0.offset,
{
    law_ids_stay_apart(history, history.calls.len() as int);
    lemma_slices_apart(history.end(), at, there, a, b);
}

/// Two handles that were given memory have different ids, if the first is held when the second
/// is given its memory.
proof fn lemma_given_ids_apart(
    history: History,
    i: int,
    j: int,
    first: ManagedMemoryHandle,
    second: ManagedMemoryHandle,
)
    requires
        history.keeps_ids(),
        0 <= i < j < history.calls.len(),
        gives(history.states[i], history.calls[i], first),
        gives(history.states[j], history.calls[j], second),
        history.holds_from(i + 1, first),
    ensures
        first.id() != second.id(),
{
    let (k, p, slice) = lemma_held_lies(history, i, j, first);
    law_ids_stay_apart(history, j);
    lemma_ids_grow(history, j, history.calls.len() as int);
    let m = history.states[j];
    let call = history.calls[j];
    assert(comes_to(m, call, history.states[j + 1]));
    assert(keeps_held(m, call, first));
    assert(binds_apart(m, call));
    lemma_given_apart(m, call, second, k, p, slice);
}

/// A handle that was given memory and is held has its slice.
proof fn lemma_held_lies(history: History, i: int, to: int, handle: ManagedMemoryHandle) -> (at: (
    int,
    int,
    Slice,
))
    requires
        history.happens(),
        0 <= i < to <= history.calls.len(),
        gives(history.states[i], history.calls[i], handle),
        history.holds_from(i + 1, handle),
        history.keeps_ids(),
    ensures
        lies(history.states[to], at.0, at.1, at.2),
        at.2.handle == handle,
        at.2.storage.size == given_bytes(history.states[i], history.calls[i]),
{
    law_ids_stay_apart(history, i);
    lemma_ids_grow(history, i + 1, history.calls.len() as int);
    let m = history.states[i];
    let call = history.calls[i];
    assert(comes_to(m, call, history.states[i + 1]));
    let (k, p, slice) = lemma_given_lies(m, call, handle, history.states[i + 1]);
    lemma_lies_on(history, i + 1, to, k, p, slice);
    (k, p, slice)
}

/// Slices of handles with different ids do not overlap.
proof fn lemma_slices_apart(
    m: MemoryView,
    at: (int, int, Slice),
    there: (int, int, Slice),
    a: Result<StorageHandle, IoError>,
    b: Result<StorageHandle, IoError>,
)
    requires
        m.wf(),
        orderly(m),
        lies(m, at.0, at.1, at.2),
        lies(m, there.0, there.1, there.2),
        at.2.handle.id() != there.2.handle.id(),
        m.stored(at.2.handle.id(), a),
        m.stored(there.2.handle.id(), b),
    ensures
        a == Ok::<StorageHandle, IoError>(at.2.storage),
        b == Ok::<StorageHandle, IoError>(there.2.storage),
        a->Ok_0.id != b->Ok_0.id || a->Ok_0.offset + a->Ok_0.size <= b->Ok_0.offset
            || b->Ok_0.offset + b->Ok_0.size <= a->Ok_0.offset,
{
    let i = lemma_only_slice(m, at.0, at.1, at.2, a);
    let j = lemma_only_slice(m, there.0, there.1, there.2, b);
    law_slices_are_disjoint(m, at.0, at.1, i, there.0, there.1, j);
}

/// Where handles have ids of their own, a handle finds its slice.
proof fn lemma_only_slice(
    m: MemoryView,
    k: int,
    p: int,
    slice: Slice,
    r: Result<StorageHandle, IoError>,
) -> (i: int)
    requires
        orderly(m),
        lies(m, k, p, slice),
        m.stored(slice.handle.id(), r),
    ensures
        has_slice(m, k, p, i),
        m.pools[k].table[p]->0.slices[i] == slice,
        r == Ok::<StorageHandle, IoError>(slice.storage),
{
    let id = slice.handle.id();
    let slices = m.pools[k].table[p]->0.slices;
    let i = choose|i: int| 0 <= i < slices.len() && slices[i] == slice;
    assert(has_slice(m, k, p, i));
    assert(m.pools[k].table[p]->0.slices[i] == slice);
    assert(m.held_by(k, id));
    assert(m.holds(id));
    let found = choose|found: Slice| #[trigger]
        m.slice_of(id, found) && found.storage == r->Ok_0;
    let (q, s, t) = choose|q: int, s: int, t: int|
        has_slice(m, q, s, t) && (#[trigger] m.pools[q].table[s]->0.slices[t]) == found;
    i
}

/// What a handle that was given memory holds right after it.
proof fn lemma_given_lies(
    m: MemoryView,
    call: Call,
    handle: ManagedMemoryHandle,
    after: MemoryView,
) -> (at: (int, int, Slice))
    requires
        m.wf(),
        orderly(m),
        gives(m, call, handle),
        comes_to(m, call, after),
        after.ids_left(),
    ensures
        lies(after, at.0, at.1, at.2),
        at.2.handle == handle,
        at.2.storage.size == given_bytes(m, call),
{
    match call {
        Call::Reserve { size, live, r } => lemma_reserved_lies(m, size, live, handle, after),
        Call::Bind { id, location, assigned, cursor } => {
            lemma_bound_lies(m, id, location, assigned, cursor)
        },
        Call::Fill { size, live, reserved, memory, cursor } => {
            let named = m.naming(memory.id());
            let mid = choose|mid: MemoryView| #[trigger]
                filled(named, size, live, reserved, memory, cursor, mid, after);
            lemma_first_from(0, named.dynamic(), |n: int| named.pools[n].accepts(size));
            assert(named.next_id <= mid.next_id <= after.next_id);
            lemma_named_unknown(m, size, live, reserved, memory.id(), mid);
            lemma_same_orderly(m, named);
            lemma_reserve_orderly(named, size, live, reserved, mid);
            let slice = reserved->Ok_0;
            let location = named.planned(size, live);
            let k = mid.pool_of(location.pool);
            let p = location.page as int;
            let slices = mid.pools[k].table[p]->0.slices;
            let i = choose|i: int|
                0 <= i < slices.len() && (#[trigger] slices[i]).handle == slice
                    && slices[i].storage.size == size;
            let held = |n: int| slices[n].handle.id() == slice.id();
            assert(held(i));
            lemma_first_from(0, slices.len() as int, held);
            let n = slice_of(slices, slice.id())->0;
            assert(has_slice(mid, k, p, i) && has_slice(mid, k, p, n));
            assert(mid.pools[k].table[p]->0.slices[i].handle.id()
                == mid.pools[k].table[p]->0.slices[n].handle.id());
            lemma_bound_lies(mid, slice.id(), location, memory, cursor)
        },
        _ => arbitrary(),
    }
}

/// What a handle holds right after the slice of another was given to it.
proof fn lemma_bound_lies(
    m: MemoryView,
    id: usize,
    location: MemoryLocation,
    assigned: ManagedMemoryHandle,
    cursor: u64,
) -> (at: (int, int, Slice))
    requires
        2 <= m.pools.len(),
        m.find(id, location) is Ok,
    ensures
        lies(m.bound(id, location, assigned, cursor), at.0, at.1, at.2),
        at.2.handle == assigned,
        at.2.storage == m.find(id, location)->Ok_0.storage,
{
    let after = m.bound(id, location, assigned, cursor);
    let k = m.pool_of(location.pool);
    let p = location.page as int;
    let slices = m.pools[k].table[p]->0.slices;
    lemma_first_from(0, slices.len() as int, |n: int| slices[n].handle.id() == id);
    let i = slice_of(slices, id)->0;
    let given = after.pools[k].table[p]->0.slices;
    assert(given.contains(given[i]));
    (k, p, given[i])
}

/// What a reservation holds right after it.
proof fn lemma_reserved_lies(
    m: MemoryView,
    size: u64,
    live: Liveness,
    handle: ManagedMemoryHandle,
    after: MemoryView,
) -> (at: (int, int, Slice))
    requires
        m.wf(),
        m.shaped(live),
        m.reserved(size, live, Ok(handle), after),
    ensures
        lies(after, at.0, at.1, at.2),
        at.2.handle == handle,
        at.2.storage.size == size,
{
    lemma_first_from(0, m.dynamic(), |n: int| m.pools[n].accepts(size));
    match m.plan(size, live) {
        Plan::Serve { pool, spot } => {
            assert(shaped(m.pools[pool].table, live[pool]));
            lemma_spot(m.pools[pool], live[pool], size);
            let slices = after.pools[pool].table[spot.page]->0.slices;
            assert(slices.contains(slices[spot.first]));
            (pool, spot.page, slices[spot.first])
        },
        Plan::Grow { pool } => {
            let table = m.pools[pool].table;
            lemma_first_from(0, table.len() as int, |n: int| table[n] is None);
            let slices = after.pools[pool].table[vacant(table)]->0.slices;
            assert(slices.contains(slices[0]));
            (pool, vacant(table), slices[0])
        },
        Plan::TooBig => arbitrary(),
    }
}

/// A slice that is held stays where it is, call by call.
proof fn lemma_lies_on(history: History, from: int, to: int, k: int, p: int, slice: Slice)
    requires
        history.happens(),
        0 <= from <= to <= history.calls.len(),
        lies(history.states[from], k, p, slice),
        history.holds_from(from, slice.handle),
        history.keeps_ids(),
    ensures
        lies(history.states[to], k, p, slice),
    decreases to - from,
{
    if from < to {
        lemma_lies_on(history, from, to - 1, k, p, slice);
        law_ids_stay_apart(history, to - 1);
        lemma_ids_grow(history, to, history.calls.len() as int);
        let m = history.states[to - 1];
        let call = history.calls[to - 1];
        let after = history.states[to];
        assert(comes_to(m, call, after));
        assert(keeps_held(m, call, slice.handle));
        match call {
            Call::Reserve { size, live, r } => {
                lemma_reserve_lies(m, size, live, r, after, k, p, slice);
            },
            Call::Cleanup { live, explicit } => {
                let which = Set::new(|k: int| 0 <= k < m.arena_at());
                lemma_cleanup_lies(m, live, explicit, which, k, p, slice);
            },
            Call::ArenaRelease { live } => {
                let which = Set::empty().insert(m.arena_at());
                lemma_cleanup_lies(m, live, true, which, k, p, slice);
            },
            Call::Bind { id, location, assigned, cursor } => {
                lemma_bind_lies(m, id, location, assigned, cursor, k, p, slice);
            },
            Call::Fill { size, live, reserved, memory, cursor } => {
                lemma_fill_lies(m, call, after, k, p, slice);
            },
            _ => {
                assert(after.pools == m.pools);
            },
        }
    }
}

/// A cleanup leaves a slice that is held where it is.
proof fn lemma_cleanup_lies(
    m: MemoryView,
    live: Liveness,
    explicit: bool,
    which: Set<int>,
    k: int,
    p: int,
    slice: Slice,
)
    requires
        m.wf(),
        m.shaped(live),
        lies(m, k, p, slice),
        in_use(m, live, slice.handle),
    ensures
        lies(m.cleaned_where(live, explicit, which), k, p, slice),
{
    let after = m.cleaned_where(live, explicit, which);
    let slices = m.pools[k].table[p]->0.slices;
    let i = choose|i: int| 0 <= i < slices.len() && slices[i] == slice;
    assert(m.pools[k].table[p]->0.slices[i] == slice);
    law_cleanup_keeps_what_is_in_use(m, live, explicit, which, k, p, i);
    let kept = after.pools[k].table[p]->0.slices;
    assert(kept[i] == slice);
}

/// Making a handle for new memory leaves a slice that is held where it is.
proof fn lemma_fill_lies(
    m: MemoryView,
    call: Call,
    after: MemoryView,
    k: int,
    p: int,
    slice: Slice,
)
    requires
        m.wf(),
        orderly(m),
        after.ids_left(),
        call is Fill,
        comes_to(m, call, after),
        lies(m, k, p, slice),
        in_use(m, call->Fill_live, slice.handle),
    ensures
        lies(after, k, p, slice),
{
    let (size, live, reserved, memory, cursor) = (
        call->Fill_size,
        call->Fill_live,
        call->reserved,
        call->memory,
        call->Fill_cursor,
    );
    let named = m.naming(memory.id());
    let mid = choose|mid: MemoryView| #[trigger]
        filled(named, size, live, reserved, memory, cursor, mid, after);
    lemma_first_from(0, named.dynamic(), |n: int| named.pools[n].accepts(size));
    assert(named.next_id <= mid.next_id <= after.next_id);
    lemma_same_pools(m, named);
    lemma_same_orderly(m, named);
    assert(in_use(named, live, slice.handle)) by {
        assert(named.pools == m.pools);
    }
    lemma_reserve_lies(named, size, live, reserved, mid, k, p, slice);
    match reserved {
        Ok(other) => {
            lemma_reserve_apart(named, size, live, other, mid, k, p, slice);
            let location = named.planned(size, live);
            lemma_bind_lies(mid, other.id(), location, memory, cursor, k, p, slice);
        },
        Err(_) => {},
    }
}

/// A reservation leaves a slice that is held where it is.
proof fn lemma_reserve_lies(
    m: MemoryView,
    size: u64,
    live: Liveness,
    r: Result<ManagedMemoryHandle, IoError>,
    after: MemoryView,
    k: int,
    p: int,
    slice: Slice,
)
    requires
        m.wf(),
        m.shaped(live),
        m.reserved(size, live, r, after),
        lies(m, k, p, slice),
        in_use(m, live, slice.handle),
    ensures
        lies(after, k, p, slice),
{
    let slices = m.pools[k].table[p]->0.slices;
    let i = choose|i: int| 0 <= i < slices.len() && slices[i] == slice;
    assert(m.pools[k].table[p]->0.slices[i] == slice);
    lemma_first_from(0, m.dynamic(), |n: int| m.pools[n].accepts(size));
    law_reserve_keeps_what_is_in_use(m, size, live, r, after, k, p, i);
}

/// Giving the slice of one handle away leaves the slices of others where they are.
proof fn lemma_bind_lies(
    m: MemoryView,
    id: usize,
    location: MemoryLocation,
    assigned: ManagedMemoryHandle,
    cursor: u64,
    k: int,
    p: int,
    slice: Slice,
)
    requires
        2 <= m.pools.len(),
        lies(m, k, p, slice),
        slice.handle.id() != id,
    ensures
        lies(m.bound(id, location, assigned, cursor), k, p, slice),
{
    let after = m.bound(id, location, assigned, cursor);
    let slices = m.pools[k].table[p]->0.slices;
    let i = choose|i: int| 0 <= i < slices.len() && slices[i] == slice;
    if m.pool_of(location.pool) == k && location.page == p {
        let held = |n: int| slices[n].handle.id() == id;
        lemma_first_from(0, slices.len() as int, held);
        let kept = after.pools[k].table[p]->0.slices;
        assert(kept[i] == slice);
    } else {
        assert(after.pools[k].table[p] == m.pools[k].table[p]);
    }
}

/// A reservation hands out no handle with the id of one that is held.
proof fn lemma_reserve_apart(
    m: MemoryView,
    size: u64,
    live: Liveness,
    second: ManagedMemoryHandle,
    after: MemoryView,
    k: int,
    p: int,
    slice: Slice,
)
    requires
        m.wf(),
        orderly(m),
        m.ids_left(),
        m.shaped(live),
        m.reserved(size, live, Ok(second), after),
        lies(m, k, p, slice),
        in_use(m, live, slice.handle),
    ensures
        second.id() != slice.handle.id(),
{
    lemma_first_from(0, m.dynamic(), |n: int| m.pools[n].accepts(size));
    let slices = m.pools[k].table[p]->0.slices;
    let i = choose|i: int| 0 <= i < slices.len() && slices[i] == slice;
    assert(has_slice(m, k, p, i));
    assert(m.pools[k].table[p]->0.slices[i] == slice);
    lemma_slice_below(m, k, p, i);
    match m.plan(size, live) {
        Plan::Serve { pool, spot } => {
            assert(shaped(m.pools[pool].table, live[pool]));
            lemma_spot(m.pools[pool], live[pool], size);
            let taken = m.pools[pool].table[spot.page]->0.slices[spot.first];
            assert(taken.handle == second);
            assert(live[pool][spot.page][spot.first]);
            assert(has_slice(m, pool, spot.page, spot.first));
        },
        _ => {},
    }
}

/// No call gives memory to a handle with the id of one that is held.
proof fn lemma_given_apart(
    m: MemoryView,
    call: Call,
    second: ManagedMemoryHandle,
    k: int,
    p: int,
    slice: Slice,
)
    requires
        m.wf(),
        orderly(m),
        m.ids_left(),
        gives(m, call, second),
        binds_apart(m, call),
        exists|after: MemoryView| #[trigger] comes_to(m, call, after),
        lies(m, k, p, slice),
        keeps_held(m, call, slice.handle),
    ensures
        second.id() != slice.handle.id(),
{
    let after = choose|after: MemoryView| #[trigger] comes_to(m, call, after);
    let slices = m.pools[k].table[p]->0.slices;
    let i = choose|i: int| 0 <= i < slices.len() && slices[i] == slice;
    assert(has_slice(m, k, p, i));
    assert(m.pools[k].table[p]->0.slices[i] == slice);
    lemma_slice_below(m, k, p, i);
    match call {
        Call::Reserve { size, live, r } => {
            lemma_reserve_apart(m, size, live, second, after, k, p, slice);
        },
        _ => {},
    }
}

/// What an open arena hands out is the arena's: it says so where it was placed, and whatever
/// its clones say unless another pool holds its id too. No other pool does where handles have
/// ids of their own and there are ids left.
pub proof fn law_open_arena_owns_what_it_hands_out(
    m: MemoryView,
    size: u64,
    live: Liveness,
    handle: ManagedMemoryHandle,
    after: MemoryView,
    location: MemoryLocation,
)
    requires
        m.wf(),
        m.shaped(live),
        m.arena_active,
        m.reserved(size, live, Ok(handle), after),
    ensures
        m.planned(size, live).pool == m.arena_at(),
        after.arena_has(handle.id(), m.planned(size, live)),
        !after.held_elsewhere(handle.id()) ==> after.arena_has(handle.id(), location),
        orderly(m) && m.ids_left() ==> !after.held_elsewhere(handle.id()),
{
    let arena = m.arena_at();
    let (p, i) = match m.plan(size, live) {
        Plan::Serve { pool, spot } => {
            assert(shaped(m.pools[pool].table, live[pool]));
            lemma_spot(m.pools[pool], live[pool], size);
            (spot.page, spot.first)
        },
        Plan::Grow { pool } => {
            let table = m.pools[pool].table;
            lemma_first_from(0, table.len() as int, |n: int| table[n] is None);
            (vacant(table), 0)
        },
        Plan::TooBig => arbitrary(),
    };
    let slice = after.pools[arena].table[p]->0.slices[i];
    assert(slice.handle == handle);
    assert(has_slice(after, arena, p, i));
    assert(after.held_by(arena, handle.id()));
    if orderly(m) && m.ids_left() && after.held_elsewhere(handle.id()) {
        let k = choose|k: int| 0 <= k < arena && #[trigger] after.held_by(k, handle.id());
        lemma_held_apart(m, size, live, handle, after, arena, p, i, k);
    }
}

/// Two pools never hold the handle that was handed out, where handles have ids of their own.
proof fn lemma_held_apart(
    m: MemoryView,
    size: u64,
    live: Liveness,
    handle: ManagedMemoryHandle,
    after: MemoryView,
    at: int,
    p: int,
    i: int,
    k: int,
)
    requires
        m.wf(),
        m.shaped(live),
        m.reserved(size, live, Ok(handle), after),
        orderly(m),
        m.ids_left(),
        has_slice(after, at, p, i),
        after.pools[at].table[p]->0.slices[i].handle == handle,
        0 <= k < after.pools.len(),
        after.held_by(k, handle.id()),
    ensures
        k == at,
{
    lemma_reserve_orderly(m, size, live, Ok(handle), after);
    let (q, n) = lemma_held_at(after, k, handle.id());
    let other = after.pools[k].table[q]->0.slices[n];
}

/// Where the slice of a handle is.
proof fn lemma_held_at(m: MemoryView, k: int, id: usize) -> (at: (int, int))
    requires
        0 <= k < m.pools.len(),
        m.held_by(k, id),
    ensures
        has_slice(m, k, at.0, at.1),
        m.pools[k].table[at.0]->0.slices[at.1].handle.id() == id,
{
    let (q, n) = choose|q: int, n: int|
        0 <= q < m.pools[k].table.len() && m.pools[k].table[q] is Some && 0 <= n
            < m.pools[k].table[q]->0.slices.len() && (
        #[trigger] m.pools[k].table[q]->0.slices[n]).handle.id() == id;
    (q, n)
}

/// What is handed out while the arena is closed is not the arena's: it says so where it was
/// placed, and whatever its clones say unless the arena holds its id too. The arena does not
/// where handles have ids of their own and there are ids left.
pub proof fn law_closed_arena_hands_out_nothing(
    m: MemoryView,
    size: u64,
    live: Liveness,
    handle: ManagedMemoryHandle,
    after: MemoryView,
    location: MemoryLocation,
)
    requires
        m.wf(),
        m.shaped(live),
        !m.arena_active,
        m.reserved(size, live, Ok(handle), after),
    ensures
        m.planned(size, live).pool != m.arena_at(),
        !after.arena_has(handle.id(), m.planned(size, live)),
        !after.held_by(m.arena_at(), handle.id()) ==> !after.arena_has(handle.id(), location),
        orderly(m) && m.ids_left() ==> !after.held_by(m.arena_at(), handle.id()),
{
    lemma_first_from(0, m.dynamic(), |n: int| m.pools[n].accepts(size));
    let arena = m.arena_at();
    let (k, p, i) = match m.plan(size, live) {
        Plan::Serve { pool, spot } => {
            assert(shaped(m.pools[pool].table, live[pool]));
            lemma_spot(m.pools[pool], live[pool], size);
            (pool, spot.page, spot.first)
        },
        Plan::Grow { pool } => {
            let table = m.pools[pool].table;
            lemma_first_from(0, table.len() as int, |n: int| table[n] is None);
            (pool, vacant(table), 0)
        },
        Plan::TooBig => arbitrary(),
    };
    let slice = after.pools[k].table[p]->0.slices[i];
    assert(slice.handle == handle);
    assert(has_slice(after, k, p, i));
    assert(after.held_by(k, handle.id()));
    assert(after.held_elsewhere(handle.id()));
    if orderly(m) && m.ids_left() && after.held_by(arena, handle.id()) {
        lemma_held_apart(m, size, live, handle, after, k, p, i, arena);
    }
}

/// Giving the slice of a handle away is a call, wherever the handle says that it is. Where it
/// fails nothing changed.
pub proof fn law_rebinding_is_a_call(
    m: MemoryView,
    id: usize,
    assigned: ManagedMemoryHandle,
    cursor: u64,
    r: Result<(), IoError>,
    after: MemoryView,
)
    requires
        m.wf(),
        rebinds(m, id, assigned, cursor, r, after),
    ensures
        r is Ok ==> exists|call: Call| #[trigger]
            comes_to(m, call, after) && gives(m, call, assigned) && call is Bind,
        r is Err ==> after == m,
{
    let location = choose|location: MemoryLocation| #[trigger]
        location.reported() && bound_at(
            m,
            id,
            m.sought(id, location),
            assigned,
            cursor,
            r,
            after,
        );
    let place = m.sought(id, location);
    let call = Call::Bind { id, location: place, assigned, cursor };
    if r is Ok {
        assert(comes_to(m, call, after));
    } else {
        assert(after.pools =~= m.pools);
    }
}

} // verus!
