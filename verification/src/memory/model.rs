//! What a memory management is, for contracts.

use vstd::prelude::*;

use crate::first::{first_where, lemma_first_from};
use crate::memory::error::IoError;
use crate::memory::handle::{ManagedMemoryHandle, MemoryLocation};
use crate::memory::options::{MemoryAllocationMode, PersistentMemory};
use crate::memory::page::{
    find_slice, flags, offered, page_with, rebound, shaped, slice_of, table_holds, table_owns, vacant, PageView, Slice,
};
use crate::memory::pool::{lemma_spot, PoolView, Spot};
use crate::memory::storage::StorageHandle;
use crate::memory::usage::{
    lemma_table_usage_nonnegative, lemma_usage_within_capacity, no_usage, none_free, table_usage, Usage,
};

verus! {

/// What a memory management is, for contracts.
#[verifier::ext_equal]
pub struct MemoryView {
    /// Its name.
    pub name: Seq<char>,
    /// The pools that serve ordinary reservations, then the persistent pool, then the
    /// arena.
    pub pools: Seq<PoolView>,
    /// Whether the arena is open.
    pub arena_active: bool,
    /// How many times the arena has been opened.
    pub arena_generation: u64,
    /// Reservations the arena served.
    pub arena_served: u64,
    /// Of those, the ones that needed a new page.
    pub arena_misses: u64,
    /// The sizes the arena served since it was opened.
    pub arena_sizes: Seq<u64>,
    /// How many reservations there were.
    pub reserve_count: u64,
    /// The mode of allocation.
    pub mode: MemoryAllocationMode,
    /// What the configuration says of persistent memory.
    pub config: PersistentMemory,
    /// Whether the mode was provided, and stays what it is.
    pub forced: bool,
    /// What was registered rather than reserved.
    pub external: Map<usize, StorageHandle>,
    /// The allocations of the storage.
    pub allocated: Set<usize>,
    /// What the id of a new handle is no smaller than. Every id that is known is smaller.
    pub next_id: usize,
}

/// Whether an id is smaller than what new ids start from. Past the largest id there is none.
pub open spec fn below(id: usize, next: usize) -> bool {
    id < next || next == usize::MAX
}

/// What new ids start from once an id is known.
pub open spec fn past(next: usize, id: usize) -> usize {
    if id < next {
        next
    } else if id < usize::MAX {
        (id + 1) as usize
    } else {
        usize::MAX
    }
}

/// Whether the ids of the slices of a table are known.
pub open spec fn table_below(table: Seq<Option<PageView>>, next: usize) -> bool {
    forall|p: int, i: int|
        #![trigger table[p]->0.slices[i]]
        0 <= p < table.len() && table[p] is Some && 0 <= i < table[p]->0.slices.len() ==> below(
            table[p]->0.slices[i].handle.id(),
            next,
        )
}

/// For every slice of every page of every pool, whether it is free.
pub type Liveness = Seq<Seq<Seq<bool>>>;

/// The flags that nested vectors hold.
pub open spec fn lives(live: Seq<Vec<Vec<bool>>>) -> Liveness {
    live.map_values(|pool: Vec<Vec<bool>>| flags(pool@))
}

/// How a reservation is served.
pub enum Plan {
    /// From a free spot of a pool.
    Serve { pool: int, spot: Spot },
    /// From a new page of a pool.
    Grow { pool: int },
    /// Not at all: no pool takes it.
    TooBig,
}

impl MemoryView {
    /// How many pools serve ordinary reservations.
    pub open spec fn dynamic(self) -> int {
        self.pools.len() - 2
    }

    /// Which pool is the persistent one.
    pub open spec fn persistent_at(self) -> int {
        self.pools.len() - 2
    }

    /// Which pool is the arena.
    pub open spec fn arena_at(self) -> int {
        self.pools.len() - 1
    }

    /// The arena.
    pub open spec fn arena(self) -> PoolView {
        self.pools[self.arena_at()]
    }

    /// Whether a page of pool `k` is this allocation.
    pub open spec fn owned_by(self, k: int, id: usize) -> bool {
        table_owns(self.pools[k].table, id)
    }

    /// The invariant: every pool is well formed, a location byte tells the pools apart,
    /// every page is an allocation of the storage that no other pool has, and every id in use
    /// is known.
    pub open spec fn wf(self) -> bool {
        &&& self.shape_wf()
        &&& forall|k: int, id: usize|
            0 <= k < self.pools.len() && #[trigger] self.owned_by(k, id)
                ==> self.allocated.contains(id)
        &&& forall|j: int, k: int, id: usize|
            0 <= j < k < self.pools.len() && #[trigger] self.owned_by(j, id)
                ==> !#[trigger] self.owned_by(k, id)
        &&& self.ids_wf()
    }

    /// Every id that is held or registered is known.
    pub open spec fn ids_wf(self) -> bool {
        &&& forall|k: int|
            0 <= k < self.pools.len() ==> table_below(
                (#[trigger] self.pools[k]).table,
                self.next_id,
            )
        &&& forall|id: usize| #[trigger] self.external.contains_key(id) ==> below(id, self.next_id)
    }

    /// Whether there are ids left for a reservation.
    pub open spec fn ids_left(self) -> bool {
        self.next_id <= usize::MAX - 4
    }

    /// The same with other ids known.
    pub open spec fn with_next(self, next_id: usize) -> MemoryView {
        MemoryView { next_id, ..self }
    }

    /// After an id was given to a handle.
    pub open spec fn naming(self, id: usize) -> MemoryView {
        self.with_next(past(self.next_id, id))
    }

    /// After storage was registered under an id.
    pub open spec fn registered(self, id: usize, storage: StorageHandle) -> MemoryView {
        MemoryView {
            external: self.external.insert(id, storage),
            next_id: past(self.next_id, id),
            ..self
        }
    }

    /// Whether what was registered for a handle is an allocation of the storage still.
    pub open spec fn external_lives(self, id: usize) -> bool {
        self.external.contains_key(id) ==> self.allocated.contains(self.external[id].id)
    }

    /// Whether everything that was registered is an allocation of the storage that no pool has.
    /// Then no call on the pools gives it back.
    pub open spec fn external_wf(self) -> bool {
        forall|id: usize| #[trigger]
            self.external.contains_key(id) ==> self.outside(self.external[id].id)
    }

    /// Whether an allocation of the storage is no page of any pool.
    pub open spec fn outside(self, storage: usize) -> bool {
        &&& self.allocated.contains(storage)
        &&& forall|k: int| 0 <= k < self.pools.len() ==> !(#[trigger] self.owned_by(k, storage))
    }

    /// The part of the invariant that speaks of the pools one by one.
    pub open spec fn shape_wf(self) -> bool {
        &&& 2 <= self.pools.len() <= 256
        &&& forall|k: int|
            0 <= k < self.pools.len() ==> (#[trigger] self.pools[k]).wf() && self.pools[k].position
                == k && (self.pools[k].rules is Persistent <==> k >= self.dynamic())
    }

    /// After another mode was asked for. A mode that was provided stays, and so does one that
    /// the configuration determines.
    pub open spec fn with_mode(self, mode: MemoryAllocationMode) -> MemoryView {
        if !self.forced && self.config == PersistentMemory::Enabled {
            MemoryView { mode, ..self }
        } else {
            self
        }
    }

    /// Whether the flags are those of the pools.
    pub open spec fn shaped(self, live: Liveness) -> bool {
        &&& live.len() == self.pools.len()
        &&& forall|k: int|
            0 <= k < self.pools.len() ==> shaped(#[trigger] self.pools[k].table, live[k])
    }

    /// Whether no slice that is read only is said to be free.
    pub open spec fn offers(self, live: Liveness) -> bool {
        forall|k: int|
            0 <= k < self.pools.len() ==> offered(#[trigger] self.pools[k].table, live[k])
    }

    /// Whether the flags can be what a look at the holders shows: those of the pools, with no
    /// slice free that is read only.
    pub open spec fn sees(self, live: Liveness) -> bool {
        self.shaped(live) && self.offers(live)
    }

    /// Which pool a reservation goes to. While the arena is open it is the only one.
    /// Otherwise persistent memory is used where it has a free slice of the size, or any
    /// slice of it, or where the mode says so; and else the first pool that takes
    /// the size.
    pub open spec fn route(self, size: u64, live: Liveness) -> Option<int> {
        let persistent = self.pools[self.persistent_at()];
        if self.arena_active {
            Some(self.arena_at())
        } else if persistent.spot(live[self.persistent_at()], size) is Some || self.mode
            == MemoryAllocationMode::Persistent || persistent.owns_size(size) {
            Some(self.persistent_at())
        } else {
            first_where(self.dynamic() as nat, |k: int| self.pools[k].accepts(size))
        }
    }

    /// How a reservation is served.
    pub open spec fn plan(self, size: u64, live: Liveness) -> Plan {
        match self.route(size, live) {
            Some(k) => match self.pools[k].spot(live[k], size) {
                Some(spot) => Plan::Serve { pool: k, spot },
                None => if self.pools[k].can_hold(size) {
                    Plan::Grow { pool: k }
                } else {
                    Plan::TooBig
                },
            },
            None => Plan::TooBig,
        }
    }

    /// Where a reservation that is served is placed: on the page of its spot, or on the page
    /// that the pool gets.
    pub open spec fn planned(self, size: u64, live: Liveness) -> MemoryLocation {
        match self.plan(size, live) {
            Plan::Serve { pool, spot } => MemoryLocation {
                pool: pool as u8,
                page: spot.page as usize,
                init: 1,
            },
            Plan::Grow { pool } => MemoryLocation {
                pool: pool as u8,
                page: vacant(self.pools[pool].table) as usize,
                init: 1,
            },
            Plan::TooBig => MemoryLocation { pool: 0, page: 0, init: 0 },
        }
    }

    /// After one more reservation was counted.
    pub open spec fn counted(self, size: u64) -> MemoryView {
        if self.arena_active {
            MemoryView {
                reserve_count: (self.reserve_count + 1) as u64,
                arena_served: (self.arena_served + 1) as u64,
                arena_sizes: self.arena_sizes.push(size),
                ..self
            }
        } else {
            MemoryView { reserve_count: (self.reserve_count + 1) as u64, ..self }
        }
    }

    /// After a reservation took up a spot.
    pub open spec fn with_served(
        self,
        pool: int,
        spot: Spot,
        size: u64,
        spare: ManagedMemoryHandle,
    ) -> MemoryView {
        let counted = self.counted(size);
        MemoryView {
            pools: self.pools.update(
                pool,
                self.pools[pool].with_taken(spot, size, counted.reserve_count, spare),
            ),
            next_id: past(self.next_id, spare.id()),
            ..counted
        }
    }

    /// After a reservation found no spot.
    pub open spec fn with_miss(self, size: u64) -> MemoryView {
        let counted = self.counted(size);
        if self.arena_active {
            MemoryView { arena_misses: (self.arena_misses + 1) as u64, ..counted }
        } else {
            counted
        }
    }

    /// After a page was allocated for a reservation that found no spot.
    pub open spec fn with_grown(
        self,
        pool: int,
        storage: StorageHandle,
        size: u64,
        handle: ManagedMemoryHandle,
        spare: ManagedMemoryHandle,
    ) -> MemoryView {
        MemoryView {
            pools: self.pools.update(
                pool,
                self.pools[pool].with_grown(storage, size, self.reserve_count, handle, spare),
            ),
            next_id: past(past(self.next_id, handle.id()), spare.id()),
            ..self
        }
    }

    /// Whether the counters have room for one more reservation.
    pub open spec fn can_count(self) -> bool {
        &&& self.reserve_count < u64::MAX
        &&& self.arena_active ==> self.arena_served < u64::MAX && self.arena_misses < u64::MAX
    }

    /// Whether `after` and `r` are what a reservation can come to, with these slices
    /// free. Every handle that it makes has an id that was not known, and neither those nor the
    /// one that it hands out are read only.
    pub open spec fn reserved(
        self,
        size: u64,
        live: Liveness,
        r: Result<ManagedMemoryHandle, IoError>,
        after: MemoryView,
    ) -> bool {
        match self.plan(size, live) {
            Plan::Serve { pool, spot } => {
                &&& r == Ok::<ManagedMemoryHandle, IoError>(
                    self.pools[pool].table[spot.page]->0.slices[spot.first].handle,
                )
                &&& !self.pools[pool].table[spot.page]->0.slices[spot.first].handle.read_only()
                &&& exists|spare: ManagedMemoryHandle|
                    after == #[trigger] self.with_served(pool, spot, size, spare) && self.next_id
                        <= spare.id() && !spare.read_only()
            },
            Plan::Grow { pool } => match r {
                Ok(handle) => exists|storage: StorageHandle, spare: ManagedMemoryHandle|
                    {
                        &&& storage.offset == 0
                        &&& storage.size == self.pools[pool].page_bytes(size)
                        &&& !self.allocated.contains(storage.id)
                        &&& self.next_id <= handle.id()
                        &&& self.next_id <= spare.id()
                        &&& !handle.read_only()
                        &&& !spare.read_only()
                        &&& self.ids_left() ==> handle.id() != spare.id()
                        &&& after == (MemoryView {
                            allocated: self.allocated.insert(storage.id),
                            ..(#[trigger] self.with_miss(size).with_grown(
                                pool,
                                storage,
                                size,
                                handle,
                                spare,
                            ))
                        })
                    },
                Err(_) => after == self.with_miss(size).with_next(after.next_id) && self.next_id
                    <= after.next_id,
            },
            Plan::TooBig => {
                &&& r == Err::<ManagedMemoryHandle, IoError>(IoError::BufferTooBig { size })
                &&& after == self.with_miss(size).with_next(after.next_id)
                &&& self.next_id <= after.next_id
            },
        }
    }

    /// Whether a handle holds a slice of so many bytes on the page of a location.
    pub open spec fn placed(
        self,
        size: u64,
        handle: ManagedMemoryHandle,
        location: MemoryLocation,
    ) -> bool {
        let k = self.pool_of(location.pool);
        let p = location.page as int;
        &&& location.init != 0
        &&& 0 <= k < self.pools.len()
        &&& p < self.pools[k].table.len()
        &&& self.pools[k].table[p] is Some
        &&& exists|i: int|
            0 <= i < self.pools[k].table[p]->0.slices.len() && (
            #[trigger] self.pools[k].table[p]->0.slices[i]).handle == handle
                && self.pools[k].table[p]->0.slices[i].storage.size == size
    }

    /// Which pool a location byte means. A byte past the arena's means the persistent
    /// pool too.
    pub open spec fn pool_of(self, byte: u8) -> int {
        if byte == self.arena_at() {
            self.arena_at()
        } else if byte >= self.dynamic() {
            self.persistent_at()
        } else {
            byte as int
        }
    }

    /// Whether some slice of pool `k` is a handle's.
    pub open spec fn held_by(self, k: int, id: usize) -> bool {
        table_holds(self.pools[k].table, id)
    }

    /// Whether some pool beside the arena holds a handle.
    pub open spec fn held_elsewhere(self, id: usize) -> bool {
        exists|k: int| 0 <= k < self.arena_at() && #[trigger] self.held_by(k, id)
    }

    /// Whether a handle's memory is the arena's. The pools know it of a handle that the arena
    /// holds and no other pool, or the other way round. Of any other handle it is what the
    /// location says that it was last placed at.
    pub open spec fn arena_has(self, id: usize, location: MemoryLocation) -> bool {
        if self.held_by(self.arena_at(), id) != self.held_elsewhere(id) {
            self.held_by(self.arena_at(), id)
        } else {
            location.pool == self.arena_at()
        }
    }

    /// The slice of a handle that was placed at a location.
    pub open spec fn find(self, id: usize, location: MemoryLocation) -> Result<Slice, IoError> {
        find_slice(
            self.pools[self.pool_of(location.pool)].table,
            location.page as int,
            id,
        )
    }

    /// Whether some slice of some pool is a handle's.
    pub open spec fn holds(self, id: usize) -> bool {
        exists|k: int| 0 <= k < self.pools.len() && #[trigger] self.held_by(k, id)
    }

    /// Where a slice of a handle lies: on the first page that has one, of the first pool that
    /// has one.
    pub open spec fn whereabouts(self, id: usize) -> Option<MemoryLocation> {
        match first_where(self.pools.len(), |k: int| self.held_by(k, id)) {
            Some(k) => Some(
                MemoryLocation {
                    pool: k as u8,
                    page: page_with(self.pools[k].table, id)->0 as usize,
                    init: 1,
                },
            ),
            None => None,
        }
    }

    /// Where a handle is looked for that reports a location: there, if it was placed and its
    /// slice is there, and else where the pools have a slice of it, if they do.
    pub open spec fn sought(self, id: usize, location: MemoryLocation) -> MemoryLocation {
        if location.init != 0 && self.find(id, location) is Ok {
            location
        } else {
            match self.whereabouts(id) {
                Some(place) => place,
                None => location,
            }
        }
    }

    /// Whether a slice is a handle's.
    pub open spec fn slice_of(self, id: usize, slice: Slice) -> bool {
        &&& slice.handle.id() == id
        &&& exists|k: int, p: int, i: int|
            has_slice(self, k, p, i) && (#[trigger] self.pools[k].table[p]->0.slices[i]) == slice
    }

    /// Whether this is the storage of a handle, wherever the handle says that it is: what was
    /// registered for it, or that of its slice. There is none exactly if there is neither.
    pub open spec fn stored(self, id: usize, r: Result<StorageHandle, IoError>) -> bool {
        if self.external.contains_key(id) {
            r == Ok::<StorageHandle, IoError>(self.external[id])
        } else if self.holds(id) {
            r matches Ok(storage) && exists|slice: Slice| #[trigger]
                self.slice_of(id, slice) && slice.storage == storage
        } else {
            r is Err
        }
    }

    /// The storage of a handle: what was registered for it, or its slice's.
    pub open spec fn storage_of(self, id: usize, location: MemoryLocation) -> Result<
        StorageHandle,
        IoError,
    > {
        if self.external.contains_key(id) {
            Ok(self.external[id])
        } else {
            match self.find(id, location) {
                Ok(slice) => Ok(slice.storage),
                Err(error) => Err(error),
            }
        }
    }

    /// The cursor of a handle. Registered storage is never written, so there is no
    /// operation to wait for.
    pub open spec fn cursor_of(self, id: usize, location: MemoryLocation) -> Result<u64, IoError> {
        if self.external.contains_key(id) {
            Ok(0)
        } else {
            match self.find(id, location) {
                Ok(slice) => Ok(slice.cursor),
                Err(error) => Err(error),
            }
        }
    }

    /// After the slice of a handle was given to another handle.
    pub open spec fn bound(
        self,
        id: usize,
        location: MemoryLocation,
        assigned: ManagedMemoryHandle,
        cursor: u64,
    ) -> MemoryView {
        let k = self.pool_of(location.pool);
        MemoryView {
            pools: self.pools.update(
                k,
                PoolView {
                    table: rebound(
                        self.pools[k].table,
                        location.page as int,
                        id,
                        assigned,
                        cursor,
                    ),
                    ..self.pools[k]
                },
            ),
            next_id: if self.find(id, location) is Ok {
                past(self.next_id, assigned.id())
            } else {
                self.next_id
            },
            ..self
        }
    }

    /// After a cleanup, which leaves the arena alone.
    pub open spec fn cleaned(self, live: Liveness, explicit: bool) -> MemoryView {
        self.cleaned_where(live, explicit, Set::new(|k: int| 0 <= k < self.arena_at()))
    }

    /// After the pools in `which` were cleaned up.
    pub open spec fn cleaned_where(
        self,
        live: Liveness,
        explicit: bool,
        which: Set<int>,
    ) -> MemoryView {
        let pools = Seq::new(
            self.pools.len(),
            |k: int|
                if which.contains(k) {
                    self.pools[k].cleaned(live[k], self.reserve_count, explicit)
                } else {
                    self.pools[k]
                },
        );
        MemoryView {
            pools,
            allocated: Set::new(
                |id: usize|
                    self.allocated.contains(id) && !exists|k: int|
                        0 <= k < self.pools.len() && #[trigger] self.owned_by(k, id) && !table_owns(
                            pools[k].table,
                            id,
                        ),
            ),
            ..self
        }
    }

    /// What the first `n` pools count for.
    pub open spec fn usage_upto(self, live: Liveness, n: nat) -> Usage
        decreases n,
    {
        if n == 0 {
            no_usage()
        } else {
            self.usage_upto(live, (n - 1) as nat).plus(
                table_usage(self.pools[n - 1].table, live[n - 1]),
            )
        }
    }

    /// The flags of a memory management with every slice in use.
    pub open spec fn all_in_use(self) -> Liveness {
        Seq::new(self.pools.len(), |k: int| none_free(self.pools[k].table))
    }

    /// What all pools count for with every slice in use.
    pub open spec fn capacity(self) -> Usage {
        self.usage(self.all_in_use())
    }

    /// What all pools count for.
    pub open spec fn usage(self, live: Liveness) -> Usage {
        self.usage_upto(live, self.pools.len())
    }
}

/// The invariant holds of a memory management that has another pool `k`, as long as that
/// pool's pages are those it had or allocations that no pool had.
pub proof fn lemma_replace(m: MemoryView, k: int, after: MemoryView)
    requires
        m.wf(),
        0 <= k < m.pools.len(),
        after.pools == m.pools.update(k, after.pools[k]),
        after.pools[k].wf(),
        after.pools[k].position == m.pools[k].position,
        after.pools[k].rules == m.pools[k].rules,
        forall|id: usize| #[trigger]
            after.owned_by(k, id) ==> after.allocated.contains(id) && (m.owned_by(k, id)
                || !m.allocated.contains(id)),
        forall|j: int, id: usize|
            0 <= j < m.pools.len() && j != k && #[trigger] m.owned_by(j, id)
                ==> after.allocated.contains(id),
        after.external == m.external,
        forall|id: usize| #[trigger]
            m.outside(id) ==> after.allocated.contains(id),
        m.next_id <= after.next_id,
        table_below(after.pools[k].table, after.next_id),
    ensures
        after.wf(),
        m.external_wf() ==> after.external_wf(),
{
    assert(after.ids_wf()) by {
        assert forall|j: int| 0 <= j < after.pools.len() implies table_below(
            (#[trigger] after.pools[j]).table,
            after.next_id,
        ) by {
            if j != k {
                assert(after.pools[j] == m.pools[j]);
                assert(table_below(m.pools[j].table, m.next_id));
            }
        }
    }
    assert forall|j: int, id: usize| 0 <= j < m.pools.len() && j != k implies #[trigger] after.owned_by(
        j,
        id,
    ) == m.owned_by(j, id) by {}
    assert(after.shape_wf()) by {
        assert forall|j: int| 0 <= j < after.pools.len() implies (
        #[trigger] after.pools[j]).wf() && after.pools[j].position == j && (
        after.pools[j].rules is Persistent <==> j >= after.dynamic()) by {
            if j != k {
                assert(after.pools[j] == m.pools[j]);
            }
            assert(m.pools[j].position == j);
        }
    }
    assert forall|id: usize| m.external_wf() && #[trigger] after.external.contains_key(
        id,
    ) implies after.outside(after.external[id].id) by {
        let storage = after.external[id].id;
        assert(m.external.contains_key(id));
        assert(m.outside(storage));
        assert forall|j: int| 0 <= j < after.pools.len() implies !(#[trigger] after.owned_by(
            j,
            storage,
        )) by {
            assert(!m.owned_by(j, storage));
        }
    }
}

/// The invariant speaks of the pools and the allocations only.
pub proof fn lemma_same_pools(m: MemoryView, after: MemoryView)
    requires
        m.wf(),
        after.pools == m.pools,
        after.external == m.external,
        forall|id: usize| m.allocated.contains(id) ==> #[trigger] after.allocated.contains(id),
        m.next_id <= after.next_id,
    ensures
        after.wf(),
        m.external_wf() ==> after.external_wf(),
{
    assert(after.ids_wf()) by {
        assert forall|j: int| 0 <= j < after.pools.len() implies table_below(
            (#[trigger] after.pools[j]).table,
            after.next_id,
        ) by {
            assert(table_below(m.pools[j].table, m.next_id));
        }
    }
    assert forall|k: int, id: usize| 0 <= k < m.pools.len() implies #[trigger] after.owned_by(k, id)
        == m.owned_by(k, id) by {}
    assert(after.shape_wf());
    assert forall|id: usize| m.external_wf() && #[trigger] after.external.contains_key(
        id,
    ) implies after.outside(after.external[id].id) by {
        assert(m.external.contains_key(id));
        assert(m.outside(after.external[id].id));
    }
}

/// How a reservation is served does not depend on which ids are known.
pub proof fn lemma_same_plan(m: MemoryView, other: MemoryView, size: u64, live: Liveness)
    requires
        other == m.with_next(other.next_id),
    ensures
        other.plan(size, live) == m.plan(size, live),
        other.with_miss(size) == m.with_miss(size).with_next(other.next_id),
{
    let p = |k: int| m.pools[k].accepts(size);
    let q = |k: int| other.pools[k].accepts(size);
    assert(p =~= q);
}

/// Whether a pool has a slice at a place.
pub open spec fn has_slice(m: MemoryView, k: int, p: int, i: int) -> bool {
    &&& 0 <= k < m.pools.len()
    &&& 0 <= p < m.pools[k].table.len()
    &&& m.pools[k].table[p] is Some
    &&& 0 <= i < m.pools[k].table[p]->0.slices.len()
}

/// A slice that is found at a location is one of the handle's.
pub proof fn lemma_found_is_slice(m: MemoryView, id: usize, location: MemoryLocation)
    requires
        m.wf(),
        m.find(id, location) is Ok,
    ensures
        m.slice_of(id, m.find(id, location)->Ok_0),
        m.holds(id),
{
    let k = m.pool_of(location.pool);
    let p = location.page as int;
    let slices = m.pools[k].table[p]->0.slices;
    lemma_first_from(0, slices.len() as int, |n: int| slices[n].handle.id() == id);
    let i = slice_of(slices, id)->0;
    assert(has_slice(m, k, p, i));
    assert(m.pools[k].table[p]->0.slices[i] == m.find(id, location)->Ok_0);
    assert(m.held_by(k, id));
}

/// What is looked for is found exactly if some pool has it.
pub proof fn lemma_sought(m: MemoryView, id: usize, location: MemoryLocation)
    requires
        m.wf(),
        m.whereabouts(id) matches Some(place) ==> m.find(id, place) is Ok,
        m.whereabouts(id) is Some <==> m.holds(id),
    ensures
        m.find(id, m.sought(id, location)) is Ok <==> m.holds(id),
        m.holds(id) ==> m.sought(id, location).init != 0 && m.slice_of(
            id,
            m.find(id, m.sought(id, location))->Ok_0,
        ),
{
    if m.find(id, m.sought(id, location)) is Ok {
        lemma_found_is_slice(m, id, m.sought(id, location));
    }
}

/// Taking up a spot of a pool changes none of its allocations.
pub proof fn lemma_taken_owns(
    pool: PoolView,
    spot: Spot,
    size: u64,
    now: u64,
    spare: ManagedMemoryHandle,
    id: usize,
)
    requires
        0 <= spot.page < pool.table.len(),
        pool.table[spot.page] is Some,
    ensures
        table_owns(pool.with_taken(spot, size, now, spare).table, id) == table_owns(pool.table, id),
{
    let after = pool.with_taken(spot, size, now, spare).table;
    if table_owns(pool.table, id) {
        let i = choose|i: int|
            0 <= i < pool.table.len() && (#[trigger] pool.table[i]) is Some
                && pool.table[i]->0.storage == id;
        assert(after[i] is Some && after[i]->0.storage == id);
    }
    if table_owns(after, id) {
        let i = choose|i: int|
            0 <= i < after.len() && (#[trigger] after[i]) is Some && after[i]->0.storage == id;
        assert(pool.table[i] is Some && pool.table[i]->0.storage == id);
    }
}

/// A pool that gets a page has one more allocation.
pub proof fn lemma_grown_owns(
    pool: PoolView,
    storage: StorageHandle,
    size: u64,
    now: u64,
    handle: ManagedMemoryHandle,
    spare: ManagedMemoryHandle,
    id: usize,
)
    ensures
        table_owns(pool.with_grown(storage, size, now, handle, spare).table, id) == (table_owns(
            pool.table,
            id,
        ) || id == storage.id),
{
    let after = pool.with_grown(storage, size, now, handle, spare).table;
    lemma_first_from(0, pool.table.len() as int, |i: int| pool.table[i] is None);
    let v = vacant(pool.table);
    assert(after[v] is Some && after[v]->0.storage == storage.id);
    if table_owns(pool.table, id) {
        let i = choose|i: int|
            0 <= i < pool.table.len() && (#[trigger] pool.table[i]) is Some
                && pool.table[i]->0.storage == id;
        assert(i != v);
        assert(after[i] is Some && after[i]->0.storage == id);
    }
    if table_owns(after, id) {
        let i = choose|i: int|
            0 <= i < after.len() && (#[trigger] after[i]) is Some && after[i]->0.storage == id;
        if i != v {
            assert(pool.table[i] is Some && pool.table[i]->0.storage == id);
        }
    }
}

/// Taking up a spot brings no id to a pool but the one of the spare handle.
pub proof fn lemma_taken_below(
    pool: PoolView,
    free: Seq<Seq<bool>>,
    size: u64,
    now: u64,
    spare: ManagedMemoryHandle,
    next: usize,
)
    requires
        pool.wf(),
        shaped(pool.table, free),
        pool.spot(free, size) is Some,
        table_below(pool.table, next),
    ensures
        table_below(
            pool.with_taken(pool.spot(free, size)->0, size, now, spare).table,
            past(next, spare.id()),
        ),
{
    let spot = pool.spot(free, size)->0;
    lemma_spot(pool, free, size);
    let after = pool.with_taken(spot, size, now, spare).table;
    let was = pool.table[spot.page]->0.slices;
    assert forall|p: int, i: int|
        #![trigger after[p]->0.slices[i]]
        0 <= p < after.len() && after[p] is Some && 0 <= i
            < after[p]->0.slices.len() implies below(
        after[p]->0.slices[i].handle.id(),
        past(next, spare.id()),
    ) by {
        if p != spot.page {
            let same = pool.table[p]->0.slices[i];
        } else {
            let is = after[p]->0.slices;
            let shift = is.len() - was.len();
            let head = pool.table[p]->0.slices[spot.first];
            let last = pool.table[p]->0.slices[spot.last];
            if i < spot.first {
                let same = pool.table[p]->0.slices[i];
                assert(is[i] == same);
            } else if i == spot.first {
                assert(is[i].handle == head.handle);
            } else if i - shift > spot.last {
                let same = pool.table[p]->0.slices[i - shift];
                assert(is[i] == same);
            } else {
                assert(i == spot.first + 1);
            }
        }
    }
}

/// A new page brings no id to a pool but those of its handles.
pub proof fn lemma_grown_below(
    pool: PoolView,
    storage: StorageHandle,
    size: u64,
    now: u64,
    handle: ManagedMemoryHandle,
    spare: ManagedMemoryHandle,
    next: usize,
)
    requires
        table_below(pool.table, next),
    ensures
        table_below(
            pool.with_grown(storage, size, now, handle, spare).table,
            past(past(next, handle.id()), spare.id()),
        ),
{
    let after = pool.with_grown(storage, size, now, handle, spare).table;
    lemma_first_from(0, pool.table.len() as int, |i: int| pool.table[i] is None);
    let v = vacant(pool.table);
    assert forall|p: int, i: int|
        #![trigger after[p]->0.slices[i]]
        0 <= p < after.len() && after[p] is Some && 0 <= i
            < after[p]->0.slices.len() implies below(
        after[p]->0.slices[i].handle.id(),
        past(past(next, handle.id()), spare.id()),
    ) by {
        if p != v {
            assert(after[p] == pool.table[p]);
            let same = pool.table[p]->0.slices[i];
        }
    }
}

/// Giving a slice to another handle brings no id to a pool but that handle's.
pub proof fn lemma_rebound_below(
    pool: PoolView,
    page: int,
    id: usize,
    assigned: ManagedMemoryHandle,
    cursor: u64,
    next: usize,
)
    requires
        0 <= page,
        table_below(pool.table, next),
    ensures
        table_below(rebound(pool.table, page, id, assigned, cursor), past(next, assigned.id())),
        find_slice(pool.table, page, id) is Err ==> rebound(
            pool.table,
            page,
            id,
            assigned,
            cursor,
        ) == pool.table,
{
    let after = rebound(pool.table, page, id, assigned, cursor);
    let slices = pool.table[page]->0.slices;
    lemma_first_from(0, slices.len() as int, |k: int| slices[k].handle.id() == id);
    assert forall|p: int, i: int|
        #![trigger after[p]->0.slices[i]]
        0 <= p < after.len() && after[p] is Some && 0 <= i
            < after[p]->0.slices.len() implies below(
        after[p]->0.slices[i].handle.id(),
        past(next, assigned.id()),
    ) by {
        let same = pool.table[p]->0.slices[i];
    }
}

/// Cleaning a pool up brings no id to it.
pub proof fn lemma_cleaned_below(
    pool: PoolView,
    free: Seq<Seq<bool>>,
    now: u64,
    explicit: bool,
    next: usize,
)
    requires
        table_below(pool.table, next),
    ensures
        table_below(pool.cleaned(free, now, explicit).table, next),
{
    let after = pool.cleaned(free, now, explicit).table;
    assert forall|p: int, i: int|
        #![trigger after[p]->0.slices[i]]
        0 <= p < after.len() && after[p] is Some && 0 <= i
            < after[p]->0.slices.len() implies below(after[p]->0.slices[i].handle.id(), next) by {
        let same = pool.table[p]->0.slices[i];
    }
}

/// Giving a slice to another handle changes no allocation.
pub proof fn lemma_rebound_owns(
    pool: PoolView,
    page: int,
    handle: usize,
    assigned: ManagedMemoryHandle,
    cursor: u64,
    id: usize,
)
    requires
        0 <= page,
    ensures
        table_owns(rebound(pool.table, page, handle, assigned, cursor), id) == table_owns(
            pool.table,
            id,
        ),
{
    let after = rebound(pool.table, page, handle, assigned, cursor);
    if table_owns(pool.table, id) {
        let i = choose|i: int|
            0 <= i < pool.table.len() && (#[trigger] pool.table[i]) is Some
                && pool.table[i]->0.storage == id;
        assert(after[i] is Some && after[i]->0.storage == id);
    }
    if table_owns(after, id) {
        let i = choose|i: int|
            0 <= i < after.len() && (#[trigger] after[i]) is Some && after[i]->0.storage == id;
        assert(pool.table[i] is Some && pool.table[i]->0.storage == id);
    }
}

/// Cleaning a pool up adds no allocation.
pub proof fn lemma_cleaned_owns(
    pool: PoolView,
    free: Seq<Seq<bool>>,
    now: u64,
    explicit: bool,
    id: usize,
)
    ensures
        table_owns(pool.cleaned(free, now, explicit).table, id) ==> table_owns(pool.table, id),
{
    let after = pool.cleaned(free, now, explicit).table;
    if table_owns(after, id) {
        let i = choose|i: int|
            0 <= i < after.len() && (#[trigger] after[i]) is Some && after[i]->0.storage == id;
        assert(pool.table[i] is Some && pool.table[i]->0.storage == id);
    }
}

/// More pools never count for less.
pub proof fn lemma_usage_grows(m: MemoryView, live: Liveness, i: nat, n: nat)
    requires
        i <= n,
    ensures
        m.usage_upto(live, i).within(m.usage_upto(live, n)),
    decreases n,
{
    if n > 0 {
        lemma_table_usage_nonnegative(m.pools[n - 1].table, live[n - 1]);
        if i < n {
            lemma_usage_grows(m, live, i, (n - 1) as nat);
        } else {
            lemma_usage_grows(m, live, (n - 1) as nat, (n - 1) as nat);
        }
    }
}

/// The pools never count for more than with every slice in use.
pub proof fn lemma_usage_in_capacity(m: MemoryView, live: Liveness, n: nat)
    requires
        n <= m.pools.len(),
    ensures
        m.usage_upto(live, n).within(m.usage_upto(m.all_in_use(), n)),
    decreases n,
{
    if n > 0 {
        lemma_usage_in_capacity(m, live, (n - 1) as nat);
        lemma_usage_within_capacity(m.pools[n - 1].table, live[n - 1]);
    }
}

} // verus!
