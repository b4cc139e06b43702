//! The memory management of a device: pools over a storage.

use vstd::prelude::*;

use crate::first::{first_where, lemma_first_from, lemma_first_is, lemma_first_none};
use crate::fnv::{fnv_round, fold, FNV_OFFSET, SIGNATURE_MULTIPLIER};
use crate::memory::align::{lemma_aligned_up, padding};
use crate::memory::error::{IoError, Missing};
use crate::memory::external::{external_entries, ExternalMap};
use crate::memory::handle::{HandleIds, ManagedMemoryBinding, ManagedMemoryHandle, MemoryLocation};
use crate::memory::memory_pool::{empty_pool, MemoryPool};
use crate::memory::model::{
    lemma_cleaned_below, lemma_cleaned_owns, lemma_found_is_slice, lemma_grown_below, lemma_grown_owns,
    lemma_rebound_below, lemma_rebound_owns, lemma_replace, lemma_same_plan, lemma_same_pools,
    lemma_sought, lemma_taken_below, lemma_taken_owns, lemma_usage_grows, lemma_usage_in_capacity, lives, past,
    table_below, Liveness, MemoryView, Plan,
};
use crate::memory::options::{
    initial_mode, lemma_pyramid, options_of, pool_options_for, pool_rules, rules_for, splits_end,
    starting_mode, MemoryAllocationMode, MemoryAllocationOption, MemoryConfiguration,
    MemoryDeviceProperties, MemoryManagementOptions, MemoryPoolOptions, PersistentMemory, PoolType,
    SPLIT_LIMIT,
};
use crate::memory::page::{flags, lemma_page_with, offered, shaped, table_owns, vacant, Slice};
use crate::memory::pool::{lemma_spot, PoolRules, PoolView};
use crate::memory::storage::{narrow, narrowed, ComputeStorage, StorageHandle};
use crate::memory::usage::{
    lemma_table_usage_nonnegative, lemma_usage_within_capacity, slices_in, table_capacity,
    table_usage, MemoryUsage,
};

verus! {

/// Reserves and keeps track of chunks of memory in the storage, and slices upon these
/// chunks.
pub struct MemoryManagement<Storage: ComputeStorage> {
    name: String,
    /// The pools that serve ordinary reservations, then the persistent pool, then the
    /// arena. The position of a pool is the byte that its slices' locations carry.
    pools: Vec<MemoryPool>,
    /// While true, every reservation is served from the arena and none from any other
    /// pool.
    arena_active: bool,
    arena_generation: u64,
    arena_served: u64,
    arena_misses: u64,
    /// Every size the arena has served since it was last opened, in order. This is the
    /// identity of a captured region as far as the arena is concerned: the same region
    /// issues the same requests.
    arena_sizes: Vec<u64>,
    storage: Storage,
    alloc_reserve_count: u64,
    mode: MemoryAllocationMode,
    config: PersistentMemory,
    /// Whether the mode was provided, and stays what it is.
    forced: bool,
    /// Storage that was registered, by handle id. It bypasses the pools.
    external: ExternalMap,
    ids: HandleIds,
    /// What the id of a new handle is no smaller than. Every id that is known is smaller.
    next_id: usize,
}

/// Ids that are drawn are taken over below this, so that a memory management always has ids of
/// its own left.
pub const ID_LIMIT: usize = usize::MAX / 2;

impl<Storage: ComputeStorage> View for MemoryManagement<Storage> {
    type V = MemoryView;

    closed spec fn view(&self) -> MemoryView {
        MemoryView {
            name: self.name@,
            pools: self.pools@.map_values(|pool: MemoryPool| pool@),
            arena_active: self.arena_active,
            arena_generation: self.arena_generation,
            arena_served: self.arena_served,
            arena_misses: self.arena_misses,
            arena_sizes: self.arena_sizes@,
            reserve_count: self.alloc_reserve_count,
            mode: self.mode,
            config: self.config,
            forced: self.forced,
            external: external_entries(self.external),
            allocated: self.storage.ids(),
            next_id: self.next_id,
        }
    }
}

/// What a reservation comes to before the storage is asked.
pub enum Reservation {
    /// It was served, from a page of a pool.
    Served { handle: ManagedMemoryHandle, pool: usize, page: usize },
    /// It needs a page of so many bytes.
    Grow { pool: usize, bytes: u64 },
    /// No pool takes it.
    TooBig,
}

/// The handle of a reservation, without its place.
pub open spec fn handle_of(r: Result<(ManagedMemoryHandle, MemoryLocation), IoError>) -> Result<
    ManagedMemoryHandle,
    IoError,
> {
    match r {
        Ok((handle, _)) => Ok(handle),
        Err(error) => Err(error),
    }
}

/// Whether a reservation that needed a page failed as the storage refuses such a page.
pub open spec fn refused_by<Storage: ComputeStorage>(
    storage: Storage,
    m: MemoryView,
    size: u64,
    live: Liveness,
    r: Result<ManagedMemoryHandle, IoError>,
) -> bool {
    match (m.plan(size, live), r) {
        (Plan::Grow { pool }, Err(error)) => storage.refuses(
            m.pools[pool].page_bytes(size) as u64,
            error,
        ),
        _ => true,
    }
}

/// Whether `after` is what a pool that got one more page leaves, under ids that were not
/// known. Neither handle is read only.
pub open spec fn grown(
    m: MemoryView,
    pool: int,
    storage: StorageHandle,
    size: u64,
    handle: ManagedMemoryHandle,
    name: ManagedMemoryHandle,
    after: MemoryView,
) -> bool {
    &&& storage.offset == 0
    &&& storage.size == m.pools[pool].page_bytes(size)
    &&& !m.allocated.contains(storage.id)
    &&& m.next_id <= handle.id()
    &&& m.next_id <= name.id()
    &&& !handle.read_only()
    &&& !name.read_only()
    &&& m.next_id <= usize::MAX - 3 ==> handle.id() != name.id()
    &&& after == (MemoryView {
        allocated: m.allocated.insert(storage.id),
        ..m.with_grown(pool, storage, size, handle, name)
    })
}

/// A reservation that a pool serves is the same, whether the spare handle was known before
/// or not.
proof fn lemma_served_named(
    m: MemoryView,
    size: u64,
    live: Liveness,
    spare: ManagedMemoryHandle,
    page: usize,
    after: MemoryView,
)
    requires
        m.wf(),
        m.shaped(live),
        m.offers(live),
        !spare.read_only(),
        m.plan(size, live) is Serve,
        m.plan(size, live)->spot.page == page,
        0 <= m.plan(size, live)->Serve_pool < m.pools.len(),
        m.next_id <= spare.id(),
        after == m.with_next(past(m.next_id, spare.id())).with_served(
            m.plan(size, live)->Serve_pool,
            m.plan(size, live)->spot,
            size,
            spare,
        ),
    ensures
        m.reserved(
            size,
            live,
            Ok(
                m.pools[m.plan(size, live)->Serve_pool].table[m.plan(
                    size,
                    live,
                )->spot.page]->0.slices[m.plan(size, live)->spot.first].handle,
            ),
            after,
        ),
        after.placed(
            size,
            m.pools[m.plan(size, live)->Serve_pool].table[m.plan(
                size,
                live,
            )->spot.page]->0.slices[m.plan(size, live)->spot.first].handle,
            m.planned(size, live),
        ),
{
    let pool = m.plan(size, live)->Serve_pool;
    let spot = m.plan(size, live)->spot;
    assert(after =~= m.with_served(pool, spot, size, spare));
    assert(shaped(m.pools[pool].table, live[pool]));
    assert(offered(m.pools[pool].table, live[pool]));
    lemma_spot(m.pools[pool], live[pool], size);
    assert(live[pool][spot.page][spot.first]);
    let handle = m.pools[pool].table[spot.page]->0.slices[spot.first].handle;
    let slice = after.pools[pool].table[spot.page]->0.slices[spot.first];
    assert(slice.handle == handle && slice.storage.size == size);
}

/// A reservation that a pool grows for is the same, whether another handle was known before
/// or not.
proof fn lemma_grown_named(
    m: MemoryView,
    missed: MemoryView,
    size: u64,
    live: Liveness,
    handle: ManagedMemoryHandle,
    after: MemoryView,
)
    requires
        m.plan(size, live) is Grow,
        missed == m.with_miss(size).with_next(missed.next_id),
        m.next_id <= missed.next_id,
        missed.next_id <= ID_LIMIT || missed.next_id <= m.next_id + 1,
        exists|storage: StorageHandle, name: ManagedMemoryHandle| #[trigger]
            grown(missed, m.plan(size, live)->Grow_pool, storage, size, handle, name, after),
    ensures
        m.reserved(size, live, Ok(handle), after),
{
    let pool = m.plan(size, live)->Grow_pool;
    let (storage, name) = choose|storage: StorageHandle, name: ManagedMemoryHandle| #[trigger]
        grown(missed, pool, storage, size, handle, name, after);
    let same = m.with_miss(size).with_grown(pool, storage, size, handle, name);
    assert(after =~= MemoryView { allocated: m.allocated.insert(storage.id), ..same });
}

/// Whether giving the slice of a handle at a location to another handle comes to this.
pub open spec fn bound_at(
    m: MemoryView,
    id: usize,
    location: MemoryLocation,
    assigned: ManagedMemoryHandle,
    cursor: u64,
    r: Result<(), IoError>,
    after: MemoryView,
) -> bool {
    if location.init == 0 {
        &&& r == Err::<(), IoError>(IoError::NotFound { reason: Missing::Uninitialized })
        &&& after == m
    } else {
        &&& after == m.bound(id, location, assigned, cursor)
        &&& match m.find(id, location) {
            Ok(_) => r is Ok,
            Err(error) => r == Err::<(), IoError>(error),
        }
    }
}

/// Whether this is the storage of a handle, wherever the handle says that it is: that of the
/// slice at the place that it reports, if it has one there.
pub open spec fn sought_storage(
    m: MemoryView,
    id: usize,
    r: Result<StorageHandle, IoError>,
) -> bool {
    &&& m.stored(id, r)
    &&& exists|location: MemoryLocation| #[trigger]
        location.reported() && r == m.storage_of(id, m.sought(id, location))
}

/// Whether this is the cursor of a handle, wherever the handle says that it is: that of the
/// slice at the place that it reports, if it has one there. There is none exactly if there is
/// neither a slice nor registered memory.
pub open spec fn sought_cursor(m: MemoryView, id: usize, r: Result<u64, IoError>) -> bool {
    &&& r is Ok <==> m.external.contains_key(id) || m.holds(id)
    &&& exists|location: MemoryLocation| #[trigger]
        location.reported() && r == m.cursor_of(id, m.sought(id, location))
}

/// Whether a range of a handle's memory is this, on a memory over this storage.
pub open spec fn resolves_from<Storage: ComputeStorage>(
    m: MemoryView,
    storage: Storage,
    id: usize,
    offset_start: Option<u64>,
    offset_end: Option<u64>,
    r: Result<Storage::Resource, IoError>,
) -> bool {
    exists|found: Result<StorageHandle, IoError>|
        {
            &&& #[trigger] sought_storage(m, id, found)
            &&& match found {
                Ok(handle) => match narrowed(handle, offset_start, offset_end) {
                    Some(range) => r matches Ok(resource) && storage.resolves(range, resource),
                    None => r == Err::<Storage::Resource, IoError>(IoError::InvalidHandle),
                },
                Err(error) => r == Err::<Storage::Resource, IoError>(error),
            }
        }
}

/// Whether giving the slice of a handle to another handle comes to this, wherever the handle
/// says that it is. It succeeds exactly if there is such a slice.
pub open spec fn rebinds(
    m: MemoryView,
    id: usize,
    assigned: ManagedMemoryHandle,
    cursor: u64,
    r: Result<(), IoError>,
    after: MemoryView,
) -> bool {
    &&& r is Ok <==> m.holds(id)
    &&& exists|location: MemoryLocation| #[trigger]
        location.reported() && bound_at(
            m,
            id,
            m.sought(id, location),
            assigned,
            cursor,
            r,
            after,
        )
}

/// Whether a handle holds a slice of so many bytes at a location, and a resource is what
/// exactly that slice looks like.
pub open spec fn holds_at<Storage: ComputeStorage>(
    memory: MemoryManagement<Storage>,
    size: u64,
    handle: ManagedMemoryHandle,
    location: MemoryLocation,
    resource: Storage::Resource,
) -> bool {
    &&& memory@.placed(size, handle, location)
    &&& memory@.storage_of(handle.id(), location) matches Ok(storage)
    &&& memory.held().resolves(storage, resource)
}

/// The pools that options make, in order.
pub open spec fn pools_for(options: Seq<MemoryPoolOptions>, properties: MemoryDeviceProperties) -> Seq<
    PoolView,
> {
    let n = options.len();
    let alignment = properties.alignment;
    Seq::new(
        n,
        |i: int| empty_pool(rules_for(options[i]), alignment, i as u8),
    ).push(
        empty_pool(
            PoolRules::Persistent { max_alloc_size: properties.max_page_size },
            alignment,
            n as u8,
        ),
    ).push(
        empty_pool(PoolRules::Persistent { max_alloc_size: u64::MAX }, alignment, (n + 1) as u8),
    )
}

/// A memory management without pages.
pub open spec fn fresh(
    name: Seq<char>,
    pools: Seq<PoolView>,
    mode: MemoryAllocationMode,
    config: PersistentMemory,
    forced: bool,
    allocated: Set<usize>,
) -> MemoryView {
    MemoryView {
        name,
        pools,
        arena_active: false,
        arena_generation: 0,
        arena_served: 0,
        arena_misses: 0,
        arena_sizes: Seq::empty(),
        reserve_count: 0,
        mode,
        config,
        forced,
        external: Map::empty(),
        allocated,
        next_id: 0,
    }
}

/// Whether a memory management can be made of a configuration: the alignment is not zero,
/// every page size is a size that fits once it is aligned, and a byte can number the
/// pools.
pub open spec fn configurable(
    config: MemoryConfiguration,
    properties: MemoryDeviceProperties,
) -> bool {
    let alignment = properties.alignment;
    &&& 0 < alignment
    &&& match config {
        MemoryConfiguration::SubSlices => splits_end(
            properties.max_page_size as int,
            alignment as int,
        ),
        _ => {
            let options = pool_options_for(config, properties);
            &&& options.len() <= 254
            &&& forall|i: int|
                0 <= i < options.len() ==> empty_pool(
                    rules_for(#[trigger] options[i]),
                    alignment,
                    0,
                ).rules_wf()
        },
    }
}

/// Whether a memory management can be made of a configuration.
pub fn can_configure(config: &MemoryConfiguration, properties: &MemoryDeviceProperties) -> (r: bool)
    ensures
        r == configurable(*config, *properties),
{
    let alignment: u64 = properties.alignment;
    if alignment == 0 {
        return false;
    }
    let ghost options = pool_options_for(*config, *properties);
    match config {
        MemoryConfiguration::SubSlices => properties.max_page_size < SPLIT_LIMIT || alignment
            < SPLIT_LIMIT,
        MemoryConfiguration::ExclusivePages { buckets } => {
            let mut i: usize = 0;
            while i < buckets.len()
                invariant
                    i <= buckets.len(),
                    0 < alignment,
                    options == pool_options_for(*config, *properties),
                    options.len() == buckets.len(),
                    alignment == properties.alignment,
                    config matches MemoryConfiguration::ExclusivePages { buckets: given } && given
                        == *buckets,
                    forall|k: int|
                        0 <= k < i ==> empty_pool(
                            rules_for(#[trigger] options[k]),
                            alignment,
                            0,
                        ).rules_wf(),
                decreases buckets.len() - i,
            {
                assert(rules_for(options[i as int]) == PoolRules::Exclusive {
                    max_alloc_size: buckets[i as int].size,
                    dealloc_period: buckets[i as int].dealloc_period,
                });
                if padding(buckets[i].size, alignment).is_none() {
                    return false;
                }
                i += 1;
            }
            buckets.len() <= 254
        },
        MemoryConfiguration::Custom { pool_options } => {
            let mut i: usize = 0;
            while i < pool_options.len()
                invariant
                    i <= pool_options.len(),
                    0 < alignment,
                    options == pool_options@,
                    options == pool_options_for(*config, *properties),
                    config is Custom,
                    alignment == properties.alignment,
                    forall|k: int|
                        0 <= k < i ==> empty_pool(
                            rules_for(#[trigger] options[k]),
                            alignment,
                            0,
                        ).rules_wf(),
                decreases pool_options.len() - i,
            {
                let size: u64 = match pool_options[i].pool_type {
                    PoolType::SlicedPages { page_size, .. } => page_size,
                    PoolType::ExclusivePages { max_alloc_size } => max_alloc_size,
                };
                assert(options[i as int] == pool_options[i as int]);
                if padding(size, alignment).is_none() {
                    return false;
                }
                i += 1;
            }
            pool_options.len() <= 254
        },
    }
}

/// Every configurable configuration has pools that a byte can number, with page sizes
/// that fit.
pub proof fn lemma_configurable(config: MemoryConfiguration, properties: MemoryDeviceProperties)
    requires
        configurable(config, properties),
    ensures
        pool_options_for(config, properties).len() <= 254,
        forall|i: int|
            0 <= i < pool_options_for(config, properties).len() ==> empty_pool(
                rules_for(#[trigger] pool_options_for(config, properties)[i]),
                properties.alignment,
                0,
            ).rules_wf(),
{
    if config is SubSlices {
        let page = properties.max_page_size as int;
        let alignment = properties.alignment as int;
        let options = pool_options_for(config, properties);
        lemma_pyramid(page, alignment, 1);
        let middle = crate::memory::options::pyramid(page, alignment, 1);
        assert forall|i: int| 0 <= i < options.len() implies empty_pool(
            rules_for(#[trigger] options[i]),
            properties.alignment,
            0,
        ).rules_wf() by {
            if i == 0 {
                lemma_aligned_up(0, alignment);
            } else if i <= middle.len() {
                assert(options[i] == middle[i - 1]);
                let size = options[i].pool_type->page_size;
                lemma_aligned_up(size as int, alignment);
            } else {
                let size = options[i].pool_type->page_size;
                let q = page / alignment;
                vstd::arithmetic::div_mod::lemma_fundamental_div_mod(page, alignment);
                vstd::arithmetic::div_mod::lemma_mod_bound(page, alignment);
                vstd::arithmetic::mul::lemma_mul_is_commutative(q, alignment);
                vstd::arithmetic::mul::lemma_mul_nonnegative(q, alignment);
                vstd::arithmetic::div_mod::lemma_mod_multiples_basic(q, alignment);
                assert(size == q * alignment);
                lemma_aligned_up(size as int, alignment);
            }
        }
    }
}

impl<Storage: ComputeStorage> MemoryManagement<Storage> {
    /// Creates the pools of a configuration, for a device with these properties.
    /// `persistent` is what the runtime's configuration says of persistent memory, and
    /// `ids` is what handles are numbered from.
    pub fn from_configuration(
        storage: Storage,
        properties: &MemoryDeviceProperties,
        config: MemoryConfiguration,
        persistent: PersistentMemory,
        options: MemoryManagementOptions,
        ids: HandleIds,
    ) -> (r: Self)
        requires
            configurable(config, *properties),
        ensures
            r@.wf(),
            r@ == fresh(
                options.name@,
                pools_for(pool_options_for(config, *properties), *properties),
                initial_mode(options.memory, persistent),
                persistent,
                options.memory is Provided,
                storage.ids(),
            ),
    {
        proof {
            lemma_configurable(config, *properties);
        }
        let ghost wanted = pools_for(pool_options_for(config, *properties), *properties);
        let pool_options: Vec<MemoryPoolOptions> = options_of(config, properties);
        let alignment: u64 = properties.alignment;
        let mut pools: Vec<MemoryPool> = Vec::new();
        let mut i: usize = 0;
        while i < pool_options.len()
            invariant
                i <= pool_options.len() <= 254,
                pools.len() == i,
                alignment == properties.alignment,
                wanted == pools_for(pool_options@, *properties),
                forall|k: int|
                    0 <= k < pool_options.len() ==> empty_pool(
                        rules_for(#[trigger] pool_options@[k]),
                        alignment,
                        0,
                    ).rules_wf(),
                forall|k: int|
                    0 <= k < i ==> (#[trigger] pools@[k])@ == wanted[k] && wanted[k].wf(),
            decreases pool_options.len() - i,
        {
            let rules: PoolRules = pool_rules(pool_options[i]);
            proof {
                assert(empty_pool(rules, alignment, 0).rules_wf());
                assert(empty_pool(rules, alignment, i as u8).page_bytes(0) == empty_pool(
                    rules,
                    alignment,
                    0,
                ).page_bytes(0));
            }
            pools.push(MemoryPool::new(rules, alignment, i as u8));
            i += 1;
        }
        let count: u8 = pool_options.len() as u8;
        pools.push(
            MemoryPool::new(
                PoolRules::Persistent { max_alloc_size: properties.max_page_size },
                alignment,
                count,
            ),
        );
        // The arena accepts any size the storage will accept: a captured region does not
        // get to choose which of its buffers are small.
        pools.push(
            MemoryPool::new(PoolRules::Persistent { max_alloc_size: u64::MAX }, alignment, count + 1),
        );
        let forced: bool = match options.memory {
            MemoryAllocationOption::Provided(_) => true,
            MemoryAllocationOption::FromConfig => false,
        };
        let r = MemoryManagement {
            name: options.name,
            pools,
            arena_active: false,
            arena_generation: 0,
            arena_served: 0,
            arena_misses: 0,
            arena_sizes: Vec::new(),
            storage,
            alloc_reserve_count: 0,
            mode: starting_mode(options.memory, persistent),
            config: persistent,
            forced,
            external: ExternalMap::new(),
            ids,
            next_id: 0,
        };
        proof {
            assert(r@.pools =~= wanted);
            assert(r@ =~= fresh(
                options.name@,
                wanted,
                initial_mode(options.memory, persistent),
                persistent,
                options.memory is Provided,
                storage.ids(),
            ));
            assert forall|k: int, id: usize| 0 <= k < wanted.len() implies !(
            #[trigger] r@.owned_by(k, id)) by {
                assert(wanted[k].table.len() == 0);
            }
            assert forall|k: int| 0 <= k < wanted.len() implies (#[trigger] wanted[k]).wf()
                && wanted[k].position == k && (wanted[k].rules is Persistent <==> k
                >= wanted.len() - 2) by {
                if k < pool_options.len() {
                    assert(pools@[k]@ == wanted[k]);
                }
            }
        }
        r
    }

    /// From now on new ids start past this one.
    fn note(&mut self, id: usize)
        ensures
            final(self)@ == old(self)@.with_next(past(old(self)@.next_id, id)),
            final(self).held() == old(self).held(),
    {
        let ghost m = self@;
        if id >= self.next_id {
            self.next_id = if id < usize::MAX {
                id + 1
            } else {
                id
            };
        }
        assert(self@ =~= m.with_next(past(m.next_id, id)));
    }

    /// A handle under an id that is not known yet: what is drawn, where it can be, and else
    /// the next one.
    fn fresh_handle(&mut self, read_only: bool) -> (r: ManagedMemoryHandle)
        ensures
            r.read_only() == read_only,
            old(self)@.next_id <= r.id(),
            final(self)@ == old(self)@.naming(r.id()),
            final(self)@.next_id <= ID_LIMIT || final(self)@.next_id <= old(self)@.next_id + 1,
            final(self).held() == old(self).held(),
    {
        let drawn: usize = self.ids.draw();
        let id: usize = if self.next_id <= drawn && drawn < ID_LIMIT {
            drawn
        } else {
            self.next_id
        };
        self.note(id);
        ManagedMemoryHandle::with_id(id, read_only)
    }

    /// A handle to be given memory: under an id that is not known yet, and not read only.
    pub fn new_handle(&mut self) -> (r: ManagedMemoryHandle)
        requires
            old(self)@.wf(),
        ensures
            final(self)@.wf(),
            old(self)@.external_wf() ==> final(self)@.external_wf(),
            !r.read_only(),
            old(self)@.next_id <= r.id(),
            final(self)@ == old(self)@.naming(r.id()),
            final(self).held() == old(self).held(),
    {
        let ghost m = self@;
        let handle = self.fresh_handle(false);
        proof {
            lemma_same_pools(m, self@);
        }
        handle
    }

    /// Change the mode of allocation. A mode that the options provided stays what it is, and
    /// the configuration overrides the change too.
    pub fn mode(&mut self, mode: MemoryAllocationMode)
        requires
            old(self)@.wf(),
        ensures
            final(self)@.wf(),
            old(self)@.external_wf() ==> final(self)@.external_wf(),
            final(self)@ == old(self)@.with_mode(mode),
    {
        let ghost m = self@;
        match self.config {
            PersistentMemory::Enabled => {
                if !self.forced {
                    self.mode = mode;
                }
            },
            PersistentMemory::Disabled | PersistentMemory::Enforced => {},
        }
        proof {
            lemma_same_pools(m, self@);
        }
    }

    /// Asks of every slice whether it is free. What the answer is depends on who still
    /// holds a handle.
    pub fn liveness(&self) -> (r: Vec<Vec<Vec<bool>>>)
        ensures
            self@.shaped(lives(r@)),
            self@.offers(lives(r@)),
    {
        let mut r: Vec<Vec<Vec<bool>>> = Vec::new();
        let mut k: usize = 0;
        while k < self.pools.len()
            invariant
                k <= self.pools.len(),
                r.len() == k,
                forall|n: int|
                    0 <= n < k ==> shaped(self@.pools[n].table, flags((#[trigger] r@[n])@))
                        && offered(self@.pools[n].table, flags(r@[n]@)),
            decreases self.pools.len() - k,
        {
            r.push(self.pools[k].liveness());
            k += 1;
        }
        let ghost live = lives(r@);
        assert forall|n: int| 0 <= n < self@.pools.len() implies shaped(
            #[trigger] self@.pools[n].table,
            live[n],
        ) && offered(self@.pools[n].table, live[n]) by {
            assert(live[n] == flags(r@[n]@));
        }
        r
    }

    /// Which pool a reservation goes to.
    fn routed(&self, size: u64, live: &Vec<Vec<Vec<bool>>>) -> (r: Option<usize>)
        requires
            self@.wf(),
            self@.shaped(lives(live@)),
        ensures
            match r {
                Some(k) => k < self@.pools.len() && self@.route(size, lives(live@)) == Some(
                    k as int,
                ),
                None => self@.route(size, lives(live@)) is None,
            },
    {
        let ghost m = self@;
        let ghost l = lives(live@);
        let persistent: usize = self.pools.len() - 2;
        if self.arena_active {
            return Some(self.pools.len() - 1);
        }
        assert(m.pools[persistent as int] == self.pools@[persistent as int]@);
        assert(shaped(m.pools[persistent as int].table, l[persistent as int]));
        assert(l[persistent as int] == flags(live@[persistent as int]@));
        if self.pools[persistent].has_spot(&live[persistent], size) {
            return Some(persistent);
        }
        let enforced: bool = match self.mode {
            MemoryAllocationMode::Persistent => true,
            MemoryAllocationMode::Auto => false,
        };
        if enforced || self.pools[persistent].has_size(size) {
            return Some(persistent);
        }
        let mut k: usize = 0;
        while k < persistent
            invariant
                k <= persistent,
                persistent == self.pools.len() - 2,
                m == self@,
                m.wf(),
                m.route(size, lives(live@)) == first_where(
                    persistent as nat,
                    |n: int| m.pools[n].accepts(size),
                ),
                forall|n: int| 0 <= n < k ==> !(#[trigger] m.pools[n]).accepts(size),
            decreases persistent - k,
        {
            assert(m.pools[k as int] == self.pools@[k as int]@);
            if self.pools[k].accept(size) {
                proof {
                    lemma_first_is(
                        persistent as nat,
                        |n: int| m.pools[n].accepts(size),
                        k as int,
                    );
                }
                return Some(k);
            }
            k += 1;
        }
        proof {
            lemma_first_none(persistent as nat, |n: int| m.pools[n].accepts(size));
        }
        None
    }

    /// Counts a reservation and serves it from the pages there are, given which slices
    /// are free. `spare` names what is left over of a slice.
    pub fn begin_reserve(
        &mut self,
        size: u64,
        live: &Vec<Vec<Vec<bool>>>,
        spare: ManagedMemoryHandle,
    ) -> (r: Reservation)
        requires
            old(self)@.wf(),
            old(self)@.can_count(),
            old(self)@.shaped(lives(live@)),
        ensures
            final(self)@.wf(),
            old(self)@.external_wf() ==> final(self)@.external_wf(),
            final(self).held() == old(self).held(),
            match old(self)@.plan(size, lives(live@)) {
                Plan::Serve { pool, spot } => {
                    &&& r matches Reservation::Served { handle, pool: at, page }
                    &&& handle
                        == old(self)@.pools[pool].table[spot.page]->0.slices[spot.first].handle
                    &&& at == pool
                    &&& page == spot.page
                    &&& 0 <= pool < old(self)@.pools.len()
                    &&& final(self)@ == old(self)@.with_served(pool, spot, size, spare)
                },
                Plan::Grow { pool } => {
                    &&& r matches Reservation::Grow { pool: at, bytes }
                    &&& at == pool
                    &&& 0 <= pool < old(self)@.pools.len()
                    &&& bytes == old(self)@.pools[pool].page_bytes(size)
                    &&& final(self)@ == old(self)@.with_miss(size)
                },
                Plan::TooBig => r is TooBig && final(self)@ == old(self)@.with_miss(size),
            },
    {
        let ghost m = self@;
        let ghost l = lives(live@);
        let spare_id: usize = spare.handle_id();
        let routed: Option<usize> = self.routed(size, live);
        self.alloc_reserve_count = self.alloc_reserve_count + 1;
        if self.arena_active {
            self.arena_served = self.arena_served + 1;
            self.arena_sizes.push(size);
        }
        let now: u64 = self.alloc_reserve_count;
        assert(self@ =~= m.counted(size));
        let k: usize = match routed {
            Some(k) => k,
            None => {
                proof {
                    lemma_same_pools(m, self@);
                }
                return Reservation::TooBig;
            },
        };
        proof {
            assert(shaped(m.pools[k as int].table, l[k as int]));
            assert(l[k as int] == flags(live@[k as int]@));
            lemma_spot(m.pools[k as int], l[k as int], size);
            if m.pools[k as int].spot(l[k as int], size) is Some {
                let spot = m.pools[k as int].spot(l[k as int], size)->0;
                let after = m.with_served(k as int, spot, size, spare);
                crate::memory::pool::lemma_with_taken(m.pools[k as int], l[k as int], size, now, spare);
                assert forall|id: usize| #[trigger]
                    after.owned_by(k as int, id) == m.owned_by(k as int, id) by {
                    lemma_taken_owns(m.pools[k as int], spot, size, now, spare, id);
                }
                assert(table_below(m.pools[k as int].table, m.next_id));
                lemma_taken_below(m.pools[k as int], l[k as int], size, now, spare, m.next_id);
                lemma_replace(m, k as int, after);
            }
        }
        let served: Option<(ManagedMemoryHandle, usize)> = self.pools[k].try_reserve(
            size,
            &live[k],
            now,
            spare,
        );
        match served {
            Some((handle, page)) => {
                self.note(spare_id);
                proof {
                    let spot = m.pools[k as int].spot(l[k as int], size)->0;
                    assert(self@ =~= m.with_served(k as int, spot, size, spare));
                }
                Reservation::Served { handle, pool: k, page }
            },
            None => {
                assert(self@.pools =~= m.pools);
                if self.arena_active {
                    self.arena_misses = self.arena_misses + 1;
                }
                assert(self@ =~= m.with_miss(size));
                proof {
                    lemma_same_pools(m, self@);
                }
                match self.pools[k].bytes_for(size) {
                    Some(bytes) => Reservation::Grow { pool: k, bytes },
                    None => Reservation::TooBig,
                }
            },
        }
    }

    /// Gives a pool the page that the storage allocated for a reservation, or passes the
    /// storage's refusal on. `handle` names the reservation, and `spare` what is left
    /// over of the page. Says at which index the page is.
    pub fn complete_reserve(
        &mut self,
        pool: usize,
        size: u64,
        allocated: Result<StorageHandle, IoError>,
        handle: ManagedMemoryHandle,
        spare: ManagedMemoryHandle,
    ) -> (r: Result<(ManagedMemoryHandle, usize), IoError>)
        requires
            old(self)@.wf(),
            pool < old(self)@.pools.len(),
            old(self)@.pools[pool as int].can_hold(size),
            allocated matches Ok(storage) ==> {
                &&& storage.offset == 0
                &&& storage.size == old(self)@.pools[pool as int].page_bytes(size)
                &&& old(self)@.outside(storage.id)
            },
        ensures
            final(self)@.wf(),
            old(self)@.external_wf() && (allocated matches Ok(storage) ==> forall|id: usize|
                #[trigger]
                old(self)@.external.contains_key(id) ==> old(self)@.external[id].id != storage.id)
                ==> final(self)@.external_wf(),
            match allocated {
                Ok(storage) => {
                    &&& r matches Ok((reserved, page)) && reserved == handle && page == vacant(
                        old(self)@.pools[pool as int].table,
                    )
                    &&& final(self)@ == old(self)@.with_grown(
                        pool as int,
                        storage,
                        size,
                        handle,
                        spare,
                    )
                },
                Err(error) => {
                    &&& r == Err::<(ManagedMemoryHandle, usize), IoError>(error)
                    &&& final(self)@ == old(self)@
                },
            },
    {
        let ghost m = self@;
        let storage: StorageHandle = match allocated {
            Ok(storage) => storage,
            Err(error) => {
                return Err(error);
            },
        };
        let now: u64 = self.alloc_reserve_count;
        let reserved = handle.clone();
        proof {
            let k = pool as int;
            assert(!m.owned_by(k, storage.id));
            crate::memory::pool::lemma_with_grown(m.pools[k], storage, size, now, handle, spare);
            let after = m.with_grown(k, storage, size, handle, spare);
            assert forall|id: usize| #[trigger]
                after.owned_by(k, id) == (m.owned_by(k, id) || id == storage.id) by {
                lemma_grown_owns(m.pools[k], storage, size, now, handle, spare, id);
            }
            // The page is an allocation that no pool had, so the invariant holds of the
            // pools without it as well.
            let less = MemoryView { allocated: m.allocated.remove(storage.id), ..m };
            assert forall|j: int, id: usize| 0 <= j < m.pools.len() implies #[trigger] less.owned_by(
                j,
                id,
            ) == m.owned_by(j, id) by {}
            assert(less.shape_wf());
            assert(less.wf());
            if m.external_wf() && forall|id: usize| #[trigger]
                m.external.contains_key(id) ==> m.external[id].id != storage.id {
                assert forall|id: usize| #[trigger]
                    less.external.contains_key(id) implies less.outside(less.external[id].id) by {
                    assert(m.outside(m.external[id].id));
                }
            }
            assert(table_below(m.pools[k].table, m.next_id));
            lemma_grown_below(m.pools[k], storage, size, now, handle, spare, m.next_id);
            lemma_replace(less, k, after);
        }
        let (handle_id, spare_id): (usize, usize) = (handle.handle_id(), spare.handle_id());
        let page: usize = self.pools[pool].grow(storage, size, now, handle, spare);
        self.note(handle_id);
        self.note(spare_id);
        assert(self@ =~= m.with_grown(pool as int, storage, size, handle, spare));
        Ok((reserved, page))
    }

    /// Finds a spot in memory for a resource with the given size in bytes, and returns a
    /// handle to it. Where it goes depends on which slices are free at the time.
    pub fn reserve(&mut self, size: u64) -> (r: Result<ManagedMemoryHandle, IoError>)
        requires
            old(self)@.wf(),
            old(self)@.can_count(),
        ensures
            final(self)@.wf(),
            old(self)@.external_wf() ==> final(self)@.external_wf(),
            exists|live: Liveness|
                {
                    &&& old(self)@.sees(live)
                    &&& #[trigger] old(self)@.reserved(size, live, r, final(self)@)
                    &&& refused_by(old(self).held(), old(self)@, size, live, r)
                },
            r matches Ok(handle) ==> !handle.read_only(),
    {
        let ghost m = self@;
        let placed = self.reserve_placed(size);
        let ghost live = choose|live: Liveness|
            {
                &&& m.sees(live)
                &&& #[trigger] m.reserved(size, live, handle_of(placed), self@)
                &&& refused_by(old(self).held(), m, size, live, handle_of(placed))
            };
        let r = match placed {
            Ok((handle, _)) => Ok(handle),
            Err(error) => Err(error),
        };
        assert(m.reserved(size, live, r, self@));
        r
    }

    /// Reserves like [`MemoryManagement::reserve`], and says where the slice is.
    pub fn reserve_placed(&mut self, size: u64) -> (r: Result<
        (ManagedMemoryHandle, MemoryLocation),
        IoError,
    >)
        requires
            old(self)@.wf(),
            old(self)@.can_count(),
        ensures
            final(self)@.wf(),
            old(self)@.external_wf() ==> final(self)@.external_wf(),
            exists|live: Liveness|
                {
                    &&& old(self)@.sees(live)
                    &&& #[trigger] old(self)@.reserved(size, live, handle_of(r), final(self)@)
                    &&& refused_by(old(self).held(), old(self)@, size, live, handle_of(r))
                    &&& r matches Ok((_, location)) ==> location == old(self)@.planned(size, live)
                },
            r matches Ok((handle, location)) ==> !handle.read_only() && final(self)@.placed(
                size,
                handle,
                location,
            ),
    {
        let ghost m = self@;
        let live = self.liveness();
        let ghost l = lives(live@);
        let spare = self.fresh_handle(false);
        let ghost named = self@;
        proof {
            lemma_same_pools(m, named);
            lemma_same_plan(m, named, size, l);
        }
        match self.begin_reserve(size, &live, spare) {
            Reservation::Served { handle, pool, page } => {
                proof {
                    lemma_served_named(m, size, l, spare, page, self@);
                }
                Ok((handle, MemoryLocation { pool: pool as u8, page, init: 1 }))
            },
            Reservation::TooBig => {
                let r = Err(IoError::BufferTooBig { size });
                assert(m.reserved(size, l, Err(IoError::BufferTooBig { size }), self@));
                r
            },
            Reservation::Grow { pool, bytes } => {
                let ghost missed = self@;
                assert(missed == m.with_miss(size).with_next(named.next_id));
                match self.grow_placed(pool, bytes, size) {
                    Ok((reserved, page)) => {
                        proof {
                            lemma_grown_named(m, missed, size, l, reserved, self@);
                        }
                        Ok((reserved, MemoryLocation { pool: pool as u8, page, init: 1 }))
                    },
                    Err(error) => {
                        assert(self@ =~= m.with_miss(size).with_next(self@.next_id));
                        assert(m.reserved(size, l, Err(error), self@));
                        Err(error)
                    },
                }
            },
        }
    }

    /// Allocates a page for a reservation that a pool has no room for. Says at which index the
    /// page is.
    fn grow_placed(&mut self, pool: usize, bytes: u64, size: u64) -> (r: Result<
        (ManagedMemoryHandle, usize),
        IoError,
    >)
        requires
            old(self)@.wf(),
            pool < old(self)@.pools.len(),
            old(self)@.pools[pool as int].can_hold(size),
            bytes == old(self)@.pools[pool as int].page_bytes(size),
        ensures
            final(self)@.wf(),
            old(self)@.external_wf() ==> final(self)@.external_wf(),
            match r {
                Ok((handle, page)) => {
                    &&& page == vacant(old(self)@.pools[pool as int].table)
                    &&& exists|storage: StorageHandle, name: ManagedMemoryHandle| #[trigger]
                        grown(
                            old(self)@,
                            pool as int,
                            storage,
                            size,
                            handle,
                            name,
                            final(self)@,
                        )
                    &&& final(self)@.placed(
                        size,
                        handle,
                        MemoryLocation { pool: pool as u8, page, init: 1 },
                    )
                },
                Err(error) => {
                    &&& final(self)@ == old(self)@.with_next(final(self)@.next_id)
                    &&& old(self)@.next_id <= final(self)@.next_id
                    &&& old(self).held().refuses(bytes, error)
                },
            },
    {
        let ghost m = self@;
        let allocated = self.storage.allocate(bytes);
        let ghost asked = self@;
        proof {
            lemma_same_pools(m, asked);
            assert forall|id: usize| m.external_wf() && #[trigger] asked.external.contains_key(
                id,
            ) implies m.allocated.contains(asked.external[id].id) by {
                assert(m.external.contains_key(id));
                assert(m.outside(m.external[id].id));
            }
        }
        let handle = self.fresh_handle(false);
        let name = self.fresh_handle(false);
        let ghost ready = self@;
        proof {
            lemma_same_pools(asked, ready);
            assert forall|k: int, id: usize| 0 <= k < m.pools.len() implies #[trigger] ready.owned_by(
                k,
                id,
            ) == m.owned_by(k, id) by {}
        }
        match self.complete_reserve(pool, size, allocated, handle, name) {
            Ok((reserved, page)) => {
                proof {
                    let storage = allocated->Ok_0;
                    assert(grown(m, pool as int, storage, size, reserved, name, self@));
                    let table = m.pools[pool as int].table;
                    lemma_first_from(0, table.len() as int, |n: int| table[n] is None);
                    let slice = self@.pools[pool as int].table[page as int]->0.slices[0];
                    assert(slice.handle == reserved && slice.storage.size == size);
                }
                Ok((reserved, page))
            },
            Err(error) => Err(error),
        }
    }

    /// Route every subsequent reservation into the capture arena, and return the
    /// generation this opening is.
    ///
    /// A captured graph records addresses. Reservations inside the region reuse what
    /// died inside it; nothing outside a capture is given a slice of the arena; and
    /// opening it again frees and resets nothing, so that the same requests against the
    /// same free slices get the same addresses.
    pub fn arena_begin(&mut self) -> (r: u64)
        requires
            old(self)@.wf(),
            old(self)@.arena_generation < u64::MAX,
        ensures
            final(self)@.wf(),
            old(self)@.external_wf() ==> final(self)@.external_wf(),
            r == old(self)@.arena_generation + 1,
            final(self)@ == (MemoryView {
                arena_generation: r,
                arena_active: true,
                arena_sizes: Seq::empty(),
                ..old(self)@
            }),
    {
        let ghost m = self@;
        self.arena_generation = self.arena_generation + 1;
        self.arena_active = true;
        self.arena_sizes.clear();
        proof {
            lemma_same_pools(m, self@);
        }
        self.arena_generation
    }

    /// Whether the arena can be opened once more.
    pub fn can_open_arena(&self) -> (r: bool)
        ensures
            r == (self@.arena_generation < u64::MAX),
    {
        self.arena_generation < u64::MAX
    }

    /// Stop routing reservations into the arena. The arena keeps everything it owns:
    /// closing it is the end of allocation from it, never the end of its reservation.
    pub fn arena_end(&mut self)
        requires
            old(self)@.wf(),
        ensures
            final(self)@.wf(),
            old(self)@.external_wf() ==> final(self)@.external_wf(),
            final(self)@ == (MemoryView { arena_active: false, ..old(self)@ }),
    {
        let ghost m = self@;
        self.arena_active = false;
        proof {
            lemma_same_pools(m, self@);
        }
    }

    /// Whether reservations are currently being served from the arena.
    pub fn arena_active(&self) -> (r: bool)
        ensures
            r == self@.arena_active,
    {
        self.arena_active
    }

    /// What the arena is holding, and how it got there, given which of its slices are
    /// free.
    pub fn arena_stats_with(&self, free: &Vec<Vec<bool>>) -> (r: ArenaStats)
        requires
            self@.wf(),
            shaped(self@.arena().table, flags(free@)),
            table_usage(self@.arena().table, flags(free@)).fits(),
        ensures
            r == arena_stats_of(self@, flags(free@)),
    {
        let at: usize = self.pools.len() - 1;
        assert(self@.arena() == self.pools@[at as int]@);
        let usage: MemoryUsage = self.pools[at].usage(free);
        ArenaStats {
            generation: self.arena_generation,
            served: self.arena_served,
            misses: self.arena_misses,
            slices: self.pools[at].page_count(),
            bytes_reserved: usage.bytes_reserved,
            bytes_in_use: usage.bytes_in_use,
        }
    }

    /// What the arena is holding, and how it got there.
    pub fn arena_stats(&self) -> (r: ArenaStats)
        requires
            self@.wf(),
            table_capacity(self@.arena().table).fits(),
        ensures
            exists|free: Seq<Seq<bool>>|
                shaped(self@.arena().table, free) && r == #[trigger] arena_stats_of(self@, free),
    {
        let at: usize = self.pools.len() - 1;
        assert(self@.arena() == self.pools@[at as int]@);
        let free = self.pools[at].liveness();
        proof {
            lemma_usage_within_capacity(self@.arena().table, flags(free@));
        }
        self.arena_stats_with(&free)
    }

    /// Zero the served and miss counters, so a capture pass can be counted apart from
    /// the warm pass that preceded it. Does not free or reset anything.
    pub fn arena_reset_counters(&mut self)
        requires
            old(self)@.wf(),
        ensures
            final(self)@.wf(),
            old(self)@.external_wf() ==> final(self)@.external_wf(),
            final(self)@ == (MemoryView { arena_served: 0, arena_misses: 0, ..old(self)@ }),
    {
        let ghost m = self@;
        self.arena_served = 0;
        self.arena_misses = 0;
        proof {
            lemma_same_pools(m, self@);
        }
    }

    /// How many requests the open arena window has served so far. A caller brackets a
    /// region with two of these to name the window it owns.
    pub fn arena_mark(&self) -> (r: usize)
        ensures
            r == self@.arena_sizes.len(),
    {
        self.arena_sizes.len()
    }

    /// A hash of every size served since `from`, in order: the signature of the region
    /// that allocated them.
    pub fn arena_signature(&self, from: usize) -> (r: u64)
        ensures
            r == signature(self@.arena_sizes, from as int),
    {
        let start: usize = if from < self.arena_sizes.len() {
            from
        } else {
            self.arena_sizes.len()
        };
        let ghost sizes = self.arena_sizes@;
        let ghost window = sizes.skip(start as int);
        let mut h: u64 = FNV_OFFSET;
        let mut i: usize = start;
        assert(window.take(0) =~= Seq::<u64>::empty());
        while i < self.arena_sizes.len()
            invariant
                start <= i <= self.arena_sizes.len(),
                sizes == self.arena_sizes@,
                window == sizes.skip(start as int),
                h == fold(SIGNATURE_MULTIPLIER, FNV_OFFSET, window.take(i - start)),
            decreases self.arena_sizes.len() - i,
        {
            proof {
                assert(window.take(i - start + 1).drop_last() =~= window.take(i - start));
                assert(window.take(i - start + 1).last() == sizes[i as int]);
            }
            h = fnv_round(SIGNATURE_MULTIPLIER, h, self.arena_sizes[i]);
            i += 1;
        }
        assert(window.take(i - start) =~= window);
        h
    }

    /// Whether memory at a location is the arena's.
    pub fn arena_owns_at(&self, location: MemoryLocation) -> (r: bool)
        requires
            self@.wf(),
        ensures
            r == (location.pool == self@.arena_at()),
    {
        location.pool as usize == self.pools.len() - 1
    }

    /// Whether some pool beside the arena holds a handle.
    fn held_elsewhere(&self, id: usize) -> (r: bool)
        requires
            self@.wf(),
        ensures
            r == self@.held_elsewhere(id),
    {
        let ghost m = self@;
        let arena: usize = self.pools.len() - 1;
        let mut k: usize = 0;
        while k < arena
            invariant
                k <= arena,
                arena == self.pools.len() - 1,
                m == self@,
                forall|n: int| 0 <= n < k ==> !(#[trigger] m.held_by(n, id)),
            decreases arena - k,
        {
            assert(m.pools[k as int] == self.pools@[k as int]@);
            if self.pools[k].holds(id) {
                assert(m.held_by(k as int, id));
                return true;
            }
            k += 1;
        }
        false
    }

    /// Whether this binding's memory came from the arena. Of a handle that either the arena or
    /// another pool holds the pools know it, whatever its clones say.
    pub fn arena_owns(&self, binding: &ManagedMemoryBinding) -> (r: bool)
        requires
            self@.wf(),
        ensures
            exists|location: MemoryLocation|
                #[trigger] location.reported() && r == self@.arena_has(binding.id(), location),
    {
        let ghost m = self@;
        let id: usize = binding.handle_id();
        let location: MemoryLocation = binding.location();
        let arena: usize = self.pools.len() - 1;
        assert(m.pools[arena as int] == self.pools@[arena as int]@);
        let here: bool = self.pools[arena].holds(id);
        let there: bool = self.held_elsewhere(id);
        let r: bool = if here != there {
            here
        } else {
            self.arena_owns_at(location)
        };
        assert(location.reported() && r == m.arena_has(id, location));
        r
    }

    /// Gives back to the storage what the pools that serve ordinary and persistent
    /// reservations do not need, given which slices are free. The arena keeps its pages.
    pub fn cleanup_with(&mut self, explicit: bool, live: &Vec<Vec<Vec<bool>>>)
        requires
            old(self)@.wf(),
            old(self)@.shaped(lives(live@)),
        ensures
            final(self)@.wf(),
            old(self)@.external_wf() ==> final(self)@.external_wf(),
            final(self)@ == old(self)@.cleaned(lives(live@), explicit),
    {
        let ghost m = self@;
        let ghost l = lives(live@);
        let persistent: usize = self.pools.len() - 2;
        proof {
            let none = m.cleaned_where(l, explicit, Set::empty());
            assert(none.pools =~= m.pools);
            assert(none.allocated =~= m.allocated);
            assert(none =~= m);
        }
        self.cleanup_pool(persistent, explicit, live, Ghost(m), Ghost(Set::empty()));
        let ghost mut done = Set::<int>::empty().insert(persistent as int);
        let mut k: usize = 0;
        while k < persistent
            invariant
                k <= persistent,
                persistent == m.pools.len() - 2,
                m.wf(),
                m.shaped(l),
                l == lives(live@),
                self@.wf(),
                m.external_wf() ==> self@.external_wf(),
                done =~= Set::new(|n: int| n == persistent || 0 <= n < k),
                self@ == m.cleaned_where(l, explicit, done),
            decreases persistent - k,
        {
            self.cleanup_pool(k, explicit, live, Ghost(m), Ghost(done));
            proof {
                done = done.insert(k as int);
            }
            k += 1;
        }
        assert(done =~= Set::new(|n: int| 0 <= n < m.arena_at()));
    }

    /// Gives back to the storage what pool `k` does not need, after the pools in `done`.
    fn cleanup_pool(
        &mut self,
        k: usize,
        explicit: bool,
        live: &Vec<Vec<Vec<bool>>>,
        Ghost(m): Ghost<MemoryView>,
        Ghost(done): Ghost<Set<int>>,
    )
        requires
            m.wf(),
            m.shaped(lives(live@)),
            k < m.pools.len(),
            !done.contains(k as int),
            old(self)@.wf(),
            old(self)@ == m.cleaned_where(lives(live@), explicit, done),
        ensures
            final(self)@.wf(),
            old(self)@.external_wf() ==> final(self)@.external_wf(),
            final(self)@ == m.cleaned_where(lives(live@), explicit, done.insert(k as int)),
    {
        let ghost l = lives(live@);
        let ghost before = self@;
        let now: u64 = self.alloc_reserve_count;
        assert(before.pools[k as int] == m.pools[k as int]);
        assert(before.pools[k as int] == self.pools@[k as int]@);
        assert(shaped(m.pools[k as int].table, l[k as int]));
        assert(l[k as int] == flags(live@[k as int]@));
        let free: &Vec<Vec<bool>> = &live[k];
        self.pools[k].cleanup(&mut self.storage, free, now, explicit);
        proof {
            let after = self@;
            let wanted = m.cleaned_where(l, explicit, done.insert(k as int));
            assert(after.pools =~= before.pools.update(k as int, after.pools[k as int]));
            assert(after.pools =~= wanted.pools);
            assert forall|id: usize| #[trigger]
                after.allocated.contains(id) == wanted.allocated.contains(id) by {
                assert(m.owned_by(k as int, id) == table_owns(m.pools[k as int].table, id));
                if before.allocated.contains(id) && !after.allocated.contains(id) {
                    assert(m.owned_by(k as int, id));
                    assert(!table_owns(wanted.pools[k as int].table, id));
                }
                if !wanted.allocated.contains(id) && m.allocated.contains(id) {
                    let j = choose|j: int|
                        0 <= j < m.pools.len() && #[trigger] m.owned_by(j, id) && !table_owns(
                            wanted.pools[j].table,
                            id,
                        );
                    if j != k {
                        assert(before.pools[j] == wanted.pools[j]);
                    }
                }
                if !before.allocated.contains(id) && m.allocated.contains(id) {
                    let j = choose|j: int|
                        0 <= j < m.pools.len() && #[trigger] m.owned_by(j, id) && !table_owns(
                            before.pools[j].table,
                            id,
                        );
                    assert(j != k);
                    assert(before.pools[j] == wanted.pools[j]);
                }
            }
            assert(after.allocated =~= wanted.allocated);
            assert(after =~= wanted);
            assert forall|id: usize| #[trigger] after.owned_by(k as int, id) implies after.allocated.contains(
                id,
            ) && before.owned_by(k as int, id) by {
                lemma_cleaned_owns(m.pools[k as int], l[k as int], now, explicit, id);
                assert(before.owned_by(k as int, id));
                assert(self.storage.ids().contains(id));
            }
            assert forall|j: int, id: usize|
                0 <= j < before.pools.len() && j != k && #[trigger] before.owned_by(
                    j,
                    id,
                ) implies after.allocated.contains(id) by {
                assert(!before.owned_by(k as int, id));
            }
            assert(table_below(before.pools[k as int].table, before.next_id));
            lemma_cleaned_below(
                m.pools[k as int],
                l[k as int],
                now,
                explicit,
                before.next_id,
            );
            assert forall|id: usize| #[trigger] before.outside(id) implies after.allocated.contains(
                id,
            ) by {
                assert(!before.owned_by(k as int, id));
                assert(self.storage.ids().contains(id));
            }
            lemma_replace(before, k as int, after);
        }
    }

    /// Cleanup allocations in pools that are deemed unnecessary.
    pub fn cleanup(&mut self, explicit: bool)
        requires
            old(self)@.wf(),
        ensures
            final(self)@.wf(),
            old(self)@.external_wf() ==> final(self)@.external_wf(),
            exists|live: Liveness|
                old(self)@.sees(live) && final(self)@ == #[trigger] old(self)@.cleaned(
                    live,
                    explicit,
                ),
    {
        let live = self.liveness();
        self.cleanup_with(explicit, &live);
    }

    /// Gives the arena's free pages back to the storage, given which slices are free.
    pub fn arena_release_with(&mut self, live: &Vec<Vec<Vec<bool>>>)
        requires
            old(self)@.wf(),
            !old(self)@.arena_active,
            old(self)@.shaped(lives(live@)),
        ensures
            final(self)@.wf(),
            old(self)@.external_wf() ==> final(self)@.external_wf(),
            final(self)@ == old(self)@.cleaned_where(
                lives(live@),
                true,
                Set::empty().insert(old(self)@.arena_at()),
            ),
    {
        let ghost m = self@;
        let ghost l = lives(live@);
        let arena: usize = self.pools.len() - 1;
        proof {
            let none = m.cleaned_where(l, true, Set::empty());
            assert(none.pools =~= m.pools);
            assert(none.allocated =~= m.allocated);
            assert(none =~= m);
        }
        self.cleanup_pool(arena, true, live, Ghost(m), Ghost(Set::empty()));
    }

    /// Give the arena's free pages back to the storage.
    ///
    /// Only legal once no captured graph built against it can still be replayed: every
    /// such graph holds pointers into these pages. Slices still held by a live handle
    /// are kept.
    pub fn arena_release(&mut self)
        requires
            old(self)@.wf(),
            !old(self)@.arena_active,
        ensures
            final(self)@.wf(),
            old(self)@.external_wf() ==> final(self)@.external_wf(),
            exists|live: Liveness|
                old(self)@.sees(live) && final(self)@ == #[trigger] old(self)@.cleaned_where(
                    live,
                    true,
                    Set::empty().insert(old(self)@.arena_at()),
                ),
    {
        let live = self.liveness();
        self.arena_release_with(&live);
    }

    /// The slice of a handle that was placed at a location.
    fn find_at(&self, id: usize, location: MemoryLocation) -> (r: Result<&Slice, IoError>)
        requires
            self@.wf(),
        ensures
            match r {
                Ok(slice) => self@.find(id, location) == Ok::<Slice, IoError>(*slice),
                Err(error) => self@.find(id, location) == Err::<Slice, IoError>(error),
            },
    {
        let k: usize = self.pool_at(location.pool);
        assert(self@.pools[k as int] == self.pools@[k as int]@);
        self.pools[k].find(location.page, id)
    }

    /// Where a slice of a handle lies, by the pools alone.
    fn whereabouts(&self, id: usize) -> (r: Option<MemoryLocation>)
        requires
            self@.wf(),
        ensures
            r == self@.whereabouts(id),
            r is Some <==> self@.holds(id),
            r matches Some(place) ==> self@.find(id, place) is Ok,
    {
        let ghost m = self@;
        let ghost held = |k: int| m.held_by(k, id);
        let mut k: usize = 0;
        while k < self.pools.len()
            invariant
                k <= self.pools.len(),
                m == self@,
                held == (|k: int| m.held_by(k, id)),
                forall|n: int| 0 <= n < k ==> !(#[trigger] held(n)),
                m.wf(),
            decreases self.pools.len() - k,
        {
            assert(m.pools[k as int] == self.pools@[k as int]@);
            proof {
                lemma_page_with(m.pools[k as int].table, id);
            }
            match self.pools[k].page_of(id) {
                Some(page) => {
                    proof {
                        assert(held(k as int));
                        lemma_first_is(m.pools.len(), held, k as int);
                    }
                    return Some(MemoryLocation { pool: k as u8, page, init: 1 });
                },
                None => {
                    assert(!held(k as int));
                },
            }
            k += 1;
        }
        proof {
            lemma_first_none(m.pools.len(), held);
            if m.holds(id) {
                let n = choose|n: int| 0 <= n < m.pools.len() && #[trigger] m.held_by(n, id);
                assert(held(n));
            }
        }
        None
    }

    /// Where a handle is looked for that reports a location. Its clones share the location, and
    /// can place it anew on another thread, so the pools have the last word.
    fn seek(&self, id: usize, location: MemoryLocation) -> (r: MemoryLocation)
        requires
            self@.wf(),
        ensures
            r == self@.sought(id, location),
            self@.find(id, r) is Ok <==> self@.holds(id),
            self@.holds(id) ==> r.init != 0 && self@.slice_of(id, self@.find(id, r)->Ok_0),
    {
        let known: bool = location.init != 0 && match self.find_at(id, location) {
            Ok(_) => true,
            Err(_) => false,
        };
        if known {
            proof {
                lemma_found_is_slice(self@, id, location);
            }
            return location;
        }
        let place: Option<MemoryLocation> = self.whereabouts(id);
        proof {
            lemma_sought(self@, id, location);
        }
        match place {
            Some(place) => place,
            None => location,
        }
    }

    /// Which pool a location byte means.
    fn pool_at(&self, byte: u8) -> (r: usize)
        requires
            self@.wf(),
        ensures
            r == self@.pool_of(byte),
            r < self@.pools.len(),
    {
        let arena: usize = self.pools.len() - 1;
        let persistent: usize = self.pools.len() - 2;
        let index: usize = byte as usize;
        if index == arena {
            arena
        } else if index >= persistent {
            persistent
        } else {
            index
        }
    }

    /// The cursor of a handle that was placed at a location.
    pub fn get_cursor_at(&self, id: usize, location: MemoryLocation) -> (r: Result<u64, IoError>)
        requires
            self@.wf(),
        ensures
            r == self@.cursor_of(id, location),
    {
        // External storage is registered rather than reserved: it has no slice, so it has
        // no cursor to read. The cursor exists to order a read after the stream operation
        // that last wrote the memory, and nothing ever writes external storage.
        if self.external.contains_key(id) {
            return Ok(0);
        }
        match self.find_at(id, location) {
            Ok(slice) => Ok(slice.cursor),
            Err(error) => Err(error),
        }
    }

    /// Returns the cursor of the specified binding.
    pub fn get_cursor(&self, binding: ManagedMemoryBinding) -> (r: Result<u64, IoError>)
        requires
            self@.wf(),
        ensures
            sought_cursor(self@, binding.id(), r),
    {
        let location: MemoryLocation = binding.location();
        assert(location.reported());
        let id: usize = binding.handle_id();
        self.get_cursor_at(id, self.seek(id, location))
    }

    /// The storage of a handle that was placed at a location.
    pub fn get_storage_at(&self, id: usize, location: MemoryLocation) -> (r: Result<
        StorageHandle,
        IoError,
    >)
        requires
            self@.wf(),
        ensures
            r == self@.storage_of(id, location),
    {
        match self.external.get(id) {
            Some(storage) => {
                return Ok(storage);
            },
            None => {},
        }
        match self.find_at(id, location) {
            Ok(slice) => Ok(slice.storage),
            Err(error) => Err(error),
        }
    }

    /// Returns the storage from the specified binding.
    pub fn get_storage(&self, binding: ManagedMemoryBinding) -> (r: Result<StorageHandle, IoError>)
        requires
            self@.wf(),
        ensures
            sought_storage(self@, binding.id(), r),
    {
        let location: MemoryLocation = binding.location();
        assert(location.reported());
        let id: usize = binding.handle_id();
        self.get_storage_at(id, self.seek(id, location))
    }

    /// Register an externally created [`StorageHandle`] as a memory handle, bypassing the
    /// pools. The returned handle resolves to `storage`, but is never reserved, reused,
    /// cut up or reclaimed.
    ///
    /// The handle and every clone of it reports that it cannot be written in place: the
    /// memory behind it is read only, so it must never be picked as the destination
    /// of a kernel.
    pub fn register_external(&mut self, storage: StorageHandle) -> (r: ManagedMemoryHandle)
        requires
            old(self)@.wf(),
        ensures
            final(self)@.wf(),
            old(self)@.external_wf() && old(self)@.outside(storage.id)
                ==> final(self)@.external_wf(),
            r.read_only(),
            old(self)@.next_id <= r.id(),
            final(self)@ == old(self)@.registered(r.id(), storage),
    {
        let ghost m = self@;
        let handle = self.fresh_handle(true);
        self.external.insert(handle.handle_id(), storage);
        proof {
            let after = self@;
            assert(after =~= m.registered(handle.id(), storage));
            assert forall|k: int, id: usize| 0 <= k < m.pools.len() implies #[trigger] after.owned_by(
                k,
                id,
            ) == m.owned_by(k, id) by {}
            assert forall|id: usize|
                m.external_wf() && m.outside(storage.id) && #[trigger] after.external.contains_key(
                    id,
                ) implies after.outside(after.external[id].id) by {
                if id != handle.id() {
                    assert(m.external.contains_key(id));
                    assert(m.outside(m.external[id].id));
                }
            }
            assert forall|k: int| 0 <= k < after.pools.len() implies table_below(
                (#[trigger] after.pools[k]).table,
                after.next_id,
            ) by {
                assert(table_below(m.pools[k].table, m.next_id));
            }
            assert(after.shape_wf());
        }
        handle
    }

    /// The resource at a range of a handle's memory, for a handle that was placed at a
    /// location.
    pub fn get_resource_at(
        &mut self,
        id: usize,
        location: MemoryLocation,
        offset_start: Option<u64>,
        offset_end: Option<u64>,
    ) -> (r: Result<Storage::Resource, IoError>)
        requires
            old(self)@.wf(),
            old(self)@.external_lives(id),
        ensures
            final(self)@.wf(),
            final(self)@ == old(self)@,
            match old(self)@.storage_of(id, location) {
                Ok(handle) => match narrowed(handle, offset_start, offset_end) {
                    Some(range) => r matches Ok(resource) && old(self).held().resolves(
                        range,
                        resource,
                    ) && final(self).held().resolves(range, resource),
                    None => r == Err::<Storage::Resource, IoError>(IoError::InvalidHandle),
                },
                Err(error) => r == Err::<Storage::Resource, IoError>(error),
            },
    {
        let ghost m = self@;
        let handle: StorageHandle = match self.get_storage_at(id, location) {
            Ok(handle) => handle,
            Err(error) => {
                return Err(error);
            },
        };
        let range: StorageHandle = match narrow(handle, offset_start, offset_end) {
            Some(range) => range,
            None => {
                return Err(IoError::InvalidHandle);
            },
        };
        proof {
            lemma_storage_allocated(m, id, location);
        }
        let resource = self.storage.get(&range);
        proof {
            assert(self@ =~= m);
        }
        Ok(resource)
    }

    /// Returns the resource from the storage at the specified handle.
    pub fn get_resource(
        &mut self,
        binding: ManagedMemoryBinding,
        offset_start: Option<u64>,
        offset_end: Option<u64>,
    ) -> (r: Result<Storage::Resource, IoError>)
        requires
            old(self)@.wf(),
            old(self)@.external_lives(binding.id()),
        ensures
            final(self)@.wf(),
            final(self)@ == old(self)@,
            resolves_from(
                old(self)@,
                old(self).held(),
                binding.id(),
                offset_start,
                offset_end,
                r,
            ),
    {
        let ghost m = self@;
        let location: MemoryLocation = binding.location();
        assert(location.reported());
        let id: usize = binding.handle_id();
        let place: MemoryLocation = self.seek(id, location);
        assert(sought_storage(m, id, m.storage_of(id, place)));
        self.get_resource_at(id, place, offset_start, offset_end)
    }

    /// The storage.
    pub closed spec fn held(self) -> Storage {
        self.storage
    }

    /// Fetch the storage used by the memory manager.
    ///
    /// The storage should not be used for allocations, since the handles are not those of
    /// the pools. This is useful to time the deallocations, or to register memory.
    pub fn storage(&mut self) -> (r: &mut Storage)
        ensures
            *r == old(self).held(),
            final(self).held() == *final(r),
            final(self)@ == (MemoryView { allocated: final(r).ids(), ..old(self)@ }),
    {
        &mut self.storage
    }

    /// The current memory usage, given which slices are free.
    pub fn memory_usage_with(&self, live: &Vec<Vec<Vec<bool>>>) -> (r: MemoryUsage)
        requires
            self@.wf(),
            self@.shaped(lives(live@)),
            self@.usage(lives(live@)).fits(),
        ensures
            r@ == self@.usage(lives(live@)),
    {
        let ghost m = self@;
        let ghost l = lives(live@);
        let mut r: MemoryUsage = MemoryUsage::none();
        let mut k: usize = 0;
        while k < self.pools.len()
            invariant
                k <= self.pools.len(),
                m == self@,
                l == lives(live@),
                m.shaped(l),
                m.usage(l).fits(),
                r@ == m.usage_upto(l, k as nat),
            decreases self.pools.len() - k,
        {
            assert(m.pools[k as int] == self.pools@[k as int]@);
            assert(shaped(m.pools[k as int].table, l[k as int]));
            assert(l[k as int] == flags(live@[k as int]@));
            proof {
                lemma_usage_grows(m, l, k as nat, m.pools.len());
                lemma_usage_grows(m, l, (k + 1) as nat, m.pools.len());
                lemma_table_usage_nonnegative(m.pools[k as int].table, l[k as int]);
            }
            r = r.combine(self.pools[k].usage(&live[k]));
            k += 1;
        }
        r
    }

    /// Whether what all pools count for can be counted, whichever slices are free.
    pub fn can_add_up(&self) -> (r: bool)
        ensures
            r == self@.capacity().fits(),
    {
        let ghost m = self@;
        let ghost l = m.all_in_use();
        let mut sum: MemoryUsage = MemoryUsage::none();
        let mut k: usize = 0;
        while k < self.pools.len()
            invariant
                k <= self.pools.len(),
                m == self@,
                l == m.all_in_use(),
                sum@ == m.usage_upto(l, k as nat),
            decreases self.pools.len() - k,
        {
            assert(m.pools[k as int] == self.pools@[k as int]@);
            proof {
                lemma_usage_grows(m, l, k as nat, m.pools.len());
                lemma_usage_grows(m, l, (k + 1) as nat, m.pools.len());
                lemma_table_usage_nonnegative(m.pools[k as int].table, l[k as int]);
            }
            let pool: MemoryUsage = match self.pools[k].capacity() {
                Some(pool) => pool,
                None => {
                    return false;
                },
            };
            sum = match sum.checked_combine(pool) {
                Some(sum) => sum,
                None => {
                    return false;
                },
            };
            k += 1;
        }
        true
    }

    /// Whether what the arena counts for can be counted, whichever slices are free.
    pub fn can_add_up_arena(&self) -> (r: bool)
        requires
            self@.wf(),
        ensures
            r == table_capacity(self@.arena().table).fits(),
    {
        let at: usize = self.pools.len() - 1;
        assert(self@.arena() == self.pools@[at as int]@);
        match self.pools[at].capacity() {
            Some(_) => true,
            None => false,
        }
    }

    /// Whether the counters have room for one more reservation.
    pub fn can_reserve(&self) -> (r: bool)
        ensures
            r == self@.can_count(),
    {
        self.alloc_reserve_count < u64::MAX && (!self.arena_active || (self.arena_served < u64::MAX
            && self.arena_misses < u64::MAX))
    }

    /// Get the current memory usage.
    pub fn memory_usage(&self) -> (r: MemoryUsage)
        requires
            self@.wf(),
            self@.capacity().fits(),
        ensures
            exists|live: Liveness| self@.sees(live) && r@ == #[trigger] self@.usage(live),
    {
        let live = self.liveness();
        proof {
            lemma_usage_in_capacity(self@, lives(live@), self@.pools.len());
        }
        self.memory_usage_with(&live)
    }

    /// Gives the slice of a handle, at the location it was placed at, to another handle.
    pub fn bind_at(
        &mut self,
        id: usize,
        location: MemoryLocation,
        assigned: ManagedMemoryHandle,
        cursor: u64,
    ) -> (r: Result<(), IoError>)
        requires
            old(self)@.wf(),
        ensures
            final(self)@.wf(),
            old(self)@.external_wf() ==> final(self)@.external_wf(),
            bound_at(old(self)@, id, location, assigned, cursor, r, final(self)@),
    {
        if location.init == 0 {
            return Err(IoError::NotFound { reason: Missing::Uninitialized });
        }
        let ghost m = self@;
        let k: usize = self.pool_at(location.pool);
        assert(m.pools[k as int] == self.pools@[k as int]@);
        let assigned_id: usize = assigned.handle_id();
        let r = self.pools[k].bind(location.page, id, assigned, cursor);
        if r.is_ok() {
            self.note(assigned_id);
        }
        proof {
            let after = m.bound(id, location, assigned, cursor);
            assert(self@ =~= after);
            assert(table_below(m.pools[k as int].table, m.next_id));
            lemma_rebound_below(
                m.pools[k as int],
                location.page as int,
                id,
                assigned,
                cursor,
                m.next_id,
            );
            assert forall|s: usize| #[trigger]
                after.owned_by(k as int, s) == m.owned_by(k as int, s) by {
                lemma_rebound_owns(
                    m.pools[k as int],
                    location.page as int,
                    id,
                    assigned,
                    cursor,
                    s,
                );
            }
            lemma_replace(m, k as int, after);
        }
        r
    }

    /// Gives the slice of the reserved handle to another handle.
    pub fn bind(
        &mut self,
        reserved: ManagedMemoryHandle,
        assigned: ManagedMemoryHandle,
        cursor: u64,
    ) -> (r: Result<(), IoError>)
        requires
            old(self)@.wf(),
        ensures
            final(self)@.wf(),
            old(self)@.external_wf() ==> final(self)@.external_wf(),
            rebinds(old(self)@, reserved.id(), assigned, cursor, r, final(self)@),
    {
        let location: MemoryLocation = reserved.location();
        assert(location.reported());
        let id: usize = reserved.handle_id();
        let place: MemoryLocation = self.seek(id, location);
        self.bind_at(id, place, assigned, cursor)
    }
}

/// The storage of a handle is an allocation.
proof fn lemma_storage_allocated(m: MemoryView, id: usize, location: MemoryLocation)
    requires
        m.wf(),
        m.external_lives(id),
        m.storage_of(id, location) is Ok,
    ensures
        m.allocated.contains(m.storage_of(id, location)->Ok_0.id),
{
    if !m.external.contains_key(id) {
        let k = m.pool_of(location.pool);
        let table = m.pools[k].table;
        assert(m.pools[k].wf());
        let page = table[location.page as int]->0;
        lemma_first_from(0, page.slices.len() as int, |n: int| page.slices[n].handle.id() == id);
        assert(m.owned_by(k, page.storage)) by {
            assert(table[location.page as int] is Some);
        }
    }
}

/// What the capture arena is holding, and how it got there.
///
/// A miss taken while a stream capture is open is a driver allocation recorded as a
/// graph memory node, which is both a cost at every replay and an address that
/// the next capture will not reproduce.
#[derive(Clone, Copy, Debug, PartialEq, Eq)]
pub struct ArenaStats {
    /// How many times the arena has been opened.
    pub generation: u64,
    /// Reservations served from the arena since the last counter reset.
    pub served: u64,
    /// Of those, the ones that needed a fresh allocation from the storage.
    pub misses: u64,
    /// Slices the arena owns.
    pub slices: u64,
    /// Bytes the arena keeps reserved, whether in use or free.
    pub bytes_reserved: u64,
    /// Bytes of that currently held by a live handle.
    pub bytes_in_use: u64,
}

/// What the arena is holding, with these slices free.
pub open spec fn arena_stats_of(m: MemoryView, free: Seq<Seq<bool>>) -> ArenaStats {
    let usage = table_usage(m.arena().table, free);
    ArenaStats {
        generation: m.arena_generation,
        served: m.arena_served,
        misses: m.arena_misses,
        slices: slices_in(m.arena().table, m.arena().table.len()) as u64,
        bytes_reserved: usage.bytes_reserved as u64,
        bytes_in_use: usage.bytes_in_use as u64,
    }
}

/// The signature of the sizes from `from` on.
pub open spec fn signature(sizes: Seq<u64>, from: int) -> u64 {
    fold(
        SIGNATURE_MULTIPLIER,
        FNV_OFFSET,
        sizes.skip(
            if from < sizes.len() {
                from
            } else {
                sizes.len() as int
            },
        ),
    )
}

} // verus!
