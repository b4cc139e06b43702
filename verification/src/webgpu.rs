//! The memory of a WebGPU device: buffers for data, for read-back and for uniforms.

use vstd::prelude::*;

use crate::first::{lemma_first_from, lemma_first_is};
use crate::memory::error::IoError;
use crate::memory::handle::{
    HandleIds, ManagedMemoryBinding, ManagedMemoryHandle, MemoryLocation,
};
use crate::memory::manage::{
    configurable, fresh, handle_of, holds_at, pools_for, rebinds, refused_by, resolves_from,
    MemoryManagement,
};
use crate::memory::model::{Liveness, MemoryView};
use crate::memory::options::{
    initial_mode, pool_options_for, Bucket, MemoryAllocationMode, MemoryAllocationOption,
    MemoryConfiguration, MemoryDeviceProperties, MemoryManagementOptions, PersistentMemory,
};
use crate::memory::storage::{ComputeStorage, StorageHandle};
use crate::memory::usage::MemoryUsage;

verus! {

/// What a buffer may be used for.
#[derive(Clone, Copy, Debug, PartialEq, Eq)]
pub struct Usages {
    pub storage: bool,
    pub uniform: bool,
    pub indirect: bool,
    pub copy_src: bool,
    pub copy_dst: bool,
    pub map_read: bool,
}

/// What the buffers of the main memory are used for.
pub fn main_usages() -> (r: Usages)
    ensures
        r == (Usages {
            storage: true,
            uniform: false,
            indirect: true,
            copy_src: true,
            copy_dst: true,
            map_read: false,
        }),
{
    Usages {
        storage: true,
        uniform: false,
        indirect: true,
        copy_src: true,
        copy_dst: true,
        map_read: false,
    }
}

/// What the buffers that are read back are used for.
pub fn staging_usages() -> (r: Usages)
    ensures
        r == (Usages {
            storage: false,
            uniform: false,
            indirect: false,
            copy_src: false,
            copy_dst: true,
            map_read: true,
        }),
{
    Usages {
        storage: false,
        uniform: false,
        indirect: false,
        copy_src: false,
        copy_dst: true,
        map_read: true,
    }
}

/// What the buffers of uniforms are used for.
pub fn uniform_usages() -> (r: Usages)
    ensures
        r == (Usages {
            storage: true,
            uniform: true,
            indirect: false,
            copy_src: false,
            copy_dst: true,
            map_read: false,
        }),
{
    Usages {
        storage: true,
        uniform: true,
        indirect: false,
        copy_src: false,
        copy_dst: true,
        map_read: false,
    }
}

/// Three memories of one device.
pub struct WgpuMemManager<S: ComputeStorage> {
    /// For everything that fits, by default.
    pub memory_pool: MemoryManagement<S>,
    /// For uniforms.
    pub memory_uniforms: MemoryManagement<S>,
    /// For what is read back.
    pub memory_pool_staging: MemoryManagement<S>,
    /// The uniforms in use.
    pub uniforms: Vec<ManagedMemoryHandle>,
}

/// Whether a memory never cuts a page into slices, and knows nothing from outside.
pub open spec fn whole_pages(m: MemoryView) -> bool {
    &&& m.wf()
    &&& m.external == Map::<usize, StorageHandle>::empty()
    &&& forall|k: int| 0 <= k < m.pools.len() ==> (#[trigger] m.pools[k]).rules !is Sliced
}

/// A reservation changes neither the rules of the pools nor what was registered.
proof fn lemma_reserved_whole(
    m: MemoryView,
    size: u64,
    live: Liveness,
    r: Result<ManagedMemoryHandle, IoError>,
    after: MemoryView,
)
    requires
        whole_pages(m),
        m.reserved(size, live, r, after),
        after.wf(),
    ensures
        whole_pages(after),
{
    lemma_first_from(0, m.dynamic(), |k: int| m.pools[k].accepts(size));
    assert forall|k: int| 0 <= k < m.pools.len() implies (#[trigger] after.pools[k]).rules
        == m.pools[k].rules by {}
}

/// On a memory of whole pages a handle that was placed finds its slice.
proof fn lemma_placed_found(
    m: MemoryView,
    size: u64,
    handle: ManagedMemoryHandle,
    location: MemoryLocation,
)
    requires
        whole_pages(m),
        m.placed(size, handle, location),
    ensures
        m.storage_of(handle.id(), location) matches Ok(storage) && storage.size == size,
{
    let k = m.pool_of(location.pool);
    let p = location.page as int;
    let pool = m.pools[k];
    assert(pool.wf());
    let page = pool.table[p]->0;
    assert(pool.page_follows(page));
    let held = |n: int| page.slices[n].handle.id() == handle.id();
    assert(held(0));
    lemma_first_is(page.slices.len(), held, 0);
}

impl<S: ComputeStorage> WgpuMemManager<S> {
    /// The invariant.
    pub open spec fn wf(self) -> bool {
        &&& self.memory_pool@.wf()
        &&& self.memory_pool@.external_wf()
        &&& whole_pages(self.memory_uniforms@)
        &&& whole_pages(self.memory_pool_staging@)
    }

    /// Creates the three memories over their storages. A part of a buffer cannot be
    /// mapped while another part is in use, so what is read back gets pages of its own,
    /// and so do uniforms.
    pub fn new(
        main: S,
        staging: S,
        uniforms: S,
        memory_properties: MemoryDeviceProperties,
        memory_config: MemoryConfiguration,
        staging_buckets: Vec<Bucket>,
        uniform_buckets: Vec<Bucket>,
        persistent: PersistentMemory,
        ids: &HandleIds,
    ) -> (r: Self)
        requires
            configurable(memory_config, memory_properties),
            configurable(
                MemoryConfiguration::ExclusivePages { buckets: staging_buckets },
                memory_properties,
            ),
            configurable(
                MemoryConfiguration::ExclusivePages { buckets: uniform_buckets },
                memory_properties,
            ),
        ensures
            r.wf(),
            r.uniforms@ == Seq::<ManagedMemoryHandle>::empty(),
            r.memory_pool@ == fresh(
                "Main GPU Memory"@,
                pools_for(pool_options_for(memory_config, memory_properties), memory_properties),
                initial_mode(MemoryAllocationOption::FromConfig, persistent),
                persistent,
                false,
                main.ids(),
            ),
            r.memory_pool_staging@ == fresh(
                "Staging CPU Memory"@,
                pools_for(
                    pool_options_for(
                        MemoryConfiguration::ExclusivePages { buckets: staging_buckets },
                        memory_properties,
                    ),
                    memory_properties,
                ),
                MemoryAllocationMode::Auto,
                persistent,
                true,
                staging.ids(),
            ),
            r.memory_uniforms@ == fresh(
                "Uniform GPU Memory"@,
                pools_for(
                    pool_options_for(
                        MemoryConfiguration::ExclusivePages { buckets: uniform_buckets },
                        memory_properties,
                    ),
                    memory_properties,
                ),
                MemoryAllocationMode::Auto,
                persistent,
                true,
                uniforms.ids(),
            ),
    {
        let memory_pool = MemoryManagement::from_configuration(
            main,
            &memory_properties,
            memory_config,
            persistent,
            MemoryManagementOptions::new("Main GPU Memory"),
            ids.clone(),
        );
        let memory_pool_staging = MemoryManagement::from_configuration(
            staging,
            &memory_properties,
            MemoryConfiguration::ExclusivePages { buckets: staging_buckets },
            persistent,
            MemoryManagementOptions::new("Staging CPU Memory").mode(MemoryAllocationMode::Auto),
            ids.clone(),
        );
        let memory_uniforms = MemoryManagement::from_configuration(
            uniforms,
            &memory_properties,
            MemoryConfiguration::ExclusivePages { buckets: uniform_buckets },
            persistent,
            MemoryManagementOptions::new("Uniform GPU Memory").mode(MemoryAllocationMode::Auto),
            ids.clone(),
        );
        WgpuMemManager { memory_pool, memory_uniforms, memory_pool_staging, uniforms: Vec::new() }
    }

    /// Gives the slice of the reserved handle to another handle.
    pub fn bind(&mut self, old_handle: ManagedMemoryHandle, new_handle: ManagedMemoryHandle) -> (r:
        Result<(), IoError>)
        requires
            old(self).wf(),
        ensures
            final(self).wf(),
            final(self).memory_uniforms == old(self).memory_uniforms,
            final(self).memory_pool_staging == old(self).memory_pool_staging,
            final(self).uniforms == old(self).uniforms,
            rebinds(
                old(self).memory_pool@,
                old_handle.id(),
                new_handle,
                0,
                r,
                final(self).memory_pool@,
            ),
    {
        self.memory_pool.bind(old_handle, new_handle, 0)
    }

    /// Reserves main memory.
    pub fn reserve(&mut self, size: u64) -> (r: Result<ManagedMemoryHandle, IoError>)
        requires
            old(self).wf(),
            old(self).memory_pool@.can_count(),
        ensures
            final(self).wf(),
            final(self).memory_uniforms == old(self).memory_uniforms,
            final(self).memory_pool_staging == old(self).memory_pool_staging,
            final(self).uniforms == old(self).uniforms,
            exists|live: Liveness|
                {
                    &&& old(self).memory_pool@.sees(live)
                    &&& #[trigger] old(self).memory_pool@.reserved(
                        size,
                        live,
                        r,
                        final(self).memory_pool@,
                    )
                    &&& refused_by(
                        old(self).memory_pool.held(),
                        old(self).memory_pool@,
                        size,
                        live,
                        r,
                    )
                },
    {
        self.memory_pool.reserve(size)
    }

    /// Reserves memory that can be read back, and resolves it. Every reservation that
    /// succeeds resolves.
    pub fn reserve_staging(&mut self, size: u64) -> (r: Result<
        (S::Resource, ManagedMemoryBinding),
        IoError,
    >)
        requires
            old(self).wf(),
            old(self).memory_pool_staging@.can_count(),
        ensures
            final(self).wf(),
            final(self).memory_pool == old(self).memory_pool,
            final(self).memory_uniforms == old(self).memory_uniforms,
            final(self).uniforms == old(self).uniforms,
            exists|live: Liveness, handle: Result<ManagedMemoryHandle, IoError>|
                {
                    &&& old(self).memory_pool_staging@.sees(live)
                    &&& #[trigger] old(self).memory_pool_staging@.reserved(
                        size,
                        live,
                        handle,
                        final(self).memory_pool_staging@,
                    )
                    &&& refused_by(
                        old(self).memory_pool_staging.held(),
                        old(self).memory_pool_staging@,
                        size,
                        live,
                        handle,
                    )
                    &&& match r {
                        Ok((resource, binding)) => {
                            &&& handle matches Ok(h)
                            &&& binding.of() == h
                            &&& binding.id() == h.id()
                            &&& holds_at::<S>(
                                final(self).memory_pool_staging,
                                size,
                                h,
                                old(self).memory_pool_staging@.planned(size, live),
                                resource,
                            )
                        },
                        Err(error) => handle == Err::<ManagedMemoryHandle, IoError>(error),
                    }
                },
    {
        let ghost m = self.memory_pool_staging@;
        let reserved = self.memory_pool_staging.reserve_placed(size);
        let ghost live = choose|live: Liveness|
            {
                &&& m.sees(live)
                &&& #[trigger] m.reserved(
                    size,
                    live,
                    handle_of(reserved),
                    self.memory_pool_staging@,
                )
                &&& refused_by(
                    old(self).memory_pool_staging.held(),
                    m,
                    size,
                    live,
                    handle_of(reserved),
                )
                &&& reserved matches Ok((_, location)) ==> location == m.planned(size, live)
            };
        proof {
            lemma_reserved_whole(m, size, live, handle_of(reserved), self.memory_pool_staging@);
        }
        let (handle, location): (ManagedMemoryHandle, MemoryLocation) = match reserved {
            Ok(placed) => placed,
            Err(error) => {
                return Err(error);
            },
        };
        let ghost memory = self.memory_pool_staging;
        proof {
            lemma_placed_found(memory@, size, handle, location);
        }
        let resolved = self.memory_pool_staging.get_resource_at(
            handle.handle_id(),
            location,
            None,
            None,
        );
        match resolved {
            Ok(resource) => {
                proof {
                    assert(m.reserved(size, live, Ok(handle), self.memory_pool_staging@));
                    assert(holds_at::<S>(
                        self.memory_pool_staging,
                        size,
                        handle,
                        location,
                        resource,
                    ));
                }
                Ok((resource, handle.binding()))
            },
            Err(error) => Err(error),
        }
    }

    /// The resource at a range of a binding of main memory.
    pub fn get_resource(
        &mut self,
        binding: ManagedMemoryBinding,
        offset_start: Option<u64>,
        offset_end: Option<u64>,
    ) -> (r: Result<S::Resource, IoError>)
        requires
            old(self).wf(),
        ensures
            final(self).wf(),
            final(self).memory_uniforms == old(self).memory_uniforms,
            final(self).memory_pool_staging == old(self).memory_pool_staging,
            final(self).uniforms == old(self).uniforms,
            final(self).memory_pool@ == old(self).memory_pool@,
            resolves_from(
                old(self).memory_pool@,
                old(self).memory_pool.held(),
                binding.id(),
                offset_start,
                offset_end,
                r,
            ),
    {
        self.memory_pool.get_resource(binding, offset_start, offset_end)
    }

    /// Registers memory that was imported rather than allocated, in the main memory.
    pub fn register_external(&mut self, storage: StorageHandle) -> (r: ManagedMemoryHandle)
        requires
            old(self).wf(),
            old(self).memory_pool@.outside(storage.id),
        ensures
            final(self).wf(),
            final(self).memory_uniforms == old(self).memory_uniforms,
            final(self).memory_pool_staging == old(self).memory_pool_staging,
            final(self).uniforms == old(self).uniforms,
            final(self).memory_pool@ == old(self).memory_pool@.registered(r.id(), storage),
            r.read_only(),
            old(self).memory_pool@.next_id <= r.id(),
    {
        self.memory_pool.register_external(storage)
    }

    /// Reserves and resolves memory for a uniform, and keeps it until the uniforms are
    /// released. Every reservation that succeeds resolves.
    pub fn reserve_uniform(&mut self, size: u64) -> (r: Result<S::Resource, IoError>)
        requires
            old(self).wf(),
            old(self).memory_uniforms@.can_count(),
        ensures
            final(self).wf(),
            final(self).memory_pool == old(self).memory_pool,
            final(self).memory_pool_staging == old(self).memory_pool_staging,
            exists|live: Liveness, handle: Result<ManagedMemoryHandle, IoError>|
                {
                    &&& old(self).memory_uniforms@.sees(live)
                    &&& #[trigger] old(self).memory_uniforms@.reserved(
                        size,
                        live,
                        handle,
                        final(self).memory_uniforms@,
                    )
                    &&& refused_by(
                        old(self).memory_uniforms.held(),
                        old(self).memory_uniforms@,
                        size,
                        live,
                        handle,
                    )
                    &&& match handle {
                        Ok(h) => {
                            &&& r matches Ok(resource)
                            &&& holds_at::<S>(
                                final(self).memory_uniforms,
                                size,
                                h,
                                old(self).memory_uniforms@.planned(size, live),
                                resource,
                            )
                            &&& final(self).uniforms@ == old(self).uniforms@.push(h)
                        },
                        Err(error) => r == Err::<S::Resource, IoError>(error)
                            && final(self).uniforms@ == old(self).uniforms@,
                    }
                },
    {
        let ghost m = self.memory_uniforms@;
        let reserved = self.memory_uniforms.reserve_placed(size);
        let ghost live = choose|live: Liveness|
            {
                &&& m.sees(live)
                &&& #[trigger] m.reserved(size, live, handle_of(reserved), self.memory_uniforms@)
                &&& refused_by(
                    old(self).memory_uniforms.held(),
                    m,
                    size,
                    live,
                    handle_of(reserved),
                )
                &&& reserved matches Ok((_, location)) ==> location == m.planned(size, live)
            };
        proof {
            lemma_reserved_whole(m, size, live, handle_of(reserved), self.memory_uniforms@);
        }
        let (handle, location): (ManagedMemoryHandle, MemoryLocation) = match reserved {
            Ok(placed) => placed,
            Err(error) => {
                return Err(error);
            },
        };
        let ghost memory = self.memory_uniforms;
        proof {
            lemma_placed_found(memory@, size, handle, location);
        }
        self.uniforms.push(handle.clone());
        let resolved = self.memory_uniforms.get_resource_at(
            handle.handle_id(),
            location,
            None,
            None,
        );
        proof {
            assert(m.reserved(size, live, Ok(handle), self.memory_uniforms@));
            assert(resolved matches Ok(resource) && holds_at::<S>(
                self.memory_uniforms,
                size,
                handle,
                location,
                resource,
            ));
        }
        resolved
    }

    /// Lets go of the uniforms.
    pub fn release_uniforms(&mut self)
        ensures
            final(self).uniforms@ == Seq::<ManagedMemoryHandle>::empty(),
            final(self).memory_pool == old(self).memory_pool,
            final(self).memory_uniforms == old(self).memory_uniforms,
            final(self).memory_pool_staging == old(self).memory_pool_staging,
    {
        self.uniforms.clear();
    }

    /// The usage of the main memory.
    pub fn memory_usage(&self) -> (r: MemoryUsage)
        requires
            self.wf(),
            self.memory_pool@.capacity().fits(),
        ensures
            exists|live: Liveness|
                self.memory_pool@.sees(live) && r@ == #[trigger] self.memory_pool@.usage(live),
    {
        self.memory_pool.memory_usage()
    }

    /// Cleans the main memory up.
    pub fn memory_cleanup(&mut self, explicit: bool)
        requires
            old(self).wf(),
        ensures
            final(self).wf(),
            final(self).memory_uniforms == old(self).memory_uniforms,
            final(self).memory_pool_staging == old(self).memory_pool_staging,
            final(self).uniforms == old(self).uniforms,
            exists|live: Liveness|
                old(self).memory_pool@.sees(live) && final(self).memory_pool@ == #[trigger] old(
                    self,
                ).memory_pool@.cleaned(live, explicit),
    {
        self.memory_pool.cleanup(explicit);
    }

    /// Change the mode of allocation of the main memory.
    pub fn mode(&mut self, mode: MemoryAllocationMode)
        requires
            old(self).wf(),
        ensures
            final(self).wf(),
            final(self).memory_uniforms == old(self).memory_uniforms,
            final(self).memory_pool_staging == old(self).memory_pool_staging,
            final(self).uniforms == old(self).uniforms,
            final(self).memory_pool@ == old(self).memory_pool@.with_mode(mode),
    {
        self.memory_pool.mode(mode);
    }
}

} // verus!
