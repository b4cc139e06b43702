//! Which of the memories of a WebGPU device each call is on.

use vstd::prelude::*;

use crate::memory::bytes::{BytesResource, BytesStorage};
use crate::memory::call_laws::{
    asked_of, changes_hands, cleaned_up, held_somewhere, is_resource_of, lemma_asked_of,
    lemma_changes_hands, lemma_cleaned_up, lemma_pool_bytes, lemma_resource_of, pool_bytes,
};
use crate::memory::error::IoError;
use crate::memory::handle::{HandleIds, ManagedMemoryBinding, ManagedMemoryHandle};
use crate::memory::manage::{configurable, holds_at, refused_by};
use crate::memory::model::Liveness;
use crate::memory::options::{
    Bucket, MemoryAllocationMode, MemoryConfiguration, MemoryDeviceProperties, PersistentMemory,
};
use crate::memory::pool::PoolRules;
use crate::memory::range_laws::{is_memory_of, is_range_of, leaves_a_range, lemma_resolved};
use crate::memory::storage::{ComputeStorage, StorageHandle};
use crate::memory::usage::MemoryUsage;
use crate::webgpu::{main_usages, staging_usages, uniform_usages, Usages, WgpuMemManager};

verus! {

/// Every buffer can be copied to. Only those that are read back can be mapped, and they are
/// used for nothing else; only uniforms are uniforms; and main memory is all a kernel needs.
pub proof fn law_buffers_have_their_uses(main: Usages, staging: Usages, uniforms: Usages)
    requires
        call_ensures(main_usages, (), main),
        call_ensures(staging_usages, (), staging),
        call_ensures(uniform_usages, (), uniforms),
    ensures
        main.copy_dst && staging.copy_dst && uniforms.copy_dst,
        staging.map_read && !main.map_read && !uniforms.map_read,
        !staging.storage && !staging.uniform && !staging.indirect && !staging.copy_src,
        uniforms.uniform && !main.uniform,
        main.storage && uniforms.storage,
        main.copy_src && !uniforms.copy_src,
        main.indirect && !uniforms.indirect,
{
}

/// What is read back and what is uniform has pages of its own, one for each bucket, and is
/// never persistent by mode, whatever the mode is set to. Main memory is divided as it is
/// configured, and its mode is persistent exactly if that is enforced.
pub proof fn law_three_memories_are_made<S: ComputeStorage>(
    main: S,
    staging: S,
    uniforms: S,
    properties: MemoryDeviceProperties,
    config: MemoryConfiguration,
    staging_buckets: Vec<Bucket>,
    uniform_buckets: Vec<Bucket>,
    persistent: PersistentMemory,
    ids: HandleIds,
    r: WgpuMemManager<S>,
    k: int,
)
    requires
        configurable(config, properties),
        configurable(MemoryConfiguration::ExclusivePages { buckets: staging_buckets }, properties),
        configurable(MemoryConfiguration::ExclusivePages { buckets: uniform_buckets }, properties),
        call_ensures(
            WgpuMemManager::<S>::new,
            (
                main,
                staging,
                uniforms,
                properties,
                config,
                staging_buckets,
                uniform_buckets,
                persistent,
                &ids,
            ),
            r,
        ),
    ensures
        r.uniforms@.len() == 0,
        r.memory_pool_staging@.pools.len() == staging_buckets@.len() + 2,
        r.memory_uniforms@.pools.len() == uniform_buckets@.len() + 2,
        0 <= k < staging_buckets@.len() ==> r.memory_pool_staging@.pools[k].rules
            == (PoolRules::Exclusive {
            max_alloc_size: staging_buckets@[k].size,
            dealloc_period: staging_buckets@[k].dealloc_period,
        }),
        0 <= k < uniform_buckets@.len() ==> r.memory_uniforms@.pools[k].rules
            == (PoolRules::Exclusive {
            max_alloc_size: uniform_buckets@[k].size,
            dealloc_period: uniform_buckets@[k].dealloc_period,
        }),
        config matches MemoryConfiguration::Custom { pool_options } ==> r.memory_pool@.pools.len()
            == pool_options@.len() + 2,
        r.memory_pool_staging@.mode is Auto && r.memory_pool_staging@.forced,
        r.memory_uniforms@.mode is Auto && r.memory_uniforms@.forced,
        !r.memory_pool@.forced,
        r.memory_pool@.mode is Persistent <==> persistent is Enforced,
        r.memory_pool@.allocated == main.ids(),
        r.memory_pool_staging@.allocated == staging.ids(),
        r.memory_uniforms@.allocated == uniforms.ids(),
{
}

/// A binding of main memory is handed the range of the memory that its handle stands for, cut
/// at both ends. The other memories are not looked at.
pub proof fn law_main_memory_is_handed_out<S: ComputeStorage>(
    manager: &mut WgpuMemManager<S>,
    binding: ManagedMemoryBinding,
    start: Option<u64>,
    end: Option<u64>,
    r: Result<S::Resource, IoError>,
)
    requires
        old(manager).wf(),
        call_ensures(WgpuMemManager::<S>::get_resource, (manager, binding, start, end), r),
    ensures
        r matches Ok(resource) ==> exists|found: StorageHandle|
            #[trigger] is_memory_of(old(manager).memory_pool@, binding.id(), found) && is_range_of(
                old(manager).memory_pool.held(),
                found,
                start,
                end,
                resource,
            ),
        r is Err ==> {
            ||| forall|found: StorageHandle|
                !(#[trigger] is_memory_of(old(manager).memory_pool@, binding.id(), found))
            ||| r->Err_0 == IoError::InvalidHandle && exists|found: StorageHandle|
                #[trigger] is_memory_of(old(manager).memory_pool@, binding.id(), found)
                    && !leaves_a_range(found, start, end)
        },
        final(manager).memory_pool@ == old(manager).memory_pool@,
        final(manager).memory_uniforms == old(manager).memory_uniforms,
        final(manager).memory_pool_staging == old(manager).memory_pool_staging,
{
    lemma_resolved(
        old(manager).memory_pool@,
        old(manager).memory_pool.held(),
        binding.id(),
        start,
        end,
        r,
    );
}

/// Main memory is reserved in main memory, and counts there alone.
pub proof fn law_main_memory_is_reserved<S: ComputeStorage>(
    manager: &mut WgpuMemManager<S>,
    size: u64,
    r: Result<ManagedMemoryHandle, IoError>,
)
    requires
        old(manager).wf(),
        old(manager).memory_pool@.can_count(),
        call_ensures(WgpuMemManager::<S>::reserve, (manager, size), r),
    ensures
        asked_of(old(manager).memory_pool@, final(manager).memory_pool@, size, r),
        final(manager).memory_uniforms == old(manager).memory_uniforms,
        final(manager).memory_pool_staging == old(manager).memory_pool_staging,
        final(manager).uniforms == old(manager).uniforms,
{
    let was = old(manager).memory_pool;
    let live = choose|live: Liveness|
        {
            &&& was@.sees(live)
            &&& #[trigger] was@.reserved(size, live, r, final(manager).memory_pool@)
            &&& refused_by(was.held(), was@, size, live, r)
        };
    lemma_asked_of(was@, final(manager).memory_pool@, size, live, r);
}

/// What can be read back is reserved where it can be, and counts there alone.
pub proof fn law_staging_memory_is_reserved<S: ComputeStorage>(
    manager: &mut WgpuMemManager<S>,
    size: u64,
    r: Result<(S::Resource, ManagedMemoryBinding), IoError>,
)
    requires
        old(manager).wf(),
        old(manager).memory_pool_staging@.can_count(),
        call_ensures(WgpuMemManager::<S>::reserve_staging, (manager, size), r),
    ensures
        final(manager).memory_pool_staging@.reserve_count
            == old(manager).memory_pool_staging@.reserve_count + 1,
        r matches Ok((resource, binding)) ==> asked_of(
            old(manager).memory_pool_staging@,
            final(manager).memory_pool_staging@,
            size,
            Ok(binding.of()),
        ) && is_resource_of(final(manager).memory_pool_staging, binding.id(), resource),
        r matches Err(error) ==> asked_of(
            old(manager).memory_pool_staging@,
            final(manager).memory_pool_staging@,
            size,
            Err(error),
        ),
        final(manager).memory_pool == old(manager).memory_pool,
        final(manager).memory_uniforms == old(manager).memory_uniforms,
        final(manager).uniforms == old(manager).uniforms,
{
    let was = old(manager).memory_pool_staging;
    let now = final(manager).memory_pool_staging;
    let (live, handle) = choose|live: Liveness, handle: Result<ManagedMemoryHandle, IoError>|
        {
            &&& was@.sees(live)
            &&& #[trigger] was@.reserved(size, live, handle, now@)
            &&& refused_by(was.held(), was@, size, live, handle)
            &&& match r {
                Ok((resource, binding)) => {
                    &&& handle matches Ok(h)
                    &&& binding.of() == h
                    &&& binding.id() == h.id()
                    &&& holds_at::<S>(now, size, h, was@.planned(size, live), resource)
                },
                Err(error) => handle == Err::<ManagedMemoryHandle, IoError>(error),
            }
        };
    lemma_asked_of(was@, now@, size, live, handle);
    if let Ok((resource, binding)) = r {
        lemma_resource_of(now, size, binding.of(), was@.planned(size, live), resource);
    }
}

/// A uniform is reserved among the uniforms and kept behind the others, exactly if it is
/// reserved. Releasing them keeps none and touches no memory.
pub proof fn law_uniforms_are_kept<S: ComputeStorage>(
    manager: &mut WgpuMemManager<S>,
    size: u64,
    r: Result<S::Resource, IoError>,
)
    requires
        old(manager).wf(),
        old(manager).memory_uniforms@.can_count(),
        call_ensures(WgpuMemManager::<S>::reserve_uniform, (manager, size), r),
    ensures
        final(manager).uniforms@.len() == old(manager).uniforms@.len() + (if r is Ok {
            1int
        } else {
            0
        }),
        forall|i: int|
            0 <= i < old(manager).uniforms@.len() ==> (#[trigger] final(manager).uniforms@[i])
                == old(manager).uniforms@[i],
        r is Ok ==> !final(manager).uniforms@.last().read_only(),
        final(manager).memory_uniforms@.reserve_count
            == old(manager).memory_uniforms@.reserve_count + 1,
        r matches Ok(resource) ==> {
            let handle = final(manager).uniforms@.last();
            &&& asked_of(
                old(manager).memory_uniforms@,
                final(manager).memory_uniforms@,
                size,
                Ok(handle),
            )
            &&& is_resource_of(final(manager).memory_uniforms, handle.id(), resource)
        },
        r matches Err(error) ==> asked_of(
            old(manager).memory_uniforms@,
            final(manager).memory_uniforms@,
            size,
            Err(error),
        ),
        final(manager).memory_pool == old(manager).memory_pool,
        final(manager).memory_pool_staging == old(manager).memory_pool_staging,
{
    let was = old(manager).memory_uniforms;
    let now = final(manager).memory_uniforms;
    let (live, handle) = choose|live: Liveness, handle: Result<ManagedMemoryHandle, IoError>|
        {
            &&& was@.sees(live)
            &&& #[trigger] was@.reserved(size, live, handle, now@)
            &&& refused_by(was.held(), was@, size, live, handle)
            &&& match handle {
                Ok(h) => {
                    &&& r matches Ok(resource)
                    &&& holds_at::<S>(now, size, h, was@.planned(size, live), resource)
                    &&& final(manager).uniforms@ == old(manager).uniforms@.push(h)
                },
                Err(error) => r == Err::<S::Resource, IoError>(error)
                    && final(manager).uniforms@ == old(manager).uniforms@,
            }
        };
    lemma_asked_of(was@, now@, size, live, handle);
    if let Ok(h) = handle {
        lemma_resource_of(now, size, h, was@.planned(size, live), r->Ok_0);
    }
}

/// Releasing the uniforms keeps none and touches no memory.
pub proof fn law_uniforms_are_released<S: ComputeStorage>(manager: &mut WgpuMemManager<S>, r: ())
    requires
        call_ensures(WgpuMemManager::<S>::release_uniforms, (manager,), r),
    ensures
        final(manager).uniforms@.len() == 0,
        final(manager).memory_pool == old(manager).memory_pool,
        final(manager).memory_uniforms == old(manager).memory_uniforms,
        final(manager).memory_pool_staging == old(manager).memory_pool_staging,
{
}

/// Imported memory is found in main memory, all of it, and cannot be written.
pub proof fn law_imported_memory_is_found<S: ComputeStorage>(
    manager: &mut WgpuMemManager<S>,
    storage: StorageHandle,
    r: ManagedMemoryHandle,
)
    requires
        old(manager).wf(),
        old(manager).memory_pool@.outside(storage.id),
        call_ensures(WgpuMemManager::<S>::register_external, (manager, storage), r),
    ensures
        r.read_only(),
        is_memory_of(final(manager).memory_pool@, r.id(), storage),
        final(manager).memory_pool@.pools == old(manager).memory_pool@.pools,
        final(manager).memory_uniforms == old(manager).memory_uniforms,
        final(manager).memory_pool_staging == old(manager).memory_pool_staging,
{
}

/// The mode is that of main memory, where it may change.
pub proof fn law_mode_is_of_main_memory<S: ComputeStorage>(
    manager: &mut WgpuMemManager<S>,
    mode: MemoryAllocationMode,
    r: (),
)
    requires
        old(manager).wf(),
        call_ensures(WgpuMemManager::<S>::mode, (manager, mode), r),
    ensures
        old(manager).memory_pool@.config is Enabled && !old(manager).memory_pool@.forced
            ==> final(manager).memory_pool@.mode == mode,
        !(old(manager).memory_pool@.config is Enabled) || old(manager).memory_pool@.forced
            ==> final(manager).memory_pool@.mode == old(manager).memory_pool@.mode,
        final(manager).memory_uniforms == old(manager).memory_uniforms,
        final(manager).memory_pool_staging == old(manager).memory_pool_staging,
{
}

/// An allocation of host memory is granted exactly if there are as many bytes to address, under
/// an id that was not in use, and all of it.
pub proof fn law_host_memory_is_handed_out(
    storage: &mut BytesStorage,
    size: u64,
    r: Result<StorageHandle, IoError>,
)
    requires
        call_ensures(<BytesStorage as ComputeStorage>::allocate, (storage, size), r),
    ensures
        r is Ok <==> size <= usize::MAX,
        r matches Ok(handle) ==> handle.offset == 0 && handle.size == size && !old(storage).ids().contains(handle.id) && final(storage).ids().contains(handle.id),
        r matches Err(error) ==> error == (IoError::BufferTooBig { size }),
{
}

/// A range of host memory is the range that is asked for, of the allocation that is asked for.
pub proof fn law_host_ranges_are_as_asked(
    storage: &mut BytesStorage,
    handle: StorageHandle,
    r: BytesResource,
)
    requires
        old(storage).ids().contains(handle.id),
        call_ensures(<BytesStorage as ComputeStorage>::get, (storage, &handle), r),
    ensures
        r.id == handle.id && r.offset == handle.offset && r.size == handle.size,
        final(storage).ids() == old(storage).ids(),
{
}

/// A slice of main memory changes hands exactly if the handle holds one there. There is no
/// operation to wait for, and the other memories are left alone.
pub proof fn law_main_memory_changes_hands<S: ComputeStorage>(
    manager: &mut WgpuMemManager<S>,
    reserved: ManagedMemoryHandle,
    new: ManagedMemoryHandle,
    r: Result<(), IoError>,
)
    requires
        old(manager).wf(),
        call_ensures(WgpuMemManager::<S>::bind, (manager, reserved, new), r),
    ensures
        r is Ok <==> held_somewhere(old(manager).memory_pool@, reserved.id()),
        r is Ok ==> changes_hands(
            old(manager).memory_pool@,
            final(manager).memory_pool@,
            reserved.id(),
            new,
            0,
        ),
        r is Err ==> final(manager).memory_pool@.pools == old(manager).memory_pool@.pools,
        final(manager).memory_uniforms == old(manager).memory_uniforms,
        final(manager).memory_pool_staging == old(manager).memory_pool_staging,
        final(manager).uniforms == old(manager).uniforms,
{
    lemma_changes_hands(
        old(manager).memory_pool@,
        reserved.id(),
        new,
        0,
        r,
        final(manager).memory_pool@,
    );
}

/// A cleanup is of main memory alone.
pub proof fn law_main_memory_is_cleaned_up<S: ComputeStorage>(
    manager: &mut WgpuMemManager<S>,
    explicit: bool,
    r: (),
)
    requires
        old(manager).wf(),
        call_ensures(WgpuMemManager::<S>::memory_cleanup, (manager, explicit), r),
    ensures
        cleaned_up(old(manager).memory_pool@, final(manager).memory_pool@),
        final(manager).memory_uniforms == old(manager).memory_uniforms,
        final(manager).memory_pool_staging == old(manager).memory_pool_staging,
        final(manager).uniforms == old(manager).uniforms,
{
    let was = old(manager).memory_pool@;
    let now = final(manager).memory_pool@;
    let live = choose|live: Liveness|
        was.sees(live) && now == #[trigger] was.cleaned(live, explicit);
    lemma_cleaned_up(was, now, live, explicit);
}

/// The usage is that of main memory.
pub proof fn law_usage_is_of_main_memory<S: ComputeStorage>(
    manager: WgpuMemManager<S>,
    r: MemoryUsage,
)
    requires
        manager.wf(),
        manager.memory_pool@.capacity().fits(),
        call_ensures(WgpuMemManager::<S>::memory_usage, (&manager,), r),
    ensures
        r.bytes_reserved == pool_bytes(manager.memory_pool@, manager.memory_pool@.pools.len()),
{
    let m = manager.memory_pool@;
    let live = choose|live: Liveness| m.sees(live) && r@ == #[trigger] m.usage(live);
    lemma_pool_bytes(m, live, m.pools.len());
}

} // verus!
