//! What each call does to a stream.

use vstd::prelude::*;

use crate::cuda::error::ServerError;
use crate::cuda::stream::{
    empties, pins, reserved_for, staging_wanted, AllocationProperty, CudaStreamBackend, HostBuffer,
    Keeper, Stream, StreamErrorMode,
};
use crate::fnv::fold;
use crate::handle::{Binding, Handle};
use crate::memory::error::IoError;
use crate::memory::call_laws::{
    asked_of, cleaned_up, held_somewhere, is_cursor_of, is_resource_of, lemma_asked_of,
    lemma_cleaned_up, lemma_cursor_is_found, lemma_pool_bytes, lemma_resource_of, pool_bytes,
};
use crate::memory::handle::{HandleIds, ManagedMemoryBinding, ManagedMemoryHandle};
use crate::memory::manage::{
    can_configure, configurable, holds_at, refused_by, signature, MemoryManagement,
};
use crate::memory::model::{Liveness, MemoryView};
use crate::memory::options::{
    MemoryAllocationMode, MemoryConfiguration, MemoryDeviceProperties, PersistentMemory,
};
use crate::memory::range_laws::{is_memory_of, is_range_of, leaves_a_range, lemma_resolved};
use crate::memory::storage::{ComputeStorage, StorageHandle};
use crate::memory::table_laws::lemma_first_held;
use crate::memory::usage::MemoryUsage;

verus! {

/// Whether what a stream is and counts is as it was, all but its memory and its errors.
pub open spec fn same_counts<G: ComputeStorage, C: ComputeStorage>(
    was: Stream<G, C>,
    now: Stream<G, C>,
) -> bool {
    &&& now.id == was.id && now.policy == was.policy && now.staged == was.staged
    &&& now.capturing == was.capturing && now.capture_staging == was.capture_staging
}

/// A write is staged exactly if its bytes come from a file, or if staging is on, they are not
/// pinned already, and there are between 256 KiB and 128 MiB of them.
pub proof fn law_writes_are_staged_in_between(
    property: AllocationProperty,
    size: usize,
    enabled: bool,
    r: bool,
)
    requires
        call_ensures(staging_wanted, (property, size, enabled), r),
    ensures
        property is File ==> r,
        property is Pinned ==> !r,
        property is Native || property is Other ==> (r <==> enabled && 256 * 1024 <= size <= 128
            * 1024 * 1024),
{
}

/// An error is registered behind those that are there, and nothing else changes.
pub proof fn law_errors_are_kept_in_order<G: ComputeStorage, C: ComputeStorage>(
    stream: &mut Stream<G, C>,
    error: ServerError,
    r: (),
)
    requires
        call_ensures(Stream::<G, C>::error, (stream, error), r),
    ensures
        final(stream).errors@.len() == old(stream).errors@.len() + 1,
        final(stream).errors@.last() == error,
        forall|i: int|
            0 <= i < old(stream).errors@.len() ==> (#[trigger] final(stream).errors@[i])
                == old(stream).errors@[i],
        final(stream).memory_management_gpu == old(stream).memory_management_gpu,
        final(stream).memory_management_cpu == old(stream).memory_management_cpu,
        same_counts(*old(stream), *final(stream)),
{
}

/// All errors are taken off a stream, in order. Without errors nothing changes.
pub proof fn law_errors_are_taken_off<G: ComputeStorage, C: ComputeStorage>(
    stream: &mut Stream<G, C>,
    r: Vec<ServerError>,
)
    requires
        old(stream).wf(),
        call_ensures(Stream::<G, C>::flush_errors, (stream,), r),
    ensures
        r@ == old(stream).errors@,
        final(stream).errors@.len() == 0,
        final(stream).memory_management_cpu == old(stream).memory_management_cpu,
        r@.len() == 0 ==> final(stream).memory_management_gpu
            == old(stream).memory_management_gpu,
        same_counts(*old(stream), *final(stream)),
{
}

/// A command is refused exactly if there are errors and the mode does not ignore them. It is
/// refused with the errors that the mode takes off, which are all or none; the others stay.
pub proof fn law_errors_refuse_commands<G: ComputeStorage, C: ComputeStorage>(
    stream: &mut Stream<G, C>,
    mode: StreamErrorMode,
    healthy: bool,
    r: Result<(), Vec<ServerError>>,
)
    requires
        old(stream).wf(),
        call_ensures(CudaStreamBackend::is_healthy::<G, C>, (&*old(stream),), healthy),
        call_ensures(Stream::<G, C>::begin_command, (stream, mode), r),
    ensures
        healthy <==> old(stream).errors@.len() == 0,
        r is Err <==> !healthy && !mode.ignore,
        mode.flush ==> final(stream).errors@.len() == 0,
        !mode.flush ==> *final(stream) == *old(stream),
        r matches Err(errors) ==> errors@ + final(stream).errors@ =~= old(stream).errors@,
        same_counts(*old(stream), *final(stream)),
{
}

/// A binding is handed the range of device memory that its handle stands for, cut by as many
/// bytes as it says at the start and at the end.
pub proof fn law_bindings_are_handed_their_range<G: ComputeStorage, C: ComputeStorage>(
    stream: &mut Stream<G, C>,
    binding: Binding,
    r: Result<G::Resource, IoError>,
)
    requires
        old(stream).wf(),
        call_ensures(Stream::<G, C>::resource, (stream, binding), r),
    ensures
        r matches Ok(resource) ==> exists|found: StorageHandle|
            #[trigger] is_memory_of(
                old(stream).memory_management_gpu@,
                binding.memory.id(),
                found,
            ) && is_range_of(
                old(stream).memory_management_gpu.held(),
                found,
                binding.offset_start,
                binding.offset_end,
                resource,
            ),
        r is Err ==> {
            ||| forall|found: StorageHandle|
                !(#[trigger] is_memory_of(
                    old(stream).memory_management_gpu@,
                    binding.memory.id(),
                    found,
                ))
            ||| r->Err_0 == IoError::InvalidHandle && exists|found: StorageHandle|
                #[trigger] is_memory_of(
                    old(stream).memory_management_gpu@,
                    binding.memory.id(),
                    found,
                ) && !leaves_a_range(found, binding.offset_start, binding.offset_end)
        },
        final(stream).memory_management_gpu@ == old(stream).memory_management_gpu@,
        final(stream).memory_management_cpu == old(stream).memory_management_cpu,
        same_counts(*old(stream), *final(stream)),
        final(stream).errors == old(stream).errors,
{
    lemma_resolved(
        old(stream).memory_management_gpu@,
        old(stream).memory_management_gpu.held(),
        binding.memory.id(),
        binding.offset_start,
        binding.offset_end,
        r,
    );
}

/// A host buffer has the size that is asked for. Above 100 MiB it is on the heap unless it is
/// asked to be pinned, and no pinned memory is reserved for it.
pub proof fn law_large_buffers_are_not_pinned<G: ComputeStorage, C: ComputeStorage>(
    stream: &mut Stream<G, C>,
    size: usize,
    marked_pinned: bool,
    r: HostBuffer<C::Resource>,
)
    requires
        old(stream).wf(),
        old(stream).memory_management_cpu@.can_count(),
        call_ensures(Stream::<G, C>::reserve_cpu, (stream, size, marked_pinned), r),
    ensures
        r matches HostBuffer::Heap { size: bytes } ==> bytes == size,
        r matches HostBuffer::Pinned { size: bytes, .. } ==> bytes == size && (marked_pinned
            || size <= 100 * 1024 * 1024),
        size > 100 * 1024 * 1024 && !marked_pinned ==> r is Heap
            && final(stream).memory_management_cpu == old(stream).memory_management_cpu,
        size <= 100 * 1024 * 1024 || marked_pinned ==>
            final(stream).memory_management_cpu@.reserve_count
            == old(stream).memory_management_cpu@.reserve_count + 1,
        final(stream).memory_management_gpu == old(stream).memory_management_gpu,
        same_counts(*old(stream), *final(stream)),
        final(stream).errors == old(stream).errors,
{
}

/// A buffer that a copy reads from is kept by the open capture, behind those that it keeps, if
/// captures own their staging. Else it counts as one more for the queue, of its length.
pub proof fn law_buffers_of_copies_are_kept<G: ComputeStorage, C: ComputeStorage>(
    stream: &mut Stream<G, C>,
    len: usize,
    capture_owns: bool,
    r: Keeper,
)
    requires
        call_ensures(Stream::<G, C>::keep_staged, (stream, len, capture_owns), r),
    ensures
        r is Capture <==> old(stream).capturing && capture_owns,
        r matches Keeper::Capture { index } ==> {
            &&& final(stream).capture_staging@.len() == index + 1
            &&& final(stream).capture_staging@[index as int] == len
            &&& index == old(stream).capture_staging@.len()
            &&& forall|i: int|
                0 <= i < index ==> (#[trigger] final(stream).capture_staging@[i])
                    == old(stream).capture_staging@[i]
            &&& final(stream).staged == old(stream).staged
        },
        r is Queue ==> {
            &&& final(stream).capture_staging == old(stream).capture_staging
            &&& old(stream).staged.bytes_count < u32::MAX ==> final(stream).staged.bytes_count
                == old(stream).staged.bytes_count + 1
            &&& old(stream).staged.bytes_size + len <= u32::MAX
                ==> final(stream).staged.bytes_size == old(stream).staged.bytes_size + len
        },
        final(stream).capturing == old(stream).capturing,
{
}

/// A capture begins where the arena's window is, unless the arena is in use and not open. Then
/// nothing is changed.
pub proof fn law_capture_begins_in_an_open_arena<G: ComputeStorage, C: ComputeStorage>(
    stream: &mut Stream<G, C>,
    arena_enabled: bool,
    open: bool,
    mark: usize,
    r: Option<usize>,
)
    requires
        call_ensures(
            crate::memory::manage::MemoryManagement::<G>::arena_active,
            (&old(stream).memory_management_gpu,),
            open,
        ),
        call_ensures(
            crate::memory::manage::MemoryManagement::<G>::arena_mark,
            (&old(stream).memory_management_gpu,),
            mark,
        ),
        call_ensures(Stream::<G, C>::begin_capture, (stream, arena_enabled), r),
    ensures
        r is None <==> arena_enabled && !open,
        r matches Some(at) ==> at == mark,
        final(stream).capturing <==> r is Some || old(stream).capturing,
        final(stream).memory_management_gpu == old(stream).memory_management_gpu,
        final(stream).memory_management_cpu == old(stream).memory_management_cpu,
        final(stream).errors == old(stream).errors,
        final(stream).staged == old(stream).staged,
        final(stream).capture_staging == old(stream).capture_staging,
{
}

/// The end of a capture gives out the pinned buffers that it kept, in order, and keeps none.
/// The signature is that of the sizes that the arena was asked for since the mark.
pub proof fn law_capture_ends_with_its_buffers<G: ComputeStorage, C: ComputeStorage>(
    stream: &mut Stream<G, C>,
    mark: usize,
    r: (u64, Vec<usize>),
)
    requires
        call_ensures(Stream::<G, C>::end_capture, (stream, mark), r),
    ensures
        r.1@ == old(stream).capture_staging@,
        final(stream).capture_staging@.len() == 0,
        !final(stream).capturing,
        mark <= old(stream).memory_management_gpu@.arena_sizes.len() ==> r.0 == fold(
            0x1000_0000_01b3,
            0xcbf2_9ce4_8422_2325,
            old(stream).memory_management_gpu@.arena_sizes.skip(mark as int),
        ),
        mark >= old(stream).memory_management_gpu@.arena_sizes.len() ==> r.0
            == 0xcbf2_9ce4_8422_2325,
        final(stream).memory_management_gpu == old(stream).memory_management_gpu,
        final(stream).memory_management_cpu == old(stream).memory_management_cpu,
        final(stream).errors == old(stream).errors,
        final(stream).staged == old(stream).staged,
{
    let sizes = old(stream).memory_management_gpu@.arena_sizes;
    assert(sizes.skip(sizes.len() as int) =~= Seq::<u64>::empty());
}

/// A window has the same signature wherever it begins: what was asked for before does not
/// count.
pub proof fn law_signature_is_of_the_window(a: Seq<u64>, b: Seq<u64>, i: int, j: int)
    requires
        0 <= i <= a.len(),
        0 <= j <= b.len(),
        a.skip(i) == b.skip(j),
    ensures
        signature(a, i) == signature(b, j),
{
}

/// The queue lets go of its buffers exactly if a limit is reached and no capture is open. Then
/// it counts anew.
pub proof fn law_queue_waits_for_captures<G: ComputeStorage, C: ComputeStorage>(
    stream: Stream<G, C>,
    r: bool,
)
    requires
        call_ensures(Stream::<G, C>::flush_due, (&stream,), r),
    ensures
        stream.capturing ==> !r,
        !stream.capturing ==> (r <==> stream.staged.bytes_count >= stream.policy.max_bytes_count
            || stream.staged.bytes_size >= stream.policy.max_bytes_size),
{
}

/// A flush counts nothing, and changes nothing else.
pub proof fn law_flush_counts_anew<G: ComputeStorage, C: ComputeStorage>(
    stream: &mut Stream<G, C>,
    r: (),
)
    requires
        call_ensures(Stream::<G, C>::flushed, (stream,), r),
    ensures
        final(stream).staged.bytes_count == 0,
        final(stream).staged.bytes_size == 0,
        final(stream).memory_management_gpu == old(stream).memory_management_gpu,
        final(stream).memory_management_cpu == old(stream).memory_management_cpu,
        final(stream).errors == old(stream).errors,
        final(stream).capturing == old(stream).capturing,
        final(stream).capture_staging == old(stream).capture_staging,
{
}

/// A handle to registered memory stands for all of it and cannot be written.
pub proof fn law_registered_memory_is_all_of_it<G: ComputeStorage, C: ComputeStorage>(
    stream: &mut Stream<G, C>,
    storage: StorageHandle,
    size: u64,
    r: Handle,
)
    requires
        old(stream).wf(),
        old(stream).memory_management_gpu@.outside(storage.id),
        call_ensures(Stream::<G, C>::register_external, (stream, storage, size), r),
    ensures
        is_memory_of(final(stream).memory_management_gpu@, r.memory.id(), storage),
        final(stream).memory_management_gpu@.external.contains_key(r.memory.id()),
        r.memory.read_only(),
        r.stream == old(stream).id,
        r.bytes == size,
        r.offset_start is None && r.offset_end is None,
        final(stream).memory_management_gpu@.pools == old(stream).memory_management_gpu@.pools,
{
}

/// The mode of device memory is the one asked for exactly where the configuration leaves it
/// open and none was provided.
pub proof fn law_mode_is_set_where_it_may_be<G: ComputeStorage, C: ComputeStorage>(
    stream: &mut Stream<G, C>,
    mode: MemoryAllocationMode,
    r: (),
)
    requires
        old(stream).wf(),
        call_ensures(Stream::<G, C>::allocation_mode, (stream, mode), r),
    ensures
        ({
            let was = old(stream).memory_management_gpu@;
            let now = final(stream).memory_management_gpu@;
            &&& was.config == PersistentMemory::Enabled && !was.forced ==> now.mode == mode
            &&& was.config != PersistentMemory::Enabled || was.forced ==> now.mode == was.mode
            &&& now.pools == was.pools && now.external == was.external && now.forced == was.forced
        }),
        final(stream).memory_management_cpu == old(stream).memory_management_cpu,
{
}

/// A new stream has no errors, nothing staged and no capture. The mode of its device memory is
/// persistent exactly if the configuration enforces that; pinned memory never is, whatever the
/// mode is set to later. All offsets keep to the alignment of their memory.
pub proof fn law_new_stream_has_nothing<G: ComputeStorage, C: ComputeStorage>(
    backend: CudaStreamBackend,
    id: u64,
    storage: G,
    pinned: C,
    mem_config: MemoryConfiguration,
    pinned_config: MemoryConfiguration,
    ids: HandleIds,
    r: Stream<G, C>,
    k: int,
)
    requires
        configurable(mem_config, backend.mem_props),
        configurable(pinned_config, backend.pinned_props()),
        call_ensures(
            CudaStreamBackend::create_stream::<G, C>,
            (&backend, id, storage, pinned, mem_config, pinned_config, ids),
            r,
        ),
    ensures
        r.id == id,
        r.errors@.len() == 0 && r.capture_staging@.len() == 0 && !r.capturing,
        r.staged.bytes_count == 0 && r.staged.bytes_size == 0,
        r.policy == backend.policy,
        r.memory_management_gpu@.mode is Persistent <==> backend.persistent
            == PersistentMemory::Enforced,
        !r.memory_management_gpu@.forced,
        r.memory_management_gpu@.config == backend.persistent,
        r.memory_management_cpu@.mode is Auto && r.memory_management_cpu@.forced,
        !r.memory_management_gpu@.arena_active && !r.memory_management_cpu@.arena_active,
        0 <= k < r.memory_management_gpu@.pools.len() ==> {
            &&& r.memory_management_gpu@.pools[k].alignment == backend.mem_props.alignment
            &&& r.memory_management_gpu@.pools[k].table.len() == 0
        },
        0 <= k < r.memory_management_cpu@.pools.len() ==> {
            &&& r.memory_management_cpu@.pools[k].alignment == backend.pinned_alignment
            &&& r.memory_management_cpu@.pools[k].table.len() == 0
        },
{
}

/// Whether a handle holds a slice at a cursor, on a page with a slice of so many bytes.
pub open spec fn held_at(
    m: MemoryView,
    memory: ManagedMemoryHandle,
    size: u64,
    cursor: u64,
) -> bool {
    exists|k: int, p: int, i: int, j: int|
        {
            &&& 0 <= k < m.pools.len()
            &&& 0 <= p < m.pools[k].table.len()
            &&& m.pools[k].table[p] is Some
            &&& 0 <= i < m.pools[k].table[p]->0.slices.len()
            &&& 0 <= j < m.pools[k].table[p]->0.slices.len()
            &&& (#[trigger] m.pools[k].table[p]->0.slices[i]).handle == memory
            &&& m.pools[k].table[p]->0.slices[i].cursor == cursor
            &&& (#[trigger] m.pools[k].table[p]->0.slices[j]).storage.size == size
        }
}

/// What a reservation for a handle comes to.
pub proof fn lemma_reserved_for<G: ComputeStorage>(
    storage: G,
    before: MemoryView,
    size: u64,
    handle: ManagedMemoryHandle,
    cursor: u64,
    reserved: Result<ManagedMemoryHandle, IoError>,
    after: MemoryView,
)
    requires
        before.can_count(),
        reserved_for(storage, before, size, handle, cursor, reserved, after),
    ensures
        reserved is Ok ==> held_at(after, handle, size, cursor),
        reserved is Err ==> after.pools == before.pools && after.allocated == before.allocated,
        after.reserve_count == before.reserve_count + 1,
        after.external == before.external,
        before.arena_active ==> after.arena_sizes == before.arena_sizes.push(size),
        !before.arena_active ==> after.arena_sizes == before.arena_sizes,
{
    let (live, mid) = choose|live: Liveness, mid: MemoryView|
        {
            &&& before.sees(live)
            &&& #[trigger] before.reserved(size, live, reserved, mid)
            &&& refused_by(storage, before, size, live, reserved)
            &&& match reserved {
                Ok(slice) => {
                    let location = before.planned(size, live);
                    &&& mid.placed(size, slice, location)
                    &&& after == mid.bound(slice.id(), location, handle, cursor)
                },
                Err(_) => after == mid,
            }
        };
    if let Ok(slice) = reserved {
        let location = before.planned(size, live);
        let k = mid.pool_of(location.pool);
        let p = location.page as int;
        let slices = mid.pools[k].table[p]->0.slices;
        lemma_first_held(slices, slice.id());
        let j = choose|j: int|
            0 <= j < slices.len() && (#[trigger] slices[j]).handle == slice
                && slices[j].storage.size == size;
        assert(slices[j].handle.id() == slice.id());
        let i = crate::memory::page::slice_of(slices, slice.id())->0;
        assert(after.pools[k].table[p]->0.slices[i].handle == handle);
        assert(after.pools[k].table[p]->0.slices[j].storage.size == size);
    }
}

/// Memory that is initialised for a handle is held by it, at the cursor that is given. Where it
/// cannot be had no pool changes. Either way the request is counted once, and the host's memory
/// is left alone.
pub proof fn law_initialised_memory_is_held<G: ComputeStorage, C: ComputeStorage>(
    stream: &mut Stream<G, C>,
    memory: ManagedMemoryHandle,
    size: u64,
    cursor: u64,
    r: Result<(), IoError>,
)
    requires
        old(stream).wf(),
        old(stream).memory_management_gpu@.can_count(),
        call_ensures(Stream::<G, C>::initialize_memory, (stream, memory, size, cursor), r),
    ensures
        r is Ok ==> held_at(final(stream).memory_management_gpu@, memory, size, cursor),
        r is Err ==> final(stream).memory_management_gpu@.pools
            == old(stream).memory_management_gpu@.pools,
        final(stream).memory_management_gpu@.reserve_count
            == old(stream).memory_management_gpu@.reserve_count + 1,
        final(stream).memory_management_cpu == old(stream).memory_management_cpu,
        final(stream).errors == old(stream).errors,
        same_counts(*old(stream), *final(stream)),
{
    let reserved = choose|reserved: Result<ManagedMemoryHandle, IoError>|
        {
            &&& #[trigger] reserved_for(
                old(stream).memory_management_gpu.held(),
                old(stream).memory_management_gpu@,
                size,
                memory,
                cursor,
                reserved,
                final(stream).memory_management_gpu@,
            )
            &&& match reserved {
                Ok(_) => r is Ok,
                Err(error) => r == Err::<(), IoError>(error),
            }
        };
    lemma_reserved_for(
        old(stream).memory_management_gpu.held(),
        old(stream).memory_management_gpu@,
        size,
        memory,
        cursor,
        reserved,
        final(stream).memory_management_gpu@,
    );
}

/// What a handle to new memory is, and what it costs: all of the memory that was asked for, held
/// under an id that was not known, on the stream that was asked.
pub open spec fn new_memory<G: ComputeStorage, C: ComputeStorage>(
    was: Stream<G, C>,
    now: Stream<G, C>,
    size: u64,
    cursor: u64,
    r: Result<Handle, IoError>,
) -> bool {
    &&& r matches Ok(handle) ==> {
        &&& held_at(now.memory_management_gpu@, handle.memory, size, cursor)
        &&& handle.stream == was.id
        &&& handle.bytes == size
        &&& handle.offset_start is None
        &&& handle.offset_end is None
        &&& !handle.memory.read_only()
        &&& was.memory_management_gpu@.next_id <= handle.memory.id()
    }
    &&& r is Err ==> now.memory_management_gpu@.pools == was.memory_management_gpu@.pools
    &&& now.memory_management_gpu@.reserve_count == was.memory_management_gpu@.reserve_count + 1
    &&& now.memory_management_cpu == was.memory_management_cpu
    &&& now.errors == was.errors
    &&& same_counts(was, now)
}

/// What making a handle to new memory comes to.
pub proof fn lemma_new_memory<G: ComputeStorage, C: ComputeStorage>(
    was: Stream<G, C>,
    now: Stream<G, C>,
    size: u64,
    cursor: u64,
    r: Result<Handle, IoError>,
)
    requires
        was.memory_management_gpu@.can_count(),
        empties(was, now, size, cursor, r),
    ensures
        new_memory(was, now, size, cursor, r),
{
    let (memory, reserved) = choose|
        memory: ManagedMemoryHandle,
        reserved: Result<ManagedMemoryHandle, IoError>,
    |
        {
            &&& was.memory_management_gpu@.next_id <= memory.id()
            &&& !memory.read_only()
            &&& #[trigger] reserved_for(
                was.memory_management_gpu.held(),
                was.memory_management_gpu@.naming(memory.id()),
                size,
                memory,
                cursor,
                reserved,
                now.memory_management_gpu@,
            )
            &&& match reserved {
                Ok(_) => r == Ok::<Handle, IoError>(
                    Handle {
                        memory,
                        stream: was.id,
                        offset_start: None,
                        offset_end: None,
                        bytes: size,
                    },
                ),
                Err(error) => r == Err::<Handle, IoError>(error),
            }
        };
    lemma_reserved_for(
        was.memory_management_gpu.held(),
        was.memory_management_gpu@.naming(memory.id()),
        size,
        memory,
        cursor,
        reserved,
        now.memory_management_gpu@,
    );
}

/// A handle to new memory is all of what was asked for, on the stream that was asked.
pub proof fn law_new_memory_is_all_of_it<G: ComputeStorage, C: ComputeStorage>(
    stream: &mut Stream<G, C>,
    size: u64,
    cursor: u64,
    r: Result<Handle, IoError>,
)
    requires
        old(stream).wf(),
        old(stream).memory_management_gpu@.can_count(),
        call_ensures(Stream::<G, C>::empty, (stream, size, cursor), r),
    ensures
        new_memory(*old(stream), *final(stream), size, cursor, r),
{
    lemma_new_memory(*old(stream), *final(stream), size, cursor, r);
}

/// Device memory is reserved of the size that is asked for, and the host's is left alone.
pub proof fn law_device_memory_is_reserved<G: ComputeStorage, C: ComputeStorage>(
    stream: &mut Stream<G, C>,
    size: u64,
    r: Result<ManagedMemoryHandle, IoError>,
)
    requires
        old(stream).wf(),
        old(stream).memory_management_gpu@.can_count(),
        call_ensures(Stream::<G, C>::reserve, (stream, size), r),
    ensures
        asked_of(
            old(stream).memory_management_gpu@,
            final(stream).memory_management_gpu@,
            size,
            r,
        ),
        final(stream).memory_management_cpu == old(stream).memory_management_cpu,
        final(stream).errors == old(stream).errors,
        same_counts(*old(stream), *final(stream)),
{
    let was = old(stream).memory_management_gpu@;
    let now = final(stream).memory_management_gpu@;
    let live = choose|live: Liveness|
        {
            &&& was.sees(live)
            &&& #[trigger] was.reserved(size, live, r, now)
            &&& refused_by(old(stream).memory_management_gpu.held(), was, size, live, r)
        };
    lemma_asked_of(was, now, size, live, r);
}

/// Whether pinned memory was asked for: what is handed out is under the binding of a slice of
/// that size.
pub open spec fn pinned_of(
    was: MemoryView,
    now: MemoryView,
    size: u64,
    binding: Option<ManagedMemoryBinding>,
) -> bool {
    &&& binding matches Some(binding) ==> asked_of(was, now, size, Ok(binding.of()))
    &&& binding is None ==> now.pools == was.pools && now.reserve_count == was.reserve_count + 1
}

/// What asking for pinned memory comes to.
pub proof fn lemma_pinned_of<C: ComputeStorage>(
    before: MemoryManagement<C>,
    size: u64,
    r: Option<(ManagedMemoryBinding, C::Resource)>,
    after: MemoryManagement<C>,
)
    requires
        before@.wf(),
        before@.can_count(),
        pins(before, size, r, after),
    ensures
        r matches Some((binding, resource)) ==> pinned_of(before@, after@, size, Some(binding))
            && is_resource_of(after, binding.id(), resource),
        r is None ==> pinned_of(before@, after@, size, None),
{
    let (live, reserved) = choose|live: Liveness, reserved: Result<ManagedMemoryHandle, IoError>|
        {
            &&& before@.sees(live)
            &&& #[trigger] before@.reserved(size, live, reserved, after@)
            &&& refused_by(before.held(), before@, size, live, reserved)
            &&& match r {
                Some((binding, resource)) => {
                    &&& reserved matches Ok(handle)
                    &&& binding.of() == handle
                    &&& binding.id() == handle.id()
                    &&& holds_at::<C>(
                        after,
                        size,
                        handle,
                        before@.planned(size, live),
                        resource,
                    )
                },
                None => reserved is Err,
            }
        };
    lemma_asked_of(before@, after@, size, live, reserved);
    if let Some((binding, resource)) = r {
        lemma_resource_of(after, size, binding.of(), before@.planned(size, live), resource);
    }
}

/// Pinned memory is reserved of the size that is asked for, and the device's is left alone.
pub proof fn law_pinned_memory_is_reserved<G: ComputeStorage, C: ComputeStorage>(
    stream: &mut Stream<G, C>,
    size: usize,
    r: Option<(ManagedMemoryBinding, C::Resource)>,
)
    requires
        old(stream).wf(),
        old(stream).memory_management_cpu@.can_count(),
        call_ensures(Stream::<G, C>::reserve_pinned, (stream, size), r),
    ensures
        r matches Some((binding, resource)) ==> pinned_of(
            old(stream).memory_management_cpu@,
            final(stream).memory_management_cpu@,
            size as u64,
            Some(binding),
        ) && is_resource_of(final(stream).memory_management_cpu, binding.id(), resource),
        r is None ==> pinned_of(
            old(stream).memory_management_cpu@,
            final(stream).memory_management_cpu@,
            size as u64,
            None,
        ),
        final(stream).memory_management_gpu == old(stream).memory_management_gpu,
        final(stream).errors == old(stream).errors,
        same_counts(*old(stream), *final(stream)),
{
    lemma_pinned_of(
        old(stream).memory_management_cpu,
        size as u64,
        r,
        final(stream).memory_management_cpu,
    );
}

/// Cleaning a stream up is cleaning its device memory up.
pub proof fn law_device_memory_is_cleaned_up<G: ComputeStorage, C: ComputeStorage>(
    stream: &mut Stream<G, C>,
    r: (),
)
    requires
        old(stream).wf(),
        call_ensures(Stream::<G, C>::memory_cleanup, (stream,), r),
    ensures
        cleaned_up(
            old(stream).memory_management_gpu@,
            final(stream).memory_management_gpu@,
        ),
        final(stream).memory_management_cpu == old(stream).memory_management_cpu,
        final(stream).errors == old(stream).errors,
        same_counts(*old(stream), *final(stream)),
{
    let was = old(stream).memory_management_gpu@;
    let live = choose|live: Liveness|
        was.sees(live) && final(stream).memory_management_gpu@ == #[trigger] was.cleaned(
            live,
            true,
        );
    lemma_cleaned_up(was, final(stream).memory_management_gpu@, live, true);
}

/// The usage of a stream is that of its device memory.
pub proof fn law_usage_is_of_device_memory<G: ComputeStorage, C: ComputeStorage>(
    stream: Stream<G, C>,
    r: MemoryUsage,
)
    requires
        stream.wf(),
        stream.memory_management_gpu@.capacity().fits(),
        call_ensures(Stream::<G, C>::memory_usage, (&stream,), r),
    ensures
        r.bytes_reserved == pool_bytes(
            stream.memory_management_gpu@,
            stream.memory_management_gpu@.pools.len(),
        ),
{
    let m = stream.memory_management_gpu@;
    let live = choose|live: Liveness| m.sees(live) && r@ == #[trigger] m.usage(live);
    lemma_pool_bytes(m, live, m.pools.len());
}

/// The cursor of a binding is that of its handle in device memory.
pub proof fn law_cursors_are_of_device_memory<G: ComputeStorage, C: ComputeStorage>(
    stream: Stream<G, C>,
    binding: Binding,
    r: Result<u64, IoError>,
)
    requires
        stream.wf(),
        call_ensures(CudaStreamBackend::handle_cursor::<G, C>, (&stream, &binding), r),
    ensures
        r is Ok <==> stream.memory_management_gpu@.external.contains_key(binding.memory.id())
            || held_somewhere(stream.memory_management_gpu@, binding.memory.id()),
        r matches Ok(found) ==> is_cursor_of(
            stream.memory_management_gpu@,
            binding.memory.id(),
            found,
        ),
{
    lemma_cursor_is_found(stream.memory_management_gpu@, binding.memory.id(), r);
}

/// A stream can be made exactly if both of its memories can. Pages of pinned memory are as
/// large as those of the device, at an alignment of their own.
pub proof fn law_streams_need_both_memories(
    backend: CudaStreamBackend,
    device: MemoryConfiguration,
    pinned: MemoryConfiguration,
    pinned_properties: MemoryDeviceProperties,
    a: bool,
    b: bool,
    r: bool,
)
    requires
        pinned_properties.max_page_size == backend.mem_props.max_page_size,
        pinned_properties.alignment == backend.pinned_alignment,
        call_ensures(can_configure, (&device, &backend.mem_props), a),
        call_ensures(can_configure, (&pinned, &pinned_properties), b),
        call_ensures(CudaStreamBackend::can_create, (&backend, &device, &pinned), r),
    ensures
        r <==> a && b,
{
    assert(pinned_properties == backend.pinned_props());
}

} // verus!
