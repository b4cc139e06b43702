//! A stream: its memory, its errors, and what it keeps for copies that are under way.

use vstd::prelude::*;

use crate::cuda::error::ServerError;
use crate::first::lemma_first_from;
use crate::handle::{Binding, Handle};
use crate::memory::error::IoError;
use crate::memory::handle::{
    HandleIds, ManagedMemoryBinding, ManagedMemoryHandle, MemoryLocation,
};
use crate::memory::manage::{
    can_configure, configurable, fresh, handle_of, holds_at, pools_for, refused_by, resolves_from,
    signature, sought_cursor, MemoryManagement,
};
use crate::memory::model::{Liveness, MemoryView};
use crate::memory::options::{
    initial_mode, pool_options_for, MemoryAllocationMode, MemoryAllocationOption,
    MemoryConfiguration, MemoryDeviceProperties, MemoryManagementOptions, PersistentMemory,
};
use crate::memory::storage::{ComputeStorage, StorageHandle};
use crate::memory::usage::MemoryUsage;
use crate::policy::{FlushingPolicy, FlushingPolicyState};

verus! {

/// From how many bytes on a host buffer is not pinned unless it is asked to be: above 100
/// MB.
pub const PINNED_LIMIT: usize = 104_857_600;

/// The smallest write that is worth staging in pinned memory: 256 KiB.
pub const PINNED_STAGING_MIN: usize = 262_144;

/// The largest write that is staged in pinned memory: 128 MiB. Pinned pages cannot be
/// reclaimed.
pub const PINNED_STAGING_MAX: usize = 134_217_728;

/// Where host bytes come from.
#[derive(Clone, Copy, Debug, PartialEq, Eq, Structural)]
pub enum AllocationProperty {
    /// From the heap.
    Native,
    /// From pinned memory.
    Pinned,
    /// From a file.
    File,
    /// From elsewhere.
    Other,
}

/// How a command treats the errors of its stream.
#[derive(Clone, Copy, Debug, PartialEq, Eq)]
pub struct StreamErrorMode {
    /// Go on despite errors.
    pub ignore: bool,
    /// Take the errors off the stream.
    pub flush: bool,
}

/// A stream, with the memory of the device and pinned memory of the host.
pub struct Stream<G: ComputeStorage, C: ComputeStorage> {
    /// Which stream.
    pub id: u64,
    pub memory_management_gpu: MemoryManagement<G>,
    pub memory_management_cpu: MemoryManagement<C>,
    pub errors: Vec<ServerError>,
    /// When the buffers of copies under way are let go.
    pub policy: FlushingPolicy,
    /// How many of them there are.
    pub staged: FlushingPolicyState,
    /// Set while a graph capture is open. Nothing on the launch path may block the host
    /// while this is true: inside a capture there is no progress to wait for.
    pub capturing: bool,
    /// The lengths of the pinned buffers that copies recorded into a graph read from. The
    /// copy has not run and will not run until a replay, so the capture owns them.
    pub capture_staging: Vec<usize>,
    /// What handles are numbered from.
    pub ids: HandleIds,
}

/// Whether a binding resolves to this, on a memory over this storage.
pub open spec fn resolves_to<G: ComputeStorage>(
    m: MemoryView,
    storage: G,
    binding: Binding,
    r: Result<G::Resource, IoError>,
) -> bool {
    resolves_from(m, storage, binding.memory.id(), binding.offset_start, binding.offset_end, r)
}

/// What a reservation of device memory comes to, once it is given to a handle. It fails only
/// where no pool takes it, or as the storage refuses the page that it needs.
pub open spec fn reserved_for<G: ComputeStorage>(
    storage: G,
    before: MemoryView,
    size: u64,
    handle: ManagedMemoryHandle,
    cursor: u64,
    reserved: Result<ManagedMemoryHandle, IoError>,
    after: MemoryView,
) -> bool {
    exists|live: Liveness, mid: MemoryView|
        {
            &&& before.sees(live)
            &&& #[trigger] before.reserved(size, live, reserved, mid)
            &&& refused_by(storage, before, size, live, reserved)
            &&& match reserved {
                Ok(slice) => {
                    let location = before.planned(size, live);
                    &&& mid.placed(size, slice, location)
                    &&& after == mid.bound(slice.id(), location, handle, cursor)
                },
                Err(_) => after == mid,
            }
        }
}

/// Whether making a handle to new device memory can come to this on a stream. The handle has
/// an id that was not known, and is not read only.
pub open spec fn empties<G: ComputeStorage, C: ComputeStorage>(
    before: Stream<G, C>,
    after: Stream<G, C>,
    size: u64,
    cursor: u64,
    r: Result<Handle, IoError>,
) -> bool {
    &&& after.same_state(before)
    &&& after.memory_management_cpu == before.memory_management_cpu
    &&& exists|memory: ManagedMemoryHandle, reserved: Result<ManagedMemoryHandle, IoError>|
        {
            &&& before.memory_management_gpu@.next_id <= memory.id()
            &&& !memory.read_only()
            &&& #[trigger] reserved_for(
                before.memory_management_gpu.held(),
                before.memory_management_gpu@.naming(memory.id()),
                size,
                memory,
                cursor,
                reserved,
                after.memory_management_gpu@,
            )
            &&& match reserved {
                Ok(_) => r == Ok::<Handle, IoError>(
                    Handle {
                        memory,
                        stream: before.id,
                        offset_start: None,
                        offset_end: None,
                        bytes: size,
                    },
                ),
                Err(error) => r == Err::<Handle, IoError>(error),
            }
        }
}

/// Whether a reservation of pinned memory can come to this: what is handed out is the slice
/// that was reserved, and what it looks like. There is none only where no pool takes it, or as
/// the storage refuses the page that it needs.
pub open spec fn pins<C: ComputeStorage>(
    before: MemoryManagement<C>,
    size: u64,
    r: Option<(ManagedMemoryBinding, C::Resource)>,
    after: MemoryManagement<C>,
) -> bool {
    exists|live: Liveness, reserved: Result<ManagedMemoryHandle, IoError>|
        {
            &&& before@.sees(live)
            &&& #[trigger] before@.reserved(size, live, reserved, after@)
            &&& refused_by(before.held(), before@, size, live, reserved)
            &&& match r {
                Some((binding, resource)) => {
                    &&& reserved matches Ok(handle)
                    &&& binding.of() == handle
                    &&& binding.id() == handle.id()
                    &&& holds_at::<C>(
                        after,
                        size,
                        handle,
                        before@.planned(size, live),
                        resource,
                    )
                },
                None => reserved is Err,
            }
        }
}

/// Where host bytes go.
pub enum HostBuffer<R> {
    /// To the heap.
    Heap { size: usize },
    /// To pinned memory.
    Pinned { binding: ManagedMemoryBinding, resource: R, size: usize },
}

impl<R> HostBuffer<R> {
    /// How many bytes the buffer has.
    pub open spec fn len(self) -> int {
        match self {
            HostBuffer::Heap { size } => size as int,
            HostBuffer::Pinned { size, .. } => size as int,
        }
    }

    /// The pinned memory, if it is pinned.
    pub open spec fn pinned(self) -> Option<(ManagedMemoryBinding, R)> {
        match self {
            HostBuffer::Heap { .. } => None,
            HostBuffer::Pinned { binding, resource, .. } => Some((binding, resource)),
        }
    }
}

/// Whether a host buffer of this size is to be pinned.
pub open spec fn wants_pinned(size: usize, marked_pinned: bool) -> bool {
    marked_pinned || size <= PINNED_LIMIT
}

/// Whether a write is first copied into pinned memory. Bytes of a file always are.
pub open spec fn stages(property: AllocationProperty, size: usize, enabled: bool) -> bool {
    match property {
        AllocationProperty::File => true,
        AllocationProperty::Native | AllocationProperty::Other => enabled && PINNED_STAGING_MIN
            <= size <= PINNED_STAGING_MAX,
        AllocationProperty::Pinned => false,
    }
}

/// Whether a write is first copied into pinned memory. Below the floor the extra copy costs
/// more than it saves; above the ceiling too much would be pinned for good.
pub fn staging_wanted(property: AllocationProperty, size: usize, enabled: bool) -> (r: bool)
    ensures
        r == stages(property, size, enabled),
{
    match property {
        AllocationProperty::File => true,
        AllocationProperty::Native | AllocationProperty::Other => enabled && PINNED_STAGING_MIN
            <= size && size <= PINNED_STAGING_MAX,
        AllocationProperty::Pinned => false,
    }
}

/// Who keeps the buffer of a copy.
#[derive(Clone, Copy, Debug, PartialEq, Eq)]
pub enum Keeper {
    /// The queue of the stream, until the copy has run.
    Queue,
    /// The open capture, as its buffer of this number.
    Capture { index: usize },
}

/// A slice is found by a handle that was placed on its page.
proof fn lemma_placed_is_found(
    m: MemoryView,
    size: u64,
    handle: ManagedMemoryHandle,
    location: MemoryLocation,
)
    requires
        m.placed(size, handle, location),
    ensures
        m.find(handle.id(), location) is Ok,
        m.storage_of(handle.id(), location) is Ok,
{
    let k = m.pool_of(location.pool);
    let slices = m.pools[k].table[location.page as int]->0.slices;
    let held = |n: int| slices[n].handle.id() == handle.id();
    lemma_first_from(0, slices.len() as int, held);
    let i = choose|i: int|
        0 <= i < slices.len() && (#[trigger] slices[i]).handle == handle
            && slices[i].storage.size == size;
    assert(held(i));
}

impl<G: ComputeStorage, C: ComputeStorage> Stream<G, C> {
    /// The invariant.
    pub open spec fn wf(self) -> bool {
        &&& self.memory_management_gpu@.wf()
        &&& self.memory_management_gpu@.external_wf()
        &&& self.memory_management_cpu@.wf()
        &&& self.memory_management_cpu@.external_wf()
    }

    /// Everything but the memory is as it was.
    pub open spec fn same_state(self, other: Self) -> bool {
        &&& self.id == other.id
        &&& self.errors == other.errors
        &&& self.policy == other.policy
        &&& self.staged == other.staged
        &&& self.capturing == other.capturing
        &&& self.capture_staging == other.capture_staging
        &&& self.ids == other.ids
    }

    /// Whether this is a stream whose errors were taken off: nothing else changed but the
    /// device memory, which was cleaned up if there were any.
    pub open spec fn flushed_from(self, before: Self) -> bool {
        &&& self.errors@ == Seq::<ServerError>::empty()
        &&& self.memory_management_cpu == before.memory_management_cpu
        &&& self.capturing == before.capturing
        &&& self.capture_staging == before.capture_staging
        &&& self.staged == before.staged
        &&& self.policy == before.policy
        &&& self.id == before.id
        &&& self.ids == before.ids
        &&& if before.errors@.len() == 0 {
            self.memory_management_gpu == before.memory_management_gpu
        } else {
            exists|live: Liveness|
                before.memory_management_gpu@.sees(live) && self.memory_management_gpu@
                    == #[trigger] before.memory_management_gpu@.cleaned(live, false)
        }
    }

    /// Registers an error on the stream.
    pub fn error(&mut self, error: ServerError)
        ensures
            final(self).errors@ == old(self).errors@.push(error),
            *final(self) == (Stream { errors: final(self).errors, ..*old(self) }),
    {
        self.errors.push(error);
    }

    /// Takes the errors off the stream. If there were any, the device memory is cleaned up,
    /// as far as it need not be asked for.
    pub fn flush_errors(&mut self) -> (r: Vec<ServerError>)
        requires
            old(self).wf(),
        ensures
            final(self).wf(),
            r@ == old(self).errors@,
            final(self).flushed_from(*old(self)),
    {
        let mut errors: Vec<ServerError> = Vec::new();
        std::mem::swap(&mut errors, &mut self.errors);
        if !errors.is_empty() {
            self.memory_management_gpu.cleanup(false);
        }
        errors
    }

    /// Whether a command may go on. Errors are taken off the stream if the mode says so. Unless
    /// the mode ignores them they refuse the command: those that were taken off are handed
    /// out, and otherwise they stay where they are.
    pub fn begin_command(&mut self, mode: StreamErrorMode) -> (r: Result<(), Vec<ServerError>>)
        requires
            old(self).wf(),
        ensures
            final(self).wf(),
            match r {
                Ok(_) => mode.ignore || old(self).errors@.len() == 0,
                Err(errors) => {
                    &&& !mode.ignore && old(self).errors@.len() > 0
                    &&& errors@ == (if mode.flush {
                        old(self).errors@
                    } else {
                        Seq::<ServerError>::empty()
                    })
                },
            },
            !mode.flush ==> *final(self) == *old(self),
            mode.flush ==> final(self).flushed_from(*old(self)),
    {
        if mode.flush {
            let errors: Vec<ServerError> = self.flush_errors();
            if !mode.ignore && !errors.is_empty() {
                return Err(errors);
            }
            return Ok(());
        }
        if !mode.ignore && !CudaStreamBackend::is_healthy(self) {
            return Err(Vec::new());
        }
        Ok(())
    }

    /// Device memory of this size.
    pub fn reserve(&mut self, size: u64) -> (r: Result<ManagedMemoryHandle, IoError>)
        requires
            old(self).wf(),
            old(self).memory_management_gpu@.can_count(),
        ensures
            final(self).wf(),
            final(self).same_state(*old(self)),
            final(self).memory_management_cpu == old(self).memory_management_cpu,
            exists|live: Liveness|
                {
                    &&& old(self).memory_management_gpu@.sees(live)
                    &&& #[trigger] old(self).memory_management_gpu@.reserved(
                        size,
                        live,
                        r,
                        final(self).memory_management_gpu@,
                    )
                    &&& refused_by(
                        old(self).memory_management_gpu.held(),
                        old(self).memory_management_gpu@,
                        size,
                        live,
                        r,
                    )
                },
    {
        let ghost memory = self.memory_management_gpu;
        let r = self.memory_management_gpu.reserve(size);
        proof {
            let after = self.memory_management_gpu@;
            let live = choose|live: Liveness|
                {
                    &&& memory@.sees(live)
                    &&& #[trigger] memory@.reserved(size, live, r, after)
                    &&& refused_by(memory.held(), memory@, size, live, r)
                };
            assert(memory@.reserved(size, live, r, after));
        }
        r
    }

    /// Reserves device memory and gives it to a handle. Every reservation that succeeds can
    /// be given away.
    pub fn initialize_memory(&mut self, memory: ManagedMemoryHandle, size: u64, cursor: u64) -> (r:
        Result<(), IoError>)
        requires
            old(self).wf(),
            old(self).memory_management_gpu@.can_count(),
        ensures
            final(self).wf(),
            final(self).same_state(*old(self)),
            final(self).memory_management_cpu == old(self).memory_management_cpu,
            exists|reserved: Result<ManagedMemoryHandle, IoError>|
                {
                    &&& #[trigger] reserved_for(
                        old(self).memory_management_gpu.held(),
                        old(self).memory_management_gpu@,
                        size,
                        memory,
                        cursor,
                        reserved,
                        final(self).memory_management_gpu@,
                    )
                    &&& match reserved {
                        Ok(_) => r is Ok,
                        Err(error) => r == Err::<(), IoError>(error),
                    }
                },
    {
        let ghost before = self.memory_management_gpu@;
        let placed = self.memory_management_gpu.reserve_placed(size);
        let ghost mid = self.memory_management_gpu@;
        let ghost live = choose|live: Liveness|
            {
                &&& before.sees(live)
                &&& #[trigger] before.reserved(size, live, handle_of(placed), mid)
                &&& refused_by(
                    old(self).memory_management_gpu.held(),
                    before,
                    size,
                    live,
                    handle_of(placed),
                )
                &&& placed matches Ok((_, location)) ==> location == before.planned(size, live)
            };
        match placed {
            Ok((reserved, location)) => {
                proof {
                    lemma_placed_is_found(mid, size, reserved, location);
                }
                let ghost name = memory;
                let r = self.memory_management_gpu.bind_at(
                    reserved.handle_id(),
                    location,
                    memory,
                    cursor,
                );
                proof {
                    let after = self.memory_management_gpu@;
                    assert(after == mid.bound(reserved.id(), location, name, cursor));
                    assert(before.reserved(size, live, Ok(reserved), mid));
                    assert(reserved_for(
                        old(self).memory_management_gpu.held(),
                        before,
                        size,
                        name,
                        cursor,
                        Ok(reserved),
                        after,
                    ));
                }
                r
            },
            Err(error) => {
                proof {
                    assert(before.reserved(size, live, Err(error), mid));
                    assert(reserved_for(
                        old(self).memory_management_gpu.held(),
                        before,
                        size,
                        memory,
                        cursor,
                        Err(error),
                        mid,
                    ));
                }
                Err(error)
            },
        }
    }

    /// A handle to new device memory.
    pub fn empty(&mut self, size: u64, cursor: u64) -> (r: Result<Handle, IoError>)
        requires
            old(self).wf(),
            old(self).memory_management_gpu@.can_count(),
        ensures
            final(self).wf(),
            empties(*old(self), *final(self), size, cursor, r),
    {
        let memory = self.memory_management_gpu.new_handle();
        match self.initialize_memory(memory.clone(), size, cursor) {
            Ok(_) => Ok(Handle::from_memory(memory, self.id, size)),
            Err(error) => Err(error),
        }
    }

    /// The device memory at a binding of this stream.
    pub fn resource(&mut self, binding: Binding) -> (r: Result<G::Resource, IoError>)
        requires
            old(self).wf(),
        ensures
            final(self).wf(),
            final(self).same_state(*old(self)),
            final(self).memory_management_cpu == old(self).memory_management_cpu,
            final(self).memory_management_gpu@ == old(self).memory_management_gpu@,
            resolves_to::<G>(
                old(self).memory_management_gpu@,
                old(self).memory_management_gpu.held(),
                binding,
                r,
            ),
    {
        self.memory_management_gpu.get_resource(
            binding.memory,
            binding.offset_start,
            binding.offset_end,
        )
    }

    /// Pinned memory of this size, if there is any.
    pub fn reserve_pinned(&mut self, size: usize) -> (r: Option<
        (ManagedMemoryBinding, C::Resource),
    >)
        requires
            old(self).wf(),
            old(self).memory_management_cpu@.can_count(),
        ensures
            final(self).wf(),
            final(self).same_state(*old(self)),
            final(self).memory_management_gpu == old(self).memory_management_gpu,
            pins(
                old(self).memory_management_cpu,
                size as u64,
                r,
                final(self).memory_management_cpu,
            ),
    {
        let ghost before = self.memory_management_cpu@;
        let placed = self.memory_management_cpu.reserve_placed(size as u64);
        let ghost mid = self.memory_management_cpu@;
        let ghost live = choose|live: Liveness|
            {
                &&& before.sees(live)
                &&& #[trigger] before.reserved(size as u64, live, handle_of(placed), mid)
                &&& refused_by(
                    old(self).memory_management_cpu.held(),
                    before,
                    size as u64,
                    live,
                    handle_of(placed),
                )
                &&& placed matches Ok((_, location)) ==> location == before.planned(
                    size as u64,
                    live,
                )
            };
        match placed {
            Ok((handle, location)) => {
                proof {
                    lemma_placed_is_found(mid, size as u64, handle, location);
                }
                let resolved = self.memory_management_cpu.get_resource_at(
                    handle.handle_id(),
                    location,
                    None,
                    None,
                );
                let ghost after = self.memory_management_cpu@;
                assert(after == mid);
                assert(before.reserved(size as u64, live, Ok(handle), after));
                assert(resolved matches Ok(resource) && holds_at::<C>(
                    self.memory_management_cpu,
                    size as u64,
                    handle,
                    location,
                    resource,
                ));
                match resolved {
                    Ok(resource) => Some((handle.binding(), resource)),
                    Err(_) => None,
                }
            },
            Err(error) => {
                assert(before.reserved(size as u64, live, Err(error), mid));
                None
            },
        }
    }

    /// A host buffer: pinned where it is asked to be or is small enough and there is pinned
    /// memory, and else on the heap.
    pub fn reserve_cpu(&mut self, size: usize, marked_pinned: bool) -> (r: HostBuffer<C::Resource>)
        requires
            old(self).wf(),
            old(self).memory_management_cpu@.can_count(),
        ensures
            final(self).wf(),
            final(self).same_state(*old(self)),
            final(self).memory_management_gpu == old(self).memory_management_gpu,
            match r {
                HostBuffer::Heap { size: bytes } => bytes == size,
                HostBuffer::Pinned { size: bytes, .. } => bytes == size && wants_pinned(
                    size,
                    marked_pinned,
                ),
            },
            !wants_pinned(size, marked_pinned) ==> final(self).memory_management_cpu == old(
                self,
            ).memory_management_cpu,
            wants_pinned(size, marked_pinned) ==> pins(
                old(self).memory_management_cpu,
                size as u64,
                r.pinned(),
                final(self).memory_management_cpu,
            ),
    {
        if !marked_pinned && size > PINNED_LIMIT {
            return HostBuffer::Heap { size };
        }
        match self.reserve_pinned(size) {
            Some((binding, resource)) => HostBuffer::Pinned { binding, resource, size },
            None => HostBuffer::Heap { size },
        }
    }

    /// Says who keeps the buffer that a copy reads from. While a capture is open and owns its
    /// staging, the capture does: the copy has not run, and the recorded node holds the
    /// buffer's address. Otherwise the queue does, and lets it go after a while.
    pub fn keep_staged(&mut self, len: usize, capture_owns: bool) -> (r: Keeper)
        ensures
            if old(self).capturing && capture_owns {
                &&& r == (Keeper::Capture { index: old(self).capture_staging.len() })
                &&& final(self).capture_staging@ == old(self).capture_staging@.push(len)
                &&& final(self).staged == old(self).staged
            } else {
                &&& r == Keeper::Queue
                &&& final(self).capture_staging == old(self).capture_staging
                &&& final(self).staged == old(self).staged.with_staged(len as nat)
            },
            final(self).memory_management_gpu == old(self).memory_management_gpu,
            final(self).memory_management_cpu == old(self).memory_management_cpu,
            final(self).errors == old(self).errors,
            final(self).capturing == old(self).capturing,
            final(self).policy == old(self).policy,
            final(self).id == old(self).id,
            final(self).ids == old(self).ids,
    {
        if self.capturing && capture_owns {
            let index: usize = self.capture_staging.len();
            self.capture_staging.push(len);
            Keeper::Capture { index }
        } else {
            self.staged.register_len(len);
            Keeper::Queue
        }
    }

    /// Begins a graph capture on the stream and says where in the arena's window it begins.
    /// With the arena in use it must be open, and else nothing is begun: the addresses that
    /// the capture would record would come from pools that are free to hand them to anything.
    pub fn begin_capture(&mut self, arena_enabled: bool) -> (r: Option<usize>)
        ensures
            if arena_enabled && !old(self).memory_management_gpu@.arena_active {
                &&& r is None
                &&& *final(self) == *old(self)
            } else {
                &&& r == Some(
                    old(self).memory_management_gpu@.arena_sizes.len() as usize,
                )
                &&& *final(self) == (Stream { capturing: true, ..*old(self) })
            },
    {
        if arena_enabled && !self.memory_management_gpu.arena_active() {
            return None;
        }
        let mark: usize = self.memory_management_gpu.arena_mark();
        self.capturing = true;
        Some(mark)
    }

    /// Ends a graph capture on the stream. What comes back is the signature of the sizes that
    /// the arena was asked for since the capture began, and the lengths of the pinned buffers
    /// that it owns from now on.
    pub fn end_capture(&mut self, mark: usize) -> (r: (u64, Vec<usize>))
        ensures
            r.0 == signature(old(self).memory_management_gpu@.arena_sizes, mark as int),
            r.1@ == old(self).capture_staging@,
            final(self).capture_staging@ == Seq::<usize>::empty(),
            *final(self) == (Stream {
                capturing: false,
                capture_staging: final(self).capture_staging,
                ..*old(self)
            }),
    {
        self.capturing = false;
        let mut staging: Vec<usize> = Vec::new();
        std::mem::swap(&mut staging, &mut self.capture_staging);
        (self.memory_management_gpu.arena_signature(mark), staging)
    }

    /// A handle to memory that was registered with the storage rather than reserved: an
    /// allocation of its own, which is no page of a pool.
    pub fn register_external(&mut self, storage: StorageHandle, size: u64) -> (r: Handle)
        requires
            old(self).wf(),
            old(self).memory_management_gpu@.outside(storage.id),
        ensures
            final(self).wf(),
            final(self).same_state(*old(self)),
            final(self).memory_management_cpu == old(self).memory_management_cpu,
            final(self).memory_management_gpu@ == old(self).memory_management_gpu@.registered(
                r.memory.id(),
                storage,
            ),
            r.memory.read_only(),
            old(self).memory_management_gpu@.next_id <= r.memory.id(),
            r.stream == old(self).id,
            r.bytes == size,
            r.offset_start is None,
            r.offset_end is None,
    {
        let memory = self.memory_management_gpu.register_external(storage);
        Handle::from_memory(memory, self.id, size)
    }

    /// Whether the queue lets go of its buffers after a launch. That waits for the device,
    /// which a capture cannot contain, so it is put off while one is open.
    pub fn flush_due(&self) -> (r: bool)
        ensures
            r == (!self.capturing && self.staged.flushes(self.policy)),
    {
        !self.capturing && self.staged.should_flush(&self.policy)
    }

    /// Begins to count the buffers of the queue anew.
    pub fn flushed(&mut self)
        ensures
            *final(self) == (Stream {
                staged: FlushingPolicyState { bytes_count: 0, bytes_size: 0 },
                ..*old(self)
            }),
    {
        self.staged.reset();
    }

    /// The usage of the device memory.
    pub fn memory_usage(&self) -> (r: MemoryUsage)
        requires
            self.wf(),
            self.memory_management_gpu@.capacity().fits(),
        ensures
            exists|live: Liveness|
                self.memory_management_gpu@.sees(live) && r@
                    == #[trigger] self.memory_management_gpu@.usage(live),
    {
        self.memory_management_gpu.memory_usage()
    }

    /// Cleans the device memory up.
    pub fn memory_cleanup(&mut self)
        requires
            old(self).wf(),
        ensures
            final(self).wf(),
            final(self).same_state(*old(self)),
            final(self).memory_management_cpu == old(self).memory_management_cpu,
            exists|live: Liveness|
                old(self).memory_management_gpu@.sees(live)
                    && final(self).memory_management_gpu@ == #[trigger] old(
                    self,
                ).memory_management_gpu@.cleaned(live, true),
    {
        self.memory_management_gpu.cleanup(true);
    }

    /// Sets the mode of allocation of the device memory.
    pub fn allocation_mode(&mut self, mode: MemoryAllocationMode)
        requires
            old(self).wf(),
        ensures
            final(self).wf(),
            final(self).same_state(*old(self)),
            final(self).memory_management_cpu == old(self).memory_management_cpu,
            final(self).memory_management_gpu@ == old(self).memory_management_gpu@.with_mode(mode),
    {
        self.memory_management_gpu.mode(mode);
    }
}

/// What all streams of a device have in common.
pub struct CudaStreamBackend {
    pub mem_props: MemoryDeviceProperties,
    /// What the offset of every slice of pinned memory is a multiple of.
    pub pinned_alignment: u64,
    /// What the configuration says of persistent memory.
    pub persistent: PersistentMemory,
    pub policy: FlushingPolicy,
}

impl CudaStreamBackend {
    /// The properties of pinned memory: the pages of device memory, at an alignment of its
    /// own. The host is expected to have at least as much memory as the device.
    pub open spec fn pinned_props(self) -> MemoryDeviceProperties {
        MemoryDeviceProperties {
            max_page_size: self.mem_props.max_page_size,
            alignment: self.pinned_alignment,
        }
    }

    /// Whether a stream can have memories of these configurations.
    pub fn can_create(
        &self,
        mem_config: &MemoryConfiguration,
        pinned_config: &MemoryConfiguration,
    ) -> (r: bool)
        ensures
            r == (configurable(*mem_config, self.mem_props) && configurable(
                *pinned_config,
                self.pinned_props(),
            )),
    {
        let pinned_props = MemoryDeviceProperties {
            max_page_size: self.mem_props.max_page_size,
            alignment: self.pinned_alignment,
        };
        can_configure(mem_config, &self.mem_props) && can_configure(pinned_config, &pinned_props)
    }

    /// A stream with its two memories, both without pages.
    pub fn create_stream<G: ComputeStorage, C: ComputeStorage>(
        &self,
        id: u64,
        storage: G,
        pinned: C,
        mem_config: MemoryConfiguration,
        pinned_config: MemoryConfiguration,
        ids: HandleIds,
    ) -> (r: Stream<G, C>)
        requires
            configurable(mem_config, self.mem_props),
            configurable(pinned_config, self.pinned_props()),
        ensures
            r.wf(),
            r.id == id,
            r.errors@ == Seq::<ServerError>::empty(),
            r.policy == self.policy,
            r.staged.bytes_count == 0,
            r.staged.bytes_size == 0,
            !r.capturing,
            r.capture_staging@ == Seq::<usize>::empty(),
            r.memory_management_gpu@ == fresh(
                "Main GPU Memory"@,
                pools_for(pool_options_for(mem_config, self.mem_props), self.mem_props),
                initial_mode(MemoryAllocationOption::FromConfig, self.persistent),
                self.persistent,
                false,
                storage.ids(),
            ),
            r.memory_management_cpu@ == fresh(
                "Pinned CPU Memory"@,
                pools_for(pool_options_for(pinned_config, self.pinned_props()), self.pinned_props()),
                MemoryAllocationMode::Auto,
                self.persistent,
                true,
                pinned.ids(),
            ),
    {
        let memory_management_gpu = MemoryManagement::from_configuration(
            storage,
            &self.mem_props,
            mem_config,
            self.persistent,
            MemoryManagementOptions::new("Main GPU Memory"),
            ids.clone(),
        );
        let pinned_props = MemoryDeviceProperties {
            max_page_size: self.mem_props.max_page_size,
            alignment: self.pinned_alignment,
        };
        let memory_management_cpu = MemoryManagement::from_configuration(
            pinned,
            &pinned_props,
            pinned_config,
            self.persistent,
            MemoryManagementOptions::new("Pinned CPU Memory").mode(MemoryAllocationMode::Auto),
            ids.clone(),
        );
        Stream {
            id,
            memory_management_gpu,
            memory_management_cpu,
            errors: Vec::new(),
            policy: self.policy,
            staged: FlushingPolicyState { bytes_count: 0, bytes_size: 0 },
            capturing: false,
            capture_staging: Vec::new(),
            ids,
        }
    }

    /// The cursor of a binding.
    pub fn handle_cursor<G: ComputeStorage, C: ComputeStorage>(
        stream: &Stream<G, C>,
        binding: &Binding,
    ) -> (r: Result<u64, IoError>)
        requires
            stream.wf(),
        ensures
            sought_cursor(stream.memory_management_gpu@, binding.memory.id(), r),
    {
        stream.memory_management_gpu.get_cursor(binding.memory.clone())
    }

    /// Whether nothing went wrong on the stream.
    pub fn is_healthy<G: ComputeStorage, C: ComputeStorage>(stream: &Stream<G, C>) -> (r: bool)
        ensures
            r == (stream.errors@.len() == 0),
    {
        stream.errors.is_empty()
    }
}

} // verus!
