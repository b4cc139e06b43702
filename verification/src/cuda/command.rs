//! What commands on the streams of a device copy, stage and launch.

use vstd::prelude::*;

use crate::cuda::copy::{
    copy_plan, num_bytes, pitched, pitched_plan, plan_fits, product, products_fit, CopyPlan,
};
use crate::cuda::error::{LaunchError, ServerError};
use crate::cuda::stream::{
    empties, pins, resolves_to, staging_wanted, stages, wants_pinned, AllocationProperty,
    HostBuffer, Stream,
};
use crate::first::{first_where, lemma_first_from, lemma_first_is, lemma_first_none};
use crate::handle::{Binding, Handle};
use crate::memory::error::IoError;
use crate::memory::handle::{ManagedMemoryBinding, ManagedMemoryHandle};
use crate::memory::manage::{rebinds, refused_by};
use crate::memory::model::Liveness;
use crate::memory::options::MemoryAllocationMode;
use crate::memory::storage::ComputeStorage;
use crate::memory::usage::MemoryUsage;

verus! {

/// A tensor in device memory.
pub struct CopyDescriptor {
    pub handle: Binding,
    pub shape: Vec<usize>,
    pub strides: Vec<usize>,
    pub elem_size: usize,
}

impl CopyDescriptor {
    /// Whether the numbers of a copy can be computed.
    pub open spec fn fits(self) -> bool {
        plan_fits(self.shape@, self.strides@, self.elem_size)
    }

    /// Whether the layout can be copied.
    pub open spec fn supported(self) -> bool {
        pitched(self.shape@, self.strides@)
    }

    /// How a supported layout is copied.
    pub open spec fn plan(self) -> CopyPlan {
        if self.shape@.len() <= 1 {
            CopyPlan::Linear
        } else {
            pitched_plan(self.shape@, self.strides@, self.elem_size)
        }
    }

    /// Whether the number of bytes can be computed.
    pub open spec fn countable(self) -> bool {
        &&& products_fit(self.shape@, self.shape@.len())
        &&& product(self.shape@, self.shape@.len()) * self.elem_size <= usize::MAX
    }

    /// The number of bytes.
    pub open spec fn bytes(self) -> usize {
        (product(self.shape@, self.shape@.len()) * self.elem_size) as usize
    }
}

/// Whether a stream has an id.
pub open spec fn is_stream<G: ComputeStorage, C: ComputeStorage>(
    streams: Seq<Stream<G, C>>,
    id: u64,
    i: int,
) -> bool {
    streams[i].id == id
}

/// Which stream has an id.
pub open spec fn stream_at<G: ComputeStorage, C: ComputeStorage>(
    streams: Seq<Stream<G, C>>,
    id: u64,
) -> Option<int> {
    first_where(streams.len(), |i: int| is_stream(streams, id, i))
}

/// Which stream is meant: the one that is named, and else the current one.
pub open spec fn chosen<G: ComputeStorage, C: ComputeStorage>(
    streams: Seq<Stream<G, C>>,
    current: int,
    origin: Option<u64>,
) -> Option<int> {
    match origin {
        Some(id) => stream_at(streams, id),
        None => Some(current),
    }
}

/// Whether one stream changed and no other.
pub open spec fn only_at<G: ComputeStorage, C: ComputeStorage>(
    before: Seq<Stream<G, C>>,
    i: int,
    after: Seq<Stream<G, C>>,
) -> bool {
    &&& 0 <= i < before.len()
    &&& after == before.update(i, after[i])
    &&& after[i].wf()
}

/// Whether a binding resolves to this on the stream it belongs to, and only the storage of
/// that stream was asked.
pub open spec fn finds<G: ComputeStorage, C: ComputeStorage>(
    before: Seq<Stream<G, C>>,
    binding: Binding,
    r: Result<G::Resource, IoError>,
    after: Seq<Stream<G, C>>,
) -> bool {
    match stream_at(before, binding.stream) {
        Some(i) => {
            &&& only_at(before, i, after)
            &&& resolves_to::<G>(
                before[i].memory_management_gpu@,
                before[i].memory_management_gpu.held(),
                binding,
                r,
            )
            &&& after[i].same_state(before[i])
            &&& after[i].memory_management_cpu == before[i].memory_management_cpu
            &&& after[i].memory_management_gpu@ == before[i].memory_management_gpu@
        },
        None => after == before && r == Err::<G::Resource, IoError>(IoError::InvalidHandle),
    }
}

/// Whether a stream was asked for pinned memory, and this is what it gave.
pub open spec fn pinned_on<G: ComputeStorage, C: ComputeStorage>(
    before: Seq<Stream<G, C>>,
    i: int,
    size: usize,
    pinned: Option<(ManagedMemoryBinding, C::Resource)>,
    after: Seq<Stream<G, C>>,
) -> bool {
    &&& only_at(before, i, after)
    &&& after[i].same_state(before[i])
    &&& after[i].memory_management_gpu == before[i].memory_management_gpu
    &&& pins(
        before[i].memory_management_cpu,
        size as u64,
        pinned,
        after[i].memory_management_cpu,
    )
}

/// Whether a stream was asked for a host buffer.
pub open spec fn buffered_on<G: ComputeStorage, C: ComputeStorage>(
    before: Seq<Stream<G, C>>,
    i: int,
    size: usize,
    marked_pinned: bool,
    buffer: HostBuffer<C::Resource>,
    after: Seq<Stream<G, C>>,
) -> bool {
    &&& buffer.len() == size
    &&& if wants_pinned(size, marked_pinned) {
        pinned_on(before, i, size, buffer.pinned(), after)
    } else {
        buffer is Heap && after == before
    }
}

/// A copy from device memory.
pub struct Download<R> {
    pub resource: R,
    pub plan: CopyPlan,
    /// Which stream the copy goes to.
    pub stream: usize,
}

/// Whether a copy out of device memory comes to this: an unsupported layout is refused before
/// the memory is looked up.
pub open spec fn downloads<G: ComputeStorage, C: ComputeStorage>(
    before: Seq<Stream<G, C>>,
    on: int,
    descriptor: CopyDescriptor,
    r: Result<Download<G::Resource>, IoError>,
    after: Seq<Stream<G, C>>,
) -> bool {
    if !descriptor.supported() {
        &&& after == before
        &&& r == Err::<Download<G::Resource>, IoError>(IoError::UnsupportedStrides)
    } else {
        exists|found: Result<G::Resource, IoError>|
            {
                &&& #[trigger] finds(before, descriptor.handle, found, after)
                &&& match found {
                    Ok(resource) => r == Ok::<Download<G::Resource>, IoError>(
                        Download { resource, plan: descriptor.plan(), stream: on as usize },
                    ),
                    Err(error) => r == Err::<Download<G::Resource>, IoError>(error),
                }
            }
    }
}

/// Whether a read into a new host buffer comes to this: the buffer is reserved first.
pub open spec fn reads<G: ComputeStorage, C: ComputeStorage>(
    before: Seq<Stream<G, C>>,
    on: int,
    descriptor: CopyDescriptor,
    pinned: bool,
    r: Result<(HostBuffer<C::Resource>, Download<G::Resource>), IoError>,
    after: Seq<Stream<G, C>>,
) -> bool {
    exists|
        mid: Seq<Stream<G, C>>,
        buffer: HostBuffer<C::Resource>,
        download: Result<Download<G::Resource>, IoError>,
    |
        {
            &&& #[trigger] buffered_on(before, on, descriptor.bytes(), pinned, buffer, mid)
            &&& #[trigger] downloads(mid, on, descriptor, download, after)
            &&& match download {
                Ok(download) => r == Ok::<
                    (HostBuffer<C::Resource>, Download<G::Resource>),
                    IoError,
                >((buffer, download)),
                Err(error) => r == Err::<
                    (HostBuffer<C::Resource>, Download<G::Resource>),
                    IoError,
                >(error),
            }
        }
}

/// A copy to device memory, through pinned memory where there is any.
pub struct Upload<R, S> {
    pub resource: R,
    pub plan: CopyPlan,
    /// The pinned memory that the bytes are put into first.
    pub staging: Option<(ManagedMemoryBinding, S)>,
}

/// Whether a write comes to this: an unsupported layout is refused first, then a binding that
/// does not resolve, and then bytes of a file that cannot be staged.
pub open spec fn uploads<G: ComputeStorage, C: ComputeStorage>(
    before: Seq<Stream<G, C>>,
    current: int,
    descriptor: CopyDescriptor,
    property: AllocationProperty,
    size: usize,
    staging_enabled: bool,
    r: Result<Upload<G::Resource, C::Resource>, IoError>,
    after: Seq<Stream<G, C>>,
) -> bool {
    exists|mid: Seq<Stream<G, C>>, download: Result<Download<G::Resource>, IoError>|
        {
            &&& #[trigger] downloads(before, current, descriptor, download, mid)
            &&& match download {
                Ok(download) => if stages(property, size, staging_enabled) {
                    exists|staging: Option<(ManagedMemoryBinding, C::Resource)>|
                        {
                            &&& #[trigger] pinned_on(mid, current, size, staging, after)
                            &&& uploads_staged(download, property, staging, r)
                        }
                } else {
                    &&& after == mid
                    &&& r matches Ok(upload) && is_upload(upload, download, None)
                },
                Err(error) => {
                    &&& after == mid
                    &&& r matches Err(e) && e == error
                },
            }
        }
}

/// Whether a write that is to be staged comes to this, with the pinned memory that there is.
pub open spec fn uploads_staged<R, S>(
    download: Download<R>,
    property: AllocationProperty,
    staging: Option<(ManagedMemoryBinding, S)>,
    r: Result<Upload<R, S>, IoError>,
) -> bool {
    match r {
        Ok(upload) => {
            &&& is_upload(upload, download, staging)
            &&& staging is Some || property != AllocationProperty::File
        },
        Err(error) => {
            &&& error == IoError::Unpinned
            &&& staging is None && property == AllocationProperty::File
        },
    }
}

/// Whether an upload goes where a download would come from, through this pinned memory.
pub open spec fn is_upload<R, S>(
    upload: Upload<R, S>,
    download: Download<R>,
    staging: Option<(ManagedMemoryBinding, S)>,
) -> bool {
    &&& upload.resource == download.resource
    &&& upload.plan == download.plan
    &&& upload.staging == staging
}

/// New device memory, and the copy that fills it.
pub struct Created<R, S> {
    pub handle: Handle,
    pub resource: R,
    pub plan: CopyPlan,
    /// The pinned memory that the bytes are put into first.
    pub staging: (ManagedMemoryBinding, S),
}

/// Whether a binding is that of a handle.
pub open spec fn binds(binding: Binding, handle: Handle) -> bool {
    &&& binding.memory.of() == handle.memory
    &&& binding.memory.id() == handle.memory.id()
    &&& binding.stream == handle.stream
    &&& binding.offset_start == handle.offset_start
    &&& binding.offset_end == handle.offset_end
    &&& binding.bytes == handle.bytes
}

/// Whether creating memory with data comes to this. Without pinned memory nothing is reserved
/// on the device.
pub open spec fn creates<G: ComputeStorage, C: ComputeStorage>(
    before: Seq<Stream<G, C>>,
    current: int,
    cursor: u64,
    len: usize,
    r: Result<Created<G::Resource, C::Resource>, IoError>,
    after: Seq<Stream<G, C>>,
) -> bool {
    exists|mid: Seq<Stream<G, C>>, pinned: Option<(ManagedMemoryBinding, C::Resource)>|
        {
            &&& #[trigger] pinned_on(before, current, len, pinned, mid)
            &&& match pinned {
                Some(staging) => fills(mid, current, cursor, len, staging, r, after),
                None => {
                    &&& after == mid
                    &&& r matches Err(error) && error == IoError::Unpinned
                },
            }
        }
}

/// Whether creating memory comes to this once there is pinned memory: the device memory is
/// reserved, and then it is found. The bytes go through that pinned memory.
pub open spec fn fills<G: ComputeStorage, C: ComputeStorage>(
    before: Seq<Stream<G, C>>,
    current: int,
    cursor: u64,
    len: usize,
    staging: (ManagedMemoryBinding, C::Resource),
    r: Result<Created<G::Resource, C::Resource>, IoError>,
    after: Seq<Stream<G, C>>,
) -> bool {
    exists|mid: Seq<Stream<G, C>>, handle: Result<Handle, IoError>|
        {
            &&& only_at(before, current, mid)
            &&& #[trigger] empties(before[current], mid[current], len as u64, cursor, handle)
            &&& match handle {
                Ok(handle) => exists|binding: Binding, found: Result<G::Resource, IoError>|
                    {
                        &&& #[trigger] finds(mid, binding, found, after)
                        &&& binds(binding, handle)
                        &&& match found {
                            Ok(resource) => {
                                &&& r matches Ok(created)
                                &&& created.handle == handle
                                &&& created.resource == resource
                                &&& created.plan == CopyPlan::Linear
                                &&& created.staging == staging
                            },
                            Err(error) => r matches Err(e) && e == error,
                        }
                    },
                Err(error) => {
                    &&& after == mid
                    &&& r matches Err(e) && e == error
                },
            }
        }
}

/// A command: the streams that it may touch, the one that it runs on, and how far that one
/// has come.
pub struct Command<G: ComputeStorage, C: ComputeStorage> {
    pub streams: Vec<Stream<G, C>>,
    pub current: usize,
    pub cursor: u64,
}

impl<G: ComputeStorage, C: ComputeStorage> Command<G, C> {
    /// The invariant.
    pub open spec fn wf(self) -> bool {
        &&& self.current < self.streams@.len()
        &&& forall|i: int| 0 <= i < self.streams@.len() ==> (#[trigger] self.streams@[i]).wf()
    }

    /// The current stream.
    pub open spec fn here(self) -> Stream<G, C> {
        self.streams@[self.current as int]
    }

    /// Whether it is the same command, as far as its streams are left out.
    pub open spec fn same_command(self, other: Self) -> bool {
        self.current == other.current && self.cursor == other.cursor
    }

    /// Whether a named stream is one of the command's.
    pub open spec fn knows(self, origin: Option<u64>) -> bool {
        chosen(self.streams@, self.current as int, origin) is Some
    }

    /// The stream that is meant.
    pub open spec fn meant(self, origin: Option<u64>) -> Stream<G, C> {
        self.streams@[chosen(self.streams@, self.current as int, origin)->0]
    }

    /// Which stream has an id.
    pub fn position(&self, id: u64) -> (r: Option<usize>)
        ensures
            match r {
                Some(i) => i < self.streams@.len() && stream_at(self.streams@, id) == Some(
                    i as int,
                ),
                None => stream_at(self.streams@, id) is None,
            },
    {
        let ghost p = |i: int| is_stream(self.streams@, id, i);
        let mut i: usize = 0;
        while i < self.streams.len()
            invariant
                i <= self.streams.len(),
                p == (|i: int| is_stream(self.streams@, id, i)),
                forall|j: int| 0 <= j < i ==> !(#[trigger] p(j)),
            decreases self.streams.len() - i,
        {
            if self.streams[i].id == id {
                proof {
                    assert(p(i as int));
                    lemma_first_is(self.streams@.len(), p, i as int);
                }
                return Some(i);
            }
            i += 1;
        }
        proof {
            lemma_first_none(self.streams@.len(), p);
        }
        None
    }

    /// Which stream is meant: the one that is named, and else the current one.
    fn on(&self, origin: Option<u64>) -> (r: usize)
        requires
            self.wf(),
            self.knows(origin),
        ensures
            r < self.streams@.len(),
            chosen(self.streams@, self.current as int, origin) == Some(r as int),
    {
        match origin {
            Some(id) => match self.position(id) {
                Some(i) => i,
                None => self.current,
            },
            None => self.current,
        }
    }

    /// The device memory at a binding, on the stream that it belongs to.
    pub fn resource(&mut self, binding: Binding) -> (r: Result<G::Resource, IoError>)
        requires
            old(self).wf(),
        ensures
            final(self).wf(),
            final(self).same_command(*old(self)),
            finds(old(self).streams@, binding, r, final(self).streams@),
    {
        let ghost before = self.streams@;
        match self.position(binding.stream) {
            Some(i) => {
                let r = self.streams[i].resource(binding);
                proof {
                    assert(resolves_to::<G>(
                        before[i as int].memory_management_gpu@,
                        before[i as int].memory_management_gpu.held(),
                        binding,
                        r,
                    ));
                    assert(self.streams@ =~= before.update(i as int, self.streams@[i as int]));
                }
                r
            },
            None => Err(IoError::InvalidHandle),
        }
    }

    /// How far the current stream has come.
    pub fn cursor(&self) -> (r: u64)
        ensures
            r == self.cursor,
    {
        self.cursor
    }

    /// The usage of the current stream's device memory.
    pub fn memory_usage(&self) -> (r: MemoryUsage)
        requires
            self.wf(),
            self.here().memory_management_gpu@.capacity().fits(),
        ensures
            exists|live: Liveness|
                self.here().memory_management_gpu@.sees(live) && r@
                    == #[trigger] self.here().memory_management_gpu@.usage(live),
    {
        self.streams[self.current].memory_usage()
    }

    /// Cleans the current stream's device memory up.
    pub fn memory_cleanup(&mut self)
        requires
            old(self).wf(),
        ensures
            final(self).wf(),
            final(self).same_command(*old(self)),
            only_at(old(self).streams@, old(self).current as int, final(self).streams@),
            final(self).here().same_state(old(self).here()),
            final(self).here().memory_management_cpu == old(self).here().memory_management_cpu,
            exists|live: Liveness|
                old(self).here().memory_management_gpu@.sees(live)
                    && final(self).here().memory_management_gpu@ == #[trigger] old(
                    self,
                ).here().memory_management_gpu@.cleaned(live, true),
    {
        let ghost before = self.streams@;
        let i: usize = self.current;
        self.streams[i].memory_cleanup();
        assert(self.streams@ =~= before.update(i as int, self.streams@[i as int]));
    }

    /// Sets the mode of allocation of the current stream's device memory.
    pub fn allocation_mode(&mut self, mode: MemoryAllocationMode)
        requires
            old(self).wf(),
        ensures
            final(self).wf(),
            final(self).same_command(*old(self)),
            only_at(old(self).streams@, old(self).current as int, final(self).streams@),
            final(self).here().same_state(old(self).here()),
            final(self).here().memory_management_cpu == old(self).here().memory_management_cpu,
            final(self).here().memory_management_gpu@ == old(
                self,
            ).here().memory_management_gpu@.with_mode(mode),
    {
        let ghost before = self.streams@;
        let i: usize = self.current;
        self.streams[i].allocation_mode(mode);
        assert(self.streams@ =~= before.update(i as int, self.streams@[i as int]));
    }

    /// Device memory of this size, on the current stream.
    pub fn reserve(&mut self, size: u64) -> (r: Result<ManagedMemoryHandle, IoError>)
        requires
            old(self).wf(),
            old(self).here().memory_management_gpu@.can_count(),
        ensures
            final(self).wf(),
            final(self).same_command(*old(self)),
            only_at(old(self).streams@, old(self).current as int, final(self).streams@),
            final(self).here().same_state(old(self).here()),
            final(self).here().memory_management_cpu == old(self).here().memory_management_cpu,
            exists|live: Liveness|
                {
                    &&& old(self).here().memory_management_gpu@.sees(live)
                    &&& #[trigger] old(self).here().memory_management_gpu@.reserved(
                        size,
                        live,
                        r,
                        final(self).here().memory_management_gpu@,
                    )
                    &&& refused_by(
                        old(self).here().memory_management_gpu.held(),
                        old(self).here().memory_management_gpu@,
                        size,
                        live,
                        r,
                    )
                },
    {
        let ghost before = self.streams@;
        let i: usize = self.current;
        let r = self.streams[i].reserve(size);
        assert(self.streams@ =~= before.update(i as int, self.streams@[i as int]));
        r
    }

    /// A handle to new device memory, on the current stream.
    pub fn empty(&mut self, size: u64) -> (r: Result<Handle, IoError>)
        requires
            old(self).wf(),
            old(self).here().memory_management_gpu@.can_count(),
        ensures
            final(self).wf(),
            final(self).same_command(*old(self)),
            only_at(old(self).streams@, old(self).current as int, final(self).streams@),
            empties(old(self).here(), final(self).here(), size, old(self).cursor, r),
    {
        let ghost before = self.streams@;
        let i: usize = self.current;
        let r = self.streams[i].empty(size, self.cursor);
        assert(self.streams@ =~= before.update(i as int, self.streams@[i as int]));
        r
    }

    /// Gives reserved memory of the current stream to another handle.
    pub fn bind(&mut self, reserved: ManagedMemoryHandle, new: ManagedMemoryHandle) -> (r: Result<
        (),
        IoError,
    >)
        requires
            old(self).wf(),
        ensures
            final(self).wf(),
            final(self).same_command(*old(self)),
            only_at(old(self).streams@, old(self).current as int, final(self).streams@),
            final(self).here().same_state(old(self).here()),
            final(self).here().memory_management_cpu == old(self).here().memory_management_cpu,
            rebinds(
                old(self).here().memory_management_gpu@,
                reserved.id(),
                new,
                old(self).cursor,
                r,
                final(self).here().memory_management_gpu@,
            ),
    {
        let ghost before = self.streams@;
        let i: usize = self.current;
        let r = self.streams[i].memory_management_gpu.bind(reserved, new, self.cursor);
        assert(self.streams@ =~= before.update(i as int, self.streams@[i as int]));
        r
    }

    /// Pinned memory of this size, if there is any.
    pub fn reserve_pinned(&mut self, size: usize, origin: Option<u64>) -> (r: Option<
        (ManagedMemoryBinding, C::Resource),
    >)
        requires
            old(self).wf(),
            old(self).knows(origin),
            old(self).meant(origin).memory_management_cpu@.can_count(),
        ensures
            final(self).wf(),
            final(self).same_command(*old(self)),
            pinned_on(
                old(self).streams@,
                chosen(old(self).streams@, old(self).current as int, origin)->0,
                size,
                r,
                final(self).streams@,
            ),
    {
        let ghost before = self.streams@;
        let i: usize = self.on(origin);
        let r = self.streams[i].reserve_pinned(size);
        assert(self.streams@ =~= before.update(i as int, self.streams@[i as int]));
        r
    }

    /// A host buffer: pinned where it is asked to be or is small enough and there is pinned
    /// memory, and else on the heap.
    pub fn reserve_cpu(&mut self, size: usize, marked_pinned: bool, origin: Option<u64>) -> (r:
        HostBuffer<C::Resource>)
        requires
            old(self).wf(),
            old(self).knows(origin),
            old(self).meant(origin).memory_management_cpu@.can_count(),
        ensures
            final(self).wf(),
            final(self).same_command(*old(self)),
            buffered_on(
                old(self).streams@,
                chosen(old(self).streams@, old(self).current as int, origin)->0,
                size,
                marked_pinned,
                r,
                final(self).streams@,
            ),
    {
        let ghost before = self.streams@;
        let i: usize = self.on(origin);
        let r = self.streams[i].reserve_cpu(size, marked_pinned);
        proof {
            assert(self.streams@ =~= before.update(i as int, self.streams@[i as int]));
            if !wants_pinned(size, marked_pinned) {
                assert(self.streams@[i as int] == before[i as int]);
                assert(self.streams@ =~= before);
            }
        }
        r
    }

    /// Registers an error on the current stream.
    pub fn error(&mut self, error: ServerError)
        requires
            old(self).wf(),
        ensures
            final(self).wf(),
            final(self).same_command(*old(self)),
            only_at(old(self).streams@, old(self).current as int, final(self).streams@),
            final(self).here().errors@ == old(self).here().errors@.push(error),
            final(self).here() == (Stream {
                errors: final(self).here().errors,
                ..old(self).here()
            }),
    {
        let ghost before = self.streams@;
        let i: usize = self.current;
        self.streams[i].error(error);
        assert(self.streams@ =~= before.update(i as int, self.streams@[i as int]));
    }

    /// The copy of a tensor out of device memory, on the stream that is named or the current
    /// one.
    pub fn write_to_cpu(&mut self, descriptor: CopyDescriptor, stream_id: Option<u64>) -> (r: Result<
        Download<G::Resource>,
        IoError,
    >)
        requires
            old(self).wf(),
            old(self).knows(stream_id),
            descriptor.fits(),
        ensures
            final(self).wf(),
            final(self).same_command(*old(self)),
            downloads(
                old(self).streams@,
                chosen(old(self).streams@, old(self).current as int, stream_id)->0,
                descriptor,
                r,
                final(self).streams@,
            ),
    {
        let on: usize = self.on(stream_id);
        let plan: CopyPlan = match copy_plan(
            &descriptor.shape,
            &descriptor.strides,
            descriptor.elem_size,
        ) {
            Ok(plan) => plan,
            Err(error) => {
                return Err(error);
            },
        };
        let ghost before = self.streams@;
        let found = self.resource(descriptor.handle);
        assert(finds(before, descriptor.handle, found, self.streams@));
        match found {
            Ok(resource) => Ok(Download { resource, plan, stream: on }),
            Err(error) => Err(error),
        }
    }

    /// A host buffer for a tensor, and the copy that fills it.
    pub fn copy_to_bytes(
        &mut self,
        descriptor: CopyDescriptor,
        pinned: bool,
        stream_id: Option<u64>,
    ) -> (r: Result<(HostBuffer<C::Resource>, Download<G::Resource>), IoError>)
        requires
            old(self).wf(),
            old(self).knows(stream_id),
            old(self).meant(stream_id).memory_management_cpu@.can_count(),
            descriptor.fits(),
            descriptor.countable(),
        ensures
            final(self).wf(),
            final(self).same_command(*old(self)),
            reads(
                old(self).streams@,
                chosen(old(self).streams@, old(self).current as int, stream_id)->0,
                descriptor,
                pinned,
                r,
                final(self).streams@,
            ),
    {
        let ghost before = self.streams@;
        let ghost on = chosen(before, self.current as int, stream_id)->0;
        let size: usize = num_bytes(&descriptor.shape, descriptor.elem_size);
        let buffer = self.reserve_cpu(size, pinned, stream_id);
        let ghost mid = self.streams@;
        proof {
            lemma_same_ids(before, on, mid);
            lemma_chosen(before, mid, self.current as int, stream_id);
            assert(buffered_on(before, on, descriptor.bytes(), pinned, buffer, mid));
        }
        let ghost told = descriptor;
        let download = self.write_to_cpu(descriptor, stream_id);
        assert(downloads(mid, on, told, download, self.streams@));
        match download {
            Ok(download) => Ok((buffer, download)),
            Err(error) => Err(error),
        }
    }

    /// The copy of host bytes into a tensor in device memory. A refusal of the pinned pool
    /// never fails a write, except of bytes of a file.
    pub fn write_to_gpu(
        &mut self,
        descriptor: CopyDescriptor,
        property: AllocationProperty,
        size: usize,
        staging_enabled: bool,
    ) -> (r: Result<Upload<G::Resource, C::Resource>, IoError>)
        requires
            old(self).wf(),
            old(self).here().memory_management_cpu@.can_count(),
            descriptor.fits(),
        ensures
            final(self).wf(),
            final(self).same_command(*old(self)),
            uploads(
                old(self).streams@,
                old(self).current as int,
                descriptor,
                property,
                size,
                staging_enabled,
                r,
                final(self).streams@,
            ),
    {
        let ghost before = self.streams@;
        let ghost current = self.current as int;
        let ghost told = descriptor;
        let downloading = self.write_to_cpu(descriptor, None);
        let ghost mid = self.streams@;
        assert(downloads(before, current, told, downloading, mid));
        let download = match downloading {
            Ok(download) => download,
            Err(error) => {
                return Err(error);
            },
        };
        let resource = download.resource;
        let plan: CopyPlan = download.plan;
        if !staging_wanted(property, size, staging_enabled) {
            return Ok(Upload { resource, plan, staging: None });
        }
        let staging = self.reserve_pinned(size, None);
        let file: bool = match property {
            AllocationProperty::File => true,
            _ => false,
        };
        let r = if file && staging.is_none() {
            Err(IoError::Unpinned)
        } else {
            Ok(Upload { resource, plan, staging })
        };
        proof {
            assert(pinned_on(mid, current, size, staging, self.streams@));
            assert(uploads_staged(download, property, staging, r));
        }
        r
    }

    /// New device memory on the current stream, and the copy that fills it through pinned
    /// memory.
    pub fn create_with_data(&mut self, len: usize) -> (r: Result<
        Created<G::Resource, C::Resource>,
        IoError,
    >)
        requires
            old(self).wf(),
            old(self).here().memory_management_cpu@.can_count(),
            old(self).here().memory_management_gpu@.can_count(),
        ensures
            final(self).wf(),
            final(self).same_command(*old(self)),
            creates(
                old(self).streams@,
                old(self).current as int,
                old(self).cursor,
                len,
                r,
                final(self).streams@,
            ),
    {
        let ghost before = self.streams@;
        let ghost current = self.current as int;
        let pinned = self.reserve_pinned(len, None);
        let ghost mid = self.streams@;
        assert(pinned_on(before, current, len, pinned, mid));
        let staging = match pinned {
            Some(staging) => staging,
            None => {
                return Err(IoError::Unpinned);
            },
        };
        let making = self.empty(len as u64);
        let ghost made = self.streams@;
        assert(empties(mid[current], made[current], len as u64, self.cursor, making));
        let handle = match making {
            Ok(handle) => handle,
            Err(error) => {
                let r = Err(error);
                assert(fills(mid, current, self.cursor, len, staging, r, made));
                return r;
            },
        };
        let mut shape: Vec<usize> = Vec::new();
        shape.push(len);
        let mut strides: Vec<usize> = Vec::new();
        strides.push(1);
        let binding = handle.clone().binding();
        let ghost target = binding;
        let descriptor = CopyDescriptor { handle: binding, shape, strides, elem_size: 1 };
        let ghost told = descriptor;
        let downloading = self.write_to_cpu(descriptor, None);
        proof {
            assert(downloads(made, current, told, downloading, self.streams@));
            let found = choose|found: Result<G::Resource, IoError>|
                {
                    &&& #[trigger] finds(made, told.handle, found, self.streams@)
                    &&& match found {
                        Ok(resource) => downloading == Ok::<Download<G::Resource>, IoError>(
                            Download { resource, plan: told.plan(), stream: current as usize },
                        ),
                        Err(error) => downloading == Err::<Download<G::Resource>, IoError>(error),
                    }
                };
            assert(finds(made, target, found, self.streams@));
            assert(binds(target, handle));
        }
        let r = match downloading {
            Ok(download) => Ok(
                Created { handle, resource: download.resource, plan: download.plan, staging },
            ),
            Err(error) => Err(error),
        };
        assert(fills(mid, current, self.cursor, len, staging, r, self.streams@));
        r
    }
}

/// Streams keep their ids when one of them changes otherwise.
proof fn lemma_same_ids<G: ComputeStorage, C: ComputeStorage>(
    before: Seq<Stream<G, C>>,
    i: int,
    after: Seq<Stream<G, C>>,
)
    requires
        after == before || (only_at(before, i, after) && after[i].id == before[i].id),
    ensures
        after.len() == before.len(),
        forall|k: int| 0 <= k < before.len() ==> (#[trigger] after[k]).id == before[k].id,
{
}

/// Which stream is meant does not depend on anything but the ids.
proof fn lemma_chosen<G: ComputeStorage, C: ComputeStorage>(
    before: Seq<Stream<G, C>>,
    after: Seq<Stream<G, C>>,
    current: int,
    origin: Option<u64>,
)
    requires
        after.len() == before.len(),
        forall|k: int| 0 <= k < before.len() ==> (#[trigger] after[k]).id == before[k].id,
    ensures
        chosen(after, current, origin) == chosen(before, current, origin),
{
    if let Some(id) = origin {
        let p = |k: int| is_stream(before, id, k);
        let q = |k: int| is_stream(after, id, k);
        lemma_first_from(0, before.len() as int, p);
        match first_where(before.len(), p) {
            Some(k) => {
                assert(q(k));
                assert forall|j: int| 0 <= j < k implies !(#[trigger] q(j)) by {
                    assert(!p(j));
                }
                lemma_first_is(after.len(), q, k);
            },
            None => {
                assert forall|j: int| 0 <= j < after.len() implies !(#[trigger] q(j)) by {
                    assert(!p(j));
                }
                lemma_first_none(after.len(), q);
            },
        }
    }
}

/// The streams of a list, each once, in the order of their first appearance.
pub open spec fn distinct(streams: Seq<u64>) -> Seq<u64>
    decreases streams.len(),
{
    if streams.len() == 0 {
        Seq::empty()
    } else {
        let before = distinct(streams.drop_last());
        if before.contains(streams.last()) {
            before
        } else {
            before.push(streams.last())
        }
    }
}

/// The streams that are waited for after copies from them: each once, in the order in which
/// they were first copied from.
pub fn fenced_streams(streams: &Vec<u64>) -> (r: Vec<u64>)
    ensures
        r@ == distinct(streams@),
{
    let mut r: Vec<u64> = Vec::new();
    let mut i: usize = 0;
    assert(streams@.take(0) =~= Seq::<u64>::empty());
    while i < streams.len()
        invariant
            i <= streams.len(),
            r@ == distinct(streams@.take(i as int)),
        decreases streams.len() - i,
    {
        let stream: u64 = streams[i];
        proof {
            assert(streams@.take(i + 1).drop_last() =~= streams@.take(i as int));
            assert(streams@.take(i + 1).last() == stream);
        }
        if !holds_stream(&r, stream) {
            r.push(stream);
        }
        i += 1;
    }
    assert(streams@.take(i as int) =~= streams@);
    r
}

/// Whether a stream is in a list.
fn holds_stream(streams: &Vec<u64>, stream: u64) -> (r: bool)
    ensures
        r == streams@.contains(stream),
{
    let mut i: usize = 0;
    while i < streams.len()
        invariant
            i <= streams.len(),
            forall|k: int| 0 <= k < i ==> (#[trigger] streams@[k]) != stream,
        decreases streams.len() - i,
    {
        if streams[i] == stream {
            return true;
        }
        i += 1;
    }
    false
}

/// Every stream that was copied from is waited for, and none twice.
pub proof fn law_every_stream_is_fenced_once(streams: Seq<u64>)
    ensures
        forall|s: u64| #[trigger] distinct(streams).contains(s) <==> streams.contains(s),
        distinct(streams).no_duplicates(),
    decreases streams.len(),
{
    if streams.len() > 0 {
        let rest = streams.drop_last();
        let last = streams.last();
        law_every_stream_is_fenced_once(rest);
        let r = distinct(streams);
        let before = distinct(rest);
        assert forall|s: u64| #[trigger] r.contains(s) <==> streams.contains(s) by {
            if streams.contains(s) {
                let i = choose|i: int| 0 <= i < streams.len() && streams[i] == s;
                if i < rest.len() {
                    assert(rest[i] == s);
                    assert(before.contains(s));
                }
                if before.contains(s) {
                    let k = choose|k: int| 0 <= k < before.len() && before[k] == s;
                    assert(r[k] == s);
                } else {
                    assert(s == last);
                    assert(r[before.len() as int] == s);
                }
            }
            if r.contains(s) {
                let k = choose|k: int| 0 <= k < r.len() && r[k] == s;
                if k < before.len() {
                    assert(before[k] == s);
                    assert(before.contains(s));
                    let i = choose|i: int| 0 <= i < rest.len() && rest[i] == s;
                    assert(streams[i] == s);
                } else {
                    assert(streams[streams.len() - 1] == s);
                }
            }
        }
    }
}

/// What a launch that failed or not comes to.
#[derive(Clone, Copy, Debug, PartialEq, Eq)]
pub enum LaunchOutcome {
    /// It goes on.
    Continue,
    /// It fails.
    Fail(LaunchError),
    /// It goes on, and the profile that is being taken is marked wrong.
    SpoilProfile(LaunchError),
}

/// What a launch comes to. While a profile is taken an error is the profile's.
pub fn launch_outcome(result: Result<(), LaunchError>, profiling: bool) -> (r: LaunchOutcome)
    ensures
        r == (match result {
            Ok(_) => LaunchOutcome::Continue,
            Err(error) => if profiling {
                LaunchOutcome::SpoilProfile(error)
            } else {
                LaunchOutcome::Fail(error)
            },
        }),
{
    match result {
        Ok(_) => LaunchOutcome::Continue,
        Err(error) => {
            if profiling {
                LaunchOutcome::SpoilProfile(error)
            } else {
                LaunchOutcome::Fail(error)
            }
        },
    }
}

/// What of a launch comes from the loaded module.
#[derive(Clone, Copy, Debug, PartialEq, Eq)]
pub struct KernelShape {
    /// The function.
    pub func: u64,
    /// The cube dimension it was launched with.
    pub block: (u32, u32, u32),
    /// Its dynamic shared memory, in bytes.
    pub shared: u32,
}

/// One kernel launch that a graph capture recorded, named by the node it became.
#[derive(Clone, Copy, Debug, PartialEq, Eq)]
pub struct CapturedNode {
    /// The graph node this launch produced.
    pub node: u64,
    /// What comes from the loaded module.
    pub shape: KernelShape,
}

/// The nodes that a later launch of an open capture would depend on.
#[derive(Clone, Copy, Debug, PartialEq, Eq)]
pub struct Frontier {
    /// Whether the capture is active.
    pub active: bool,
    /// The first of the nodes, if there are any.
    pub node: Option<u64>,
    /// How many there are.
    pub count: usize,
}

/// What is known of the node that a launch became.
#[derive(Clone, Copy, Debug, PartialEq, Eq)]
pub enum CapturedLaunchNode {
    /// The launch was not captured.
    Absent,
    /// It became this node.
    Node(CapturedNode),
    /// The capture forks, so that there is no order of launches to index by.
    Forked { count: usize },
    /// The kernel is not a loaded module.
    NotLoaded,
}

/// The node that a launch became. Right after a launch on a linear capture the frontier is
/// exactly the one node that the launch added.
pub fn captured_node(capturing: bool, frontier: Frontier, shape: Option<KernelShape>) -> (r:
    CapturedLaunchNode)
    ensures
        r == (if !capturing || !frontier.active || frontier.node is None {
            CapturedLaunchNode::Absent
        } else if frontier.count != 1 {
            CapturedLaunchNode::Forked { count: frontier.count }
        } else {
            match shape {
                Some(shape) => CapturedLaunchNode::Node(
                    CapturedNode { node: frontier.node->0, shape },
                ),
                None => CapturedLaunchNode::NotLoaded,
            }
        }),
{
    if !capturing || !frontier.active {
        return CapturedLaunchNode::Absent;
    }
    match frontier.node {
        Some(node) => {
            if frontier.count != 1 {
                CapturedLaunchNode::Forked { count: frontier.count }
            } else {
                match shape {
                    Some(shape) => CapturedLaunchNode::Node(CapturedNode { node, shape }),
                    None => CapturedLaunchNode::NotLoaded,
                }
            }
        },
        None => CapturedLaunchNode::Absent,
    }
}

} // verus!
