//! What commands copy from where to where, and on which stream.

use vstd::prelude::*;

use crate::cuda::command::{
    binds, captured_node, chosen, distinct, downloads, fenced_streams, fills, finds, is_stream,
    launch_outcome, only_at, pinned_on, stream_at, CapturedLaunchNode, Command, CopyDescriptor,
    Created, Download, Frontier, KernelShape, LaunchOutcome, Upload,
};
use crate::cuda::copy::{product, CopyPlan};
use crate::cuda::copy_laws::{
    contiguous, extents_between, lemma_contiguous, lemma_product, lemma_rows_apart,
};
use crate::cuda::error::{LaunchError, ServerError};
use crate::cuda::stream::{empties, AllocationProperty, HostBuffer, Stream};
use crate::cuda::stream_call_laws::{
    held_at, lemma_new_memory, lemma_pinned_of, new_memory, pinned_of, same_counts,
};
use crate::first::{lemma_first_from, lemma_first_is};
use crate::handle::{Binding, Handle};
use crate::memory::call_laws::{
    asked_of, changes_hands, cleaned_up, held_somewhere, is_resource_of, lemma_asked_of,
    lemma_changes_hands, lemma_cleaned_up, lemma_pool_bytes, pool_bytes,
};
use crate::memory::error::IoError;
use crate::memory::handle::{ManagedMemoryBinding, ManagedMemoryHandle};
use crate::memory::manage::refused_by;
use crate::memory::model::Liveness;
use crate::memory::options::MemoryAllocationMode;
use crate::memory::range_laws::{is_memory_of, is_range_of, lemma_resolved};
use crate::memory::storage::{ComputeStorage, StorageHandle};
use crate::memory::usage::MemoryUsage;

verus! {

/// Whether stream `i` is the first with an id.
pub open spec fn first_stream<G: ComputeStorage, C: ComputeStorage>(
    streams: Seq<Stream<G, C>>,
    id: u64,
    i: int,
) -> bool {
    &&& 0 <= i < streams.len()
    &&& streams[i].id == id
    &&& forall|j: int| 0 <= j < i ==> (#[trigger] streams[j]).id != id
}

/// Whether no stream has an id.
pub open spec fn no_stream<G: ComputeStorage, C: ComputeStorage>(
    streams: Seq<Stream<G, C>>,
    id: u64,
) -> bool {
    forall|j: int| 0 <= j < streams.len() ==> (#[trigger] streams[j]).id != id
}

proof fn lemma_stream_at<G: ComputeStorage, C: ComputeStorage>(
    streams: Seq<Stream<G, C>>,
    id: u64,
)
    ensures
        match stream_at(streams, id) {
            Some(i) => first_stream(streams, id, i),
            None => no_stream(streams, id),
        },
{
    let p = |i: int| is_stream(streams, id, i);
    lemma_first_from(0, streams.len() as int, p);
    match stream_at(streams, id) {
        Some(i) => {
            assert(p(i));
            assert forall|j: int| 0 <= j < i implies (#[trigger] streams[j]).id != id by {
                assert(!p(j));
            }
        },
        None => {
            assert forall|j: int| 0 <= j < streams.len() implies (#[trigger] streams[j]).id != id by {
                assert(!p(j));
            }
        },
    }
}

/// A stream is found by its id: the first that has it.
pub proof fn law_streams_are_found_by_id<G: ComputeStorage, C: ComputeStorage>(
    command: Command<G, C>,
    id: u64,
    r: Option<usize>,
)
    requires
        call_ensures(Command::<G, C>::position, (&command, id), r),
    ensures
        r matches Some(i) ==> first_stream(command.streams@, id, i as int),
        r is None ==> no_stream(command.streams@, id),
{
    lemma_stream_at(command.streams@, id);
}

/// Whether a resource is the range of device memory of a stream that a binding asks for.
pub open spec fn bound_range<G: ComputeStorage, C: ComputeStorage>(
    stream: Stream<G, C>,
    binding: Binding,
    resource: G::Resource,
) -> bool {
    exists|found: StorageHandle|
        #[trigger] is_memory_of(stream.memory_management_gpu@, binding.memory.id(), found)
            && is_range_of(
            stream.memory_management_gpu.held(),
            found,
            binding.offset_start,
            binding.offset_end,
            resource,
        )
}

/// Whether all streams but one are as they were.
pub open spec fn same_streams<G: ComputeStorage, C: ComputeStorage>(
    was: Seq<Stream<G, C>>,
    now: Seq<Stream<G, C>>,
    i: int,
) -> bool {
    &&& now.len() == was.len()
    &&& forall|k: int| 0 <= k < was.len() && k != i ==> (#[trigger] now[k]) == was[k]
}

proof fn lemma_found<G: ComputeStorage, C: ComputeStorage>(
    before: Seq<Stream<G, C>>,
    binding: Binding,
    r: Result<G::Resource, IoError>,
    after: Seq<Stream<G, C>>,
    i: int,
)
    requires
        finds(before, binding, r, after),
        first_stream(before, binding.stream, i),
    ensures
        r matches Ok(resource) ==> bound_range(before[i], binding, resource),
        same_streams(before, after, i),
        after[i].memory_management_gpu@ == before[i].memory_management_gpu@,
        after[i].memory_management_cpu == before[i].memory_management_cpu,
        after[i].id == before[i].id,
{
    lemma_stream_at(before, binding.stream);
    let k = stream_at(before, binding.stream)->0;
    assert(k == i) by {
        if k < i {
            assert(before[k].id != binding.stream);
        } else if i < k {
            assert(before[i].id != binding.stream);
        }
    }
    lemma_resolved(
        before[i].memory_management_gpu@,
        before[i].memory_management_gpu.held(),
        binding.memory.id(),
        binding.offset_start,
        binding.offset_end,
        r,
    );
}

/// A binding is looked up on the stream that it belongs to, and nowhere else. It is invalid if
/// there is none.
pub proof fn law_bindings_are_looked_up_on_their_stream<G: ComputeStorage, C: ComputeStorage>(
    command: &mut Command<G, C>,
    binding: Binding,
    r: Result<G::Resource, IoError>,
    i: int,
)
    requires
        old(command).wf(),
        call_ensures(Command::<G, C>::resource, (command, binding), r),
    ensures
        first_stream(old(command).streams@, binding.stream, i) ==> {
            &&& r matches Ok(resource) ==> bound_range(
                old(command).streams@[i],
                binding,
                resource,
            )
            &&& same_streams(old(command).streams@, final(command).streams@, i)
            &&& final(command).streams@[i].memory_management_gpu@
                == old(command).streams@[i].memory_management_gpu@
        },
        no_stream(old(command).streams@, binding.stream) ==> {
            &&& r == Err::<G::Resource, IoError>(IoError::InvalidHandle)
            &&& final(command).streams@ == old(command).streams@
        },
        final(command).current == old(command).current,
        final(command).cursor == old(command).cursor,
{
    let before = old(command).streams@;
    lemma_stream_at(before, binding.stream);
    if first_stream(before, binding.stream, i) {
        lemma_found(before, binding, r, final(command).streams@, i);
    }
    if no_stream(before, binding.stream) && stream_at(before, binding.stream) is Some {
        let k = stream_at(before, binding.stream)->0;
        assert(before[k].id != binding.stream);
    }
}

/// Whether a copy is that of a tensor: in one piece up to one dimension, and else of rows as
/// long as the innermost extent, as many as the other extents make, apart as the strides say.
pub open spec fn plans(descriptor: CopyDescriptor, plan: CopyPlan) -> bool {
    let shape = descriptor.shape@;
    let rank = shape.len() as int;
    match plan {
        CopyPlan::Linear => rank <= 1,
        CopyPlan::Pitched { width, height, pitch } => {
            &&& rank >= 2
            &&& width == shape[rank - 1] * descriptor.elem_size
            &&& height == extents_between(shape, 0, rank - 1)
            &&& pitch == descriptor.strides@[rank - 2] * descriptor.elem_size
        },
    }
}

proof fn lemma_plans(descriptor: CopyDescriptor)
    requires
        descriptor.fits(),
        descriptor.supported(),
    ensures
        plans(descriptor, descriptor.plan()),
{
    let shape = descriptor.shape@;
    let rank = shape.len() as int;
    if rank >= 2 {
        lemma_product(shape, (rank - 1) as nat);
        assert(product(shape, (rank - 1) as nat) <= usize::MAX);
        crate::cuda::copy_laws::lemma_product_positive(shape, (rank - 1) as nat);
        let e = descriptor.elem_size as int;
        let s = shape[rank - 1] as int;
        let t = descriptor.strides@[rank - 2] as int;
        assert(0 <= s * e && 0 <= t * e) by (nonlinear_arith)
            requires
                0 <= s,
                0 <= t,
                0 <= e,
        ;
    }
}

proof fn lemma_supported(descriptor: CopyDescriptor)
    requires
        contiguous(descriptor.shape@, descriptor.strides@),
    ensures
        descriptor.supported(),
{
    let shape = descriptor.shape@;
    lemma_contiguous(shape, descriptor.strides@);
    if shape.len() > 0 {
        lemma_rows_apart(shape, descriptor.strides@, shape[shape.len() - 1] as int);
    }
}

proof fn lemma_downloaded<G: ComputeStorage, C: ComputeStorage>(
    before: Seq<Stream<G, C>>,
    on: int,
    descriptor: CopyDescriptor,
    r: Result<Download<G::Resource>, IoError>,
    after: Seq<Stream<G, C>>,
    i: int,
)
    requires
        downloads(before, on, descriptor, r, after),
        descriptor.fits(),
        first_stream(before, descriptor.handle.stream, i),
        0 <= on <= usize::MAX,
    ensures
        r matches Ok(download) ==> {
            &&& bound_range(before[i], descriptor.handle, download.resource)
            &&& plans(descriptor, download.plan)
            &&& download.stream == on
        },
        contiguous(descriptor.shape@, descriptor.strides@) ==> {
            r matches Err(error) ==> exists|found: Result<G::Resource, IoError>|
                #[trigger] finds(before, descriptor.handle, found, after) && found == Err::<
                    G::Resource,
                    IoError,
                >(error)
        },
        same_streams(before, after, i),
        after[i].memory_management_gpu@ == before[i].memory_management_gpu@,
        after[i].memory_management_cpu == before[i].memory_management_cpu,
        after[i].id == before[i].id,
{
    if contiguous(descriptor.shape@, descriptor.strides@) {
        lemma_supported(descriptor);
    }
    if descriptor.supported() {
        lemma_plans(descriptor);
        let found = choose|found: Result<G::Resource, IoError>|
            {
                &&& #[trigger] finds(before, descriptor.handle, found, after)
                &&& match found {
                    Ok(resource) => r == Ok::<Download<G::Resource>, IoError>(
                        Download { resource, plan: descriptor.plan(), stream: on as usize },
                    ),
                    Err(error) => r == Err::<Download<G::Resource>, IoError>(error),
                }
            };
        lemma_found(before, descriptor.handle, found, after, i);
    }
}

/// A copy out of device memory reads the range of the tensor's binding on the binding's stream,
/// row by row as its extents and strides say, and goes to the stream that is named, or to the
/// current one. A contiguous tensor is never refused for its strides.
pub proof fn law_download_reads_the_tensor<G: ComputeStorage, C: ComputeStorage>(
    command: &mut Command<G, C>,
    descriptor: CopyDescriptor,
    stream_id: Option<u64>,
    r: Result<Download<G::Resource>, IoError>,
    i: int,
)
    requires
        old(command).wf(),
        old(command).knows(stream_id),
        descriptor.fits(),
        call_ensures(Command::<G, C>::write_to_cpu, (command, descriptor, stream_id), r),
        first_stream(old(command).streams@, descriptor.handle.stream, i),
    ensures
        r matches Ok(download) ==> {
            &&& bound_range(old(command).streams@[i], descriptor.handle, download.resource)
            &&& plans(descriptor, download.plan)
            &&& stream_id is None ==> download.stream == old(command).current
            &&& stream_id matches Some(id) ==> first_stream(
                old(command).streams@,
                id,
                download.stream as int,
            )
        },
        contiguous(descriptor.shape@, descriptor.strides@) && r is Err ==> exists|
            found: Result<G::Resource, IoError>,
        |
            #[trigger] finds(
                old(command).streams@,
                descriptor.handle,
                found,
                final(command).streams@,
            ) && found is Err,
        same_streams(old(command).streams@, final(command).streams@, i),
        final(command).streams@[i].memory_management_gpu@
            == old(command).streams@[i].memory_management_gpu@,
{
    let before = old(command).streams@;
    let on = crate::cuda::command::chosen(before, old(command).current as int, stream_id)->0;
    if let Some(id) = stream_id {
        lemma_stream_at(before, id);
    }
    assert(old(command).streams@.len() == old(command).streams.len());
    lemma_downloaded(before, on, descriptor, r, final(command).streams@, i);
}

/// An error is registered on the current stream, behind those that are there, and on no other.
pub proof fn law_errors_go_to_the_current_stream<G: ComputeStorage, C: ComputeStorage>(
    command: &mut Command<G, C>,
    error: ServerError,
    r: (),
)
    requires
        old(command).wf(),
        call_ensures(Command::<G, C>::error, (command, error), r),
    ensures
        ({
            let c = old(command).current as int;
            let was = old(command).streams@[c];
            let now = final(command).streams@[c];
            &&& same_streams(old(command).streams@, final(command).streams@, c)
            &&& now.errors@.len() == was.errors@.len() + 1
            &&& now.errors@.last() == error
            &&& now.errors@.drop_last() =~= was.errors@
            &&& now.memory_management_gpu == was.memory_management_gpu
            &&& now.memory_management_cpu == was.memory_management_cpu
        }),
        final(command).current == old(command).current,
{
}

/// The buffer of a read has as many bytes as the tensor has elements times their size. It is
/// pinned at most if it is asked to be or has no more than 100 MiB. The copy that fills it is
/// of all rows of the tensor.
pub proof fn law_reads_have_room_for_the_tensor<G: ComputeStorage, C: ComputeStorage>(
    command: &mut Command<G, C>,
    descriptor: CopyDescriptor,
    pinned: bool,
    stream_id: Option<u64>,
    r: Result<(HostBuffer<C::Resource>, Download<G::Resource>), IoError>,
)
    requires
        old(command).wf(),
        old(command).knows(stream_id),
        old(command).meant(stream_id).memory_management_cpu@.can_count(),
        descriptor.fits(),
        descriptor.countable(),
        call_ensures(Command::<G, C>::copy_to_bytes, (command, descriptor, pinned, stream_id), r),
    ensures
        r matches Ok((buffer, download)) ==> {
            let bytes = extents_between(descriptor.shape@, 0, descriptor.shape@.len() as int)
                * descriptor.elem_size;
            &&& buffer matches HostBuffer::Heap { size } ==> size == bytes
            &&& buffer matches HostBuffer::Pinned { size, .. } ==> size == bytes && (pinned
                || bytes <= 100 * 1024 * 1024)
            &&& plans(descriptor, download.plan)
            &&& stream_id is None ==> download.stream == old(command).current
            &&& stream_id matches Some(id) ==> first_stream(
                old(command).streams@,
                id,
                download.stream as int,
            )
        },
{
    if let Ok((buffer, download)) = r {
        let before = old(command).streams@;
        let on = crate::cuda::command::chosen(before, old(command).current as int, stream_id)->0;
        if let Some(id) = stream_id {
            lemma_stream_at(before, id);
        }
        let shape = descriptor.shape@;
        lemma_product(shape, shape.len());
        crate::cuda::copy_laws::lemma_product_positive(shape, shape.len());
        let p = product(shape, shape.len());
        let e = descriptor.elem_size as int;
        assert(0 <= p * e) by (nonlinear_arith)
            requires
                0 <= p,
                0 <= e,
        ;
        let (mid, b, d) = choose|
            mid: Seq<Stream<G, C>>,
            buffer: HostBuffer<C::Resource>,
            download: Result<Download<G::Resource>, IoError>,
        |
            {
                &&& #[trigger] crate::cuda::command::buffered_on(
                    before,
                    on,
                    descriptor.bytes(),
                    pinned,
                    buffer,
                    mid,
                )
                &&& #[trigger] downloads(mid, on, descriptor, download, final(command).streams@)
                &&& match download {
                    Ok(download) => r == Ok::<
                        (HostBuffer<C::Resource>, Download<G::Resource>),
                        IoError,
                    >((buffer, download)),
                    Err(error) => r == Err::<
                        (HostBuffer<C::Resource>, Download<G::Resource>),
                        IoError,
                    >(error),
                }
            };
        assert(descriptor.supported());
        lemma_plans(descriptor);
        assert(old(command).streams@.len() == old(command).streams.len());
    }
}

/// A write goes where a read would come from. Its bytes go through pinned memory only if they
/// are of a file, or staging is on and there are between 256 KiB and 128 MiB that are not pinned
/// already; bytes of a file never go without, and that there is none fails no other write.
pub proof fn law_writes_are_staged_where_wanted<G: ComputeStorage, C: ComputeStorage>(
    command: &mut Command<G, C>,
    descriptor: CopyDescriptor,
    property: AllocationProperty,
    size: usize,
    staging_enabled: bool,
    r: Result<Upload<G::Resource, C::Resource>, IoError>,
    i: int,
)
    requires
        old(command).wf(),
        old(command).here().memory_management_cpu@.can_count(),
        descriptor.fits(),
        call_ensures(
            Command::<G, C>::write_to_gpu,
            (command, descriptor, property, size, staging_enabled),
            r,
        ),
        first_stream(old(command).streams@, descriptor.handle.stream, i),
    ensures
        r matches Ok(upload) ==> {
            &&& bound_range(old(command).streams@[i], descriptor.handle, upload.resource)
            &&& plans(descriptor, upload.plan)
            &&& property is Pinned ==> upload.staging is None
            &&& property is File ==> upload.staging is Some
            &&& upload.staging is Some && !(property is File) ==> staging_enabled && 256 * 1024
                <= size <= 128 * 1024 * 1024
        },
        r matches Err(IoError::Unpinned) && contiguous(descriptor.shape@, descriptor.strides@)
            ==> property is File || exists|found: Result<G::Resource, IoError>|
            found is Err && found->Err_0 == IoError::Unpinned && exists|
                mid: Seq<Stream<G, C>>,
            |
                #[trigger] finds(old(command).streams@, descriptor.handle, found, mid),
{
    let before = old(command).streams@;
    let current = old(command).current as int;
    let after = final(command).streams@;
    let (mid, download) = choose|
        mid: Seq<Stream<G, C>>,
        download: Result<Download<G::Resource>, IoError>,
    |
        {
            &&& #[trigger] downloads(before, current, descriptor, download, mid)
            &&& match download {
                Ok(download) => if crate::cuda::stream::stages(property, size, staging_enabled) {
                    exists|staging: Option<(crate::memory::handle::ManagedMemoryBinding, C::Resource)>|
                        {
                            &&& #[trigger] crate::cuda::command::pinned_on(
                                mid,
                                current,
                                size,
                                staging,
                                after,
                            )
                            &&& crate::cuda::command::uploads_staged(
                                download,
                                property,
                                staging,
                                r,
                            )
                        }
                } else {
                    &&& after == mid
                    &&& r matches Ok(upload) && crate::cuda::command::is_upload(
                        upload,
                        download,
                        None,
                    )
                },
                Err(error) => {
                    &&& after == mid
                    &&& r matches Err(e) && e == error
                },
            }
        };
    lemma_downloaded(before, current, descriptor, download, mid, i);
}

/// New memory with data has as many bytes as there are, on the current stream, none of them left
/// out, and is held at the cursor of the command. It is filled in one piece through pinned memory
/// of the same size.
pub proof fn law_created_memory_has_the_data<G: ComputeStorage, C: ComputeStorage>(
    command: &mut Command<G, C>,
    len: usize,
    r: Result<Created<G::Resource, C::Resource>, IoError>,
)
    requires
        old(command).wf(),
        old(command).here().memory_management_cpu@.can_count(),
        old(command).here().memory_management_gpu@.can_count(),
        call_ensures(Command::<G, C>::create_with_data, (command, len), r),
    ensures
        r matches Ok(created) ==> {
            &&& created.handle.bytes == len
            &&& created.handle.stream == old(command).here().id
            &&& created.handle.offset_start is None && created.handle.offset_end is None
            &&& created.plan is Linear
            &&& !created.handle.memory.read_only()
            &&& created.handle.memory.id() >= old(command).here().memory_management_gpu@.next_id
            &&& held_at(
                final(command).here().memory_management_gpu@,
                created.handle.memory,
                len as u64,
                old(command).cursor,
            )
            &&& pinned_of(
                old(command).here().memory_management_cpu@,
                final(command).here().memory_management_cpu@,
                len as u64,
                Some(created.staging.0),
            )
            &&& is_resource_of(
                final(command).here().memory_management_cpu,
                created.staging.0.id(),
                created.staging.1,
            )
        },
{
    let before = old(command).streams@;
    let current = old(command).current as int;
    let cursor = old(command).cursor;
    let after = final(command).streams@;
    assert(before[current].wf());
    let (mid, pinned) = choose|
        mid: Seq<Stream<G, C>>,
        pinned: Option<(ManagedMemoryBinding, C::Resource)>,
    |
        {
            &&& #[trigger] pinned_on(before, current, len, pinned, mid)
            &&& match pinned {
                Some(staging) => fills(mid, current, cursor, len, staging, r, after),
                None => {
                    &&& after == mid
                    &&& r matches Err(error) && error == IoError::Unpinned
                },
            }
        };
    lemma_pinned_of(
        before[current].memory_management_cpu,
        len as u64,
        pinned,
        mid[current].memory_management_cpu,
    );
    if r is Ok {
        let staging = pinned->0;
        let (filled, handle) = choose|filled: Seq<Stream<G, C>>, handle: Result<Handle, IoError>|
            {
                &&& only_at(mid, current, filled)
                &&& #[trigger] empties(mid[current], filled[current], len as u64, cursor, handle)
                &&& match handle {
                    Ok(handle) => exists|binding: Binding, found: Result<G::Resource, IoError>|
                        {
                            &&& #[trigger] finds(filled, binding, found, after)
                            &&& binds(binding, handle)
                            &&& match found {
                                Ok(resource) => {
                                    &&& r matches Ok(created)
                                    &&& created.handle == handle
                                    &&& created.resource == resource
                                    &&& created.plan == CopyPlan::Linear
                                    &&& created.staging == staging
                                },
                                Err(error) => r matches Err(e) && e == error,
                            }
                        },
                    Err(error) => {
                        &&& after == filled
                        &&& r matches Err(e) && e == error
                    },
                }
            };
        lemma_new_memory(mid[current], filled[current], len as u64, cursor, handle);
        assert(after[current].memory_management_gpu@ == filled[current].memory_management_gpu@);
        assert(after[current].memory_management_cpu == mid[current].memory_management_cpu);
    }
}

/// Every stream that was copied from is waited for, once, and in the order in which streams
/// were first copied from.
pub proof fn law_streams_are_fenced_in_order(streams: Vec<u64>, r: Vec<u64>, a: int, b: int, i: int)
    requires
        call_ensures(fenced_streams, (&streams,), r),
    ensures
        forall|s: u64| #[trigger] r@.contains(s) <==> streams@.contains(s),
        r@.no_duplicates(),
        0 <= a < b < r@.len() && 0 <= i < streams@.len() && streams@[i] == r@[b] ==> exists|j: int|
            0 <= j < i && (#[trigger] streams@[j]) == r@[a],
{
    crate::cuda::command::law_every_stream_is_fenced_once(streams@);
    if 0 <= a < b < r@.len() && 0 <= i < streams@.len() && streams@[i] == r@[b] {
        lemma_distinct_order(streams@, a, b, i);
    }
}

proof fn lemma_distinct_order(streams: Seq<u64>, a: int, b: int, i: int)
    requires
        0 <= a < b < distinct(streams).len(),
        0 <= i < streams.len(),
        streams[i] == distinct(streams)[b],
    ensures
        exists|j: int| 0 <= j < i && (#[trigger] streams[j]) == distinct(streams)[a],
    decreases streams.len(),
{
    let rest = streams.drop_last();
    let before = distinct(rest);
    let last = streams.last();
    crate::cuda::command::law_every_stream_is_fenced_once(rest);
    if b < before.len() {
        if i < rest.len() {
            lemma_distinct_order(rest, a, b, i);
            let j = choose|j: int| 0 <= j < i && (#[trigger] rest[j]) == before[a];
            assert(streams[j] == distinct(streams)[a]);
        } else {
            assert(before.contains(before[a]));
            let j = choose|j: int| 0 <= j < rest.len() && rest[j] == before[a];
            assert(streams[j] == distinct(streams)[a]);
        }
    } else {
        assert(!before.contains(last));
        if i < rest.len() {
            assert(rest.contains(rest[i]));
            assert(before.contains(rest[i]));
            assert(false);
        }
        assert(before.contains(before[a]));
        let j = choose|j: int| 0 <= j < rest.len() && rest[j] == before[a];
        assert(streams[j] == distinct(streams)[a]);
    }
}

/// A launch goes on unless it failed and no profile is taken. An error is never lost: it fails
/// the launch, or it is the profile's.
pub proof fn law_errors_of_launches_are_kept(
    result: Result<(), LaunchError>,
    profiling: bool,
    r: LaunchOutcome,
)
    requires
        call_ensures(launch_outcome, (result, profiling), r),
    ensures
        r is Continue <==> result is Ok,
        r matches LaunchOutcome::Fail(error) ==> result == Err::<(), LaunchError>(error)
            && !profiling,
        r matches LaunchOutcome::SpoilProfile(error) ==> result == Err::<(), LaunchError>(error)
            && profiling,
{
}

/// A launch of an active capture became the node of the frontier if that is the only one, with
/// the shape of its kernel. Nothing is known of the node outside of a capture.
pub proof fn law_launch_became_the_frontier(
    capturing: bool,
    frontier: Frontier,
    shape: Option<KernelShape>,
    r: CapturedLaunchNode,
)
    requires
        call_ensures(captured_node, (capturing, frontier, shape), r),
    ensures
        r is Absent <==> !(capturing && frontier.active && frontier.node is Some),
        r matches CapturedLaunchNode::Node(node) ==> frontier.node == Some(node.node) && shape
            == Some(node.shape) && frontier.count == 1,
        r matches CapturedLaunchNode::Forked { count } ==> count == frontier.count && count != 1,
        r is NotLoaded ==> shape is None && frontier.count == 1,
{
}

/// Whether only the current stream of a command changed.
pub open spec fn on_the_current_stream<G: ComputeStorage, C: ComputeStorage>(
    was: Command<G, C>,
    now: Command<G, C>,
) -> bool {
    &&& now.current == was.current
    &&& now.cursor == was.cursor
    &&& now.streams@.len() == was.streams@.len()
    &&& forall|j: int|
        0 <= j < was.streams@.len() && j != was.current ==> #[trigger] now.streams@[j]
            == was.streams@[j]
}

/// Whether a stream changed in its device memory alone.
pub open spec fn in_device_memory<G: ComputeStorage, C: ComputeStorage>(
    was: Stream<G, C>,
    now: Stream<G, C>,
) -> bool {
    &&& same_counts(was, now)
    &&& now.errors == was.errors
    &&& now.memory_management_cpu == was.memory_management_cpu
}

/// Whether a stream changed in its pinned memory alone.
pub open spec fn in_pinned_memory<G: ComputeStorage, C: ComputeStorage>(
    was: Stream<G, C>,
    now: Stream<G, C>,
) -> bool {
    &&& same_counts(was, now)
    &&& now.errors == was.errors
    &&& now.memory_management_gpu == was.memory_management_gpu
}

/// A command reserves device memory on the current stream, of the size that is asked for.
pub proof fn law_commands_reserve_on_the_current_stream<G: ComputeStorage, C: ComputeStorage>(
    command: &mut Command<G, C>,
    size: u64,
    r: Result<ManagedMemoryHandle, IoError>,
    at: int,
)
    requires
        old(command).wf(),
        at == old(command).current,
        old(command).streams@[at].memory_management_gpu@.can_count(),
        call_ensures(Command::<G, C>::reserve, (command, size), r),
    ensures
        on_the_current_stream(*old(command), *final(command)),
        in_device_memory(old(command).streams@[at], final(command).streams@[at]),
        asked_of(
            old(command).streams@[at].memory_management_gpu@,
            final(command).streams@[at].memory_management_gpu@,
            size,
            r,
        ),
{
    let was = old(command).here().memory_management_gpu;
    let now = final(command).here().memory_management_gpu@;
    let live = choose|live: Liveness|
        {
            &&& was@.sees(live)
            &&& #[trigger] was@.reserved(size, live, r, now)
            &&& refused_by(was.held(), was@, size, live, r)
        };
    assert(old(command).here().wf());
    lemma_asked_of(was@, now, size, live, r);
}

/// A command makes new memory on the current stream, at the cursor of the command.
pub proof fn law_commands_make_memory_at_their_cursor<G: ComputeStorage, C: ComputeStorage>(
    command: &mut Command<G, C>,
    size: u64,
    r: Result<Handle, IoError>,
    cursor: u64,
    at: int,
)
    requires
        old(command).wf(),
        at == old(command).current,
        old(command).streams@[at].memory_management_gpu@.can_count(),
        call_ensures(Command::<G, C>::cursor, (&*old(command),), cursor),
        call_ensures(Command::<G, C>::empty, (command, size), r),
    ensures
        on_the_current_stream(*old(command), *final(command)),
        new_memory(old(command).streams@[at], final(command).streams@[at], size, cursor, r),
{
    lemma_new_memory(old(command).here(), final(command).here(), size, cursor, r);
}

/// A command gives reserved memory of the current stream to another handle, at the cursor of
/// the command.
pub proof fn law_commands_bind_at_their_cursor<G: ComputeStorage, C: ComputeStorage>(
    command: &mut Command<G, C>,
    reserved: ManagedMemoryHandle,
    new: ManagedMemoryHandle,
    r: Result<(), IoError>,
    cursor: u64,
    at: int,
)
    requires
        old(command).wf(),
        at == old(command).current,
        call_ensures(Command::<G, C>::cursor, (&*old(command),), cursor),
        call_ensures(Command::<G, C>::bind, (command, reserved, new), r),
    ensures
        on_the_current_stream(*old(command), *final(command)),
        in_device_memory(old(command).streams@[at], final(command).streams@[at]),
        r is Ok <==> held_somewhere(
            old(command).streams@[at].memory_management_gpu@,
            reserved.id(),
        ),
        r is Ok ==> changes_hands(
            old(command).streams@[at].memory_management_gpu@,
            final(command).streams@[at].memory_management_gpu@,
            reserved.id(),
            new,
            cursor,
        ),
        r is Err ==> final(command).streams@[at].memory_management_gpu@.pools == old(
            command,
        ).streams@[at].memory_management_gpu@.pools,
{
    assert(old(command).here().wf());
    lemma_changes_hands(
        old(command).here().memory_management_gpu@,
        reserved.id(),
        new,
        cursor,
        r,
        final(command).here().memory_management_gpu@,
    );
}

/// A command cleans up the device memory of the current stream.
pub proof fn law_commands_clean_the_current_stream_up<G: ComputeStorage, C: ComputeStorage>(
    command: &mut Command<G, C>,
    r: (),
    at: int,
)
    requires
        old(command).wf(),
        at == old(command).current,
        call_ensures(Command::<G, C>::memory_cleanup, (command,), r),
    ensures
        on_the_current_stream(*old(command), *final(command)),
        in_device_memory(old(command).streams@[at], final(command).streams@[at]),
        cleaned_up(
            old(command).streams@[at].memory_management_gpu@,
            final(command).streams@[at].memory_management_gpu@,
        ),
{
    let was = old(command).here().memory_management_gpu@;
    let now = final(command).here().memory_management_gpu@;
    let live = choose|live: Liveness|
        was.sees(live) && now == #[trigger] was.cleaned(live, true);
    assert(old(command).here().wf());
    lemma_cleaned_up(was, now, live, true);
}

/// The usage that a command tells is that of the current stream's device memory.
pub proof fn law_commands_tell_the_current_usage<G: ComputeStorage, C: ComputeStorage>(
    command: Command<G, C>,
    r: MemoryUsage,
    at: int,
)
    requires
        command.wf(),
        at == command.current,
        command.streams@[at].memory_management_gpu@.capacity().fits(),
        call_ensures(Command::<G, C>::memory_usage, (&command,), r),
    ensures
        r.bytes_reserved == pool_bytes(
            command.streams@[at].memory_management_gpu@,
            command.streams@[at].memory_management_gpu@.pools.len(),
        ),
{
    let m = command.here().memory_management_gpu@;
    assert(command.here().wf());
    let live = choose|live: Liveness| m.sees(live) && r@ == #[trigger] m.usage(live);
    lemma_pool_bytes(m, live, m.pools.len());
}

/// A command sets the mode of the current stream's device memory, where it may change.
pub proof fn law_commands_set_the_current_mode<G: ComputeStorage, C: ComputeStorage>(
    command: &mut Command<G, C>,
    mode: MemoryAllocationMode,
    r: (),
    at: int,
)
    requires
        old(command).wf(),
        at == old(command).current,
        call_ensures(Command::<G, C>::allocation_mode, (command, mode), r),
    ensures
        on_the_current_stream(*old(command), *final(command)),
        in_device_memory(old(command).streams@[at], final(command).streams@[at]),
        ({
            let was = old(command).streams@[at].memory_management_gpu@;
            let now = final(command).streams@[at].memory_management_gpu@;
            &&& now.pools == was.pools
            &&& was.config is Enabled && !was.forced ==> now.mode == mode
            &&& !(was.config is Enabled) || was.forced ==> now.mode == was.mode
        }),
{
}

/// Whether a stream is the one that a command means: the first with the id that is named, and
/// the current one if none is.
pub open spec fn is_meant<G: ComputeStorage, C: ComputeStorage>(
    command: Command<G, C>,
    origin: Option<u64>,
    at: int,
) -> bool {
    match origin {
        Some(id) => first_stream(command.streams@, id, at),
        None => at == command.current,
    }
}

/// Whether only one stream of a command changed.
pub open spec fn on_one_stream<G: ComputeStorage, C: ComputeStorage>(
    was: Command<G, C>,
    now: Command<G, C>,
    at: int,
) -> bool {
    &&& now.current == was.current
    &&& now.cursor == was.cursor
    &&& now.streams@.len() == was.streams@.len()
    &&& forall|j: int|
        0 <= j < was.streams@.len() && j != at ==> #[trigger] now.streams@[j] == was.streams@[j]
}

proof fn lemma_is_meant<G: ComputeStorage, C: ComputeStorage>(
    command: Command<G, C>,
    origin: Option<u64>,
    at: int,
)
    requires
        command.wf(),
        is_meant(command, origin, at),
    ensures
        command.knows(origin),
        chosen(command.streams@, command.current as int, origin) == Some(at),
        0 <= at < command.streams@.len(),
        command.streams@[at].wf(),
{
    if let Some(id) = origin {
        lemma_first_is(
            command.streams@.len(),
            |i: int| is_stream(command.streams@, id, i),
            at,
        );
    }
}

/// A command reserves pinned memory on the stream that is meant.
pub proof fn law_commands_pin_on_the_stream_meant<G: ComputeStorage, C: ComputeStorage>(
    command: &mut Command<G, C>,
    size: usize,
    origin: Option<u64>,
    r: Option<(ManagedMemoryBinding, C::Resource)>,
    at: int,
)
    requires
        old(command).wf(),
        is_meant(*old(command), origin, at),
        old(command).streams@[at].memory_management_cpu@.can_count(),
        call_ensures(Command::<G, C>::reserve_pinned, (command, size, origin), r),
    ensures
        on_one_stream(*old(command), *final(command), at),
        in_pinned_memory(old(command).streams@[at], final(command).streams@[at]),
        r matches Some((binding, resource)) ==> pinned_of(
            old(command).streams@[at].memory_management_cpu@,
            final(command).streams@[at].memory_management_cpu@,
            size as u64,
            Some(binding),
        ) && is_resource_of(
            final(command).streams@[at].memory_management_cpu,
            binding.id(),
            resource,
        ),
        r is None ==> pinned_of(
            old(command).streams@[at].memory_management_cpu@,
            final(command).streams@[at].memory_management_cpu@,
            size as u64,
            None,
        ),
{
    lemma_is_meant(*old(command), origin, at);
    lemma_pinned_of(
        old(command).streams@[at].memory_management_cpu,
        size as u64,
        r,
        final(command).streams@[at].memory_management_cpu,
    );
}

/// A command takes a host buffer of the stream that is meant, of the size that is asked for.
/// Above 100 MiB it is on the heap unless it is asked to be pinned, and nothing changes.
pub proof fn law_commands_buffer_on_the_stream_meant<G: ComputeStorage, C: ComputeStorage>(
    command: &mut Command<G, C>,
    size: usize,
    marked_pinned: bool,
    origin: Option<u64>,
    r: HostBuffer<C::Resource>,
    at: int,
)
    requires
        old(command).wf(),
        is_meant(*old(command), origin, at),
        old(command).streams@[at].memory_management_cpu@.can_count(),
        call_ensures(Command::<G, C>::reserve_cpu, (command, size, marked_pinned, origin), r),
    ensures
        on_one_stream(*old(command), *final(command), at),
        in_pinned_memory(old(command).streams@[at], final(command).streams@[at]),
        r matches HostBuffer::Heap { size: bytes } ==> bytes == size,
        r matches HostBuffer::Pinned { size: bytes, binding, resource } ==> {
            &&& bytes == size
            &&& marked_pinned || size <= 100 * 1024 * 1024
            &&& is_resource_of(
                final(command).streams@[at].memory_management_cpu,
                binding.id(),
                resource,
            )
        },
        size > 100 * 1024 * 1024 && !marked_pinned ==> r is Heap && final(command).streams@
            == old(command).streams@,
{
    lemma_is_meant(*old(command), origin, at);
    if size <= 100 * 1024 * 1024 || marked_pinned {
        lemma_pinned_of(
            old(command).streams@[at].memory_management_cpu,
            size as u64,
            r.pinned(),
            final(command).streams@[at].memory_management_cpu,
        );
    }
}

} // verus!
