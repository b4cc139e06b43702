use cubecl_memory::cuda::command::{
    fenced_streams, launch_outcome, Command, CopyDescriptor, LaunchOutcome,
};
use cubecl_memory::cuda::copy::{copy_plan, has_pitched_row_major_strides, num_bytes, CopyPlan};
use cubecl_memory::cuda::error::{LaunchError, ServerError};
use cubecl_memory::cuda::launch::{LaunchBindings, LaunchOptions, LaunchRefusal};
use cubecl_memory::cuda::stream::{
    staging_wanted, AllocationProperty, CudaStreamBackend, HostBuffer, Keeper, Stream,
    StreamErrorMode, PINNED_LIMIT, PINNED_STAGING_MAX, PINNED_STAGING_MIN,
};
use cubecl_memory::handle::Handle;
use cubecl_memory::memory::bytes::{BytesResource, BytesStorage};
use cubecl_memory::memory::error::IoError;
use cubecl_memory::memory::handle::HandleIds;
use cubecl_memory::memory::options::{
    MemoryAllocationMode, MemoryConfiguration, MemoryDeviceProperties, MemoryPoolOptions,
    PersistentMemory, PoolType,
};
use cubecl_memory::memory::storage::{ComputeStorage, StorageHandle};
use cubecl_memory::policy::FlushingPolicy;

const PROPS: MemoryDeviceProperties =
    MemoryDeviceProperties { max_page_size: 1 << 20, alignment: 32 };

fn sliced() -> MemoryConfiguration {
    MemoryConfiguration::Custom {
        pool_options: vec![MemoryPoolOptions {
            pool_type: PoolType::SlicedPages { page_size: 4096, max_slice_size: 4096 },
            dealloc_period: None,
        }],
    }
}

fn stream_with(id: u64, ids: &HandleIds) -> Stream<BytesStorage, BytesStorage> {
    let backend = CudaStreamBackend {
        mem_props: PROPS,
        pinned_alignment: 64,
        persistent: PersistentMemory::Enabled,
        policy: FlushingPolicy { max_bytes_count: 2, max_bytes_size: 1000 },
    };
    backend.create_stream(
        id,
        BytesStorage::new(),
        BytesStorage::new(),
        sliced(),
        sliced(),
        ids.clone(),
    )
}

fn stream() -> Stream<BytesStorage, BytesStorage> {
    stream_with(7, &HandleIds::new())
}

/// A command on the last of these streams.
fn command(streams: &[u64]) -> Command<BytesStorage, BytesStorage> {
    let ids = HandleIds::new();
    Command {
        streams: streams.iter().map(|id| stream_with(*id, &ids)).collect(),
        current: streams.len() - 1,
        cursor: 3,
    }
}

fn options() -> LaunchOptions {
    LaunchOptions {
        grid_constants: true,
        capture_open: false,
        hold: true,
        arena: true,
        stage_own: true,
    }
}

fn descriptor(handle: &Handle, shape: Vec<usize>, strides: Vec<usize>) -> CopyDescriptor {
    CopyDescriptor { handle: handle.clone().binding(), shape, strides, elem_size: 4 }
}

#[test]
fn rows_may_be_apart() {
    assert!(has_pitched_row_major_strides(&vec![2, 3, 5], &vec![24, 8, 1]));
    assert!(!has_pitched_row_major_strides(&vec![2, 3, 5], &vec![25, 8, 1]));
    assert!(!has_pitched_row_major_strides(&vec![3, 5], &vec![4, 1]));
    assert!(!has_pitched_row_major_strides(&vec![3, 5], &vec![10, 2]));
    assert_eq!(
        copy_plan(&vec![2, 3, 5], &vec![24, 8, 1], 4),
        Ok(CopyPlan::Pitched { width: 20, height: 6, pitch: 32 })
    );
    assert_eq!(copy_plan(&vec![5], &vec![1], 4), Ok(CopyPlan::Linear));
    assert_eq!(copy_plan(&vec![5], &vec![2], 4), Err(IoError::UnsupportedStrides));
    assert_eq!(num_bytes(&vec![2, 3, 5], 4), 120);
}

/// Rows that are copied apart and back are the rows there were.
#[test]
fn a_copy_in_and_out_gives_the_same() {
    let CopyPlan::Pitched { width, height, pitch } =
        copy_plan(&vec![2, 2, 3], &vec![10, 5, 1], 2).unwrap()
    else {
        panic!("the rows are apart");
    };
    assert_eq!((width, height, pitch), (6, 4, 10));
    let host: Vec<u8> = (0..24).collect();
    let mut device = vec![0xff; 36];
    for row in 0..height {
        device[row * pitch..row * pitch + width]
            .copy_from_slice(&host[row * width..(row + 1) * width]);
    }
    let back: Vec<u8> = (0..24).map(|i| device[i / width * pitch + i % width]).collect();
    assert_eq!(back, host);
    assert_eq!(device.iter().filter(|byte| **byte == 0xff).count(), 12);
}

#[test]
fn memory_is_written_and_read_back() {
    let mut command = command(&[7]);
    let handle = command.empty(128).unwrap();
    assert_eq!((handle.stream, handle.size()), (7, 128));
    assert_eq!(command.cursor(), 3);
    assert_eq!(
        CudaStreamBackend::handle_cursor(&command.streams[0], &handle.clone().binding()),
        Ok(3)
    );
    let upload = command
        .write_to_gpu(
            descriptor(&handle, vec![4, 8], vec![8, 1]),
            AllocationProperty::Native,
            128,
            false,
        )
        .ok()
        .unwrap();
    assert_eq!(upload.resource, BytesResource { id: 0, offset: 0, size: 128 });
    assert_eq!(upload.plan, CopyPlan::Pitched { width: 32, height: 4, pitch: 32 });
    assert!(upload.staging.is_none());
    let (buffer, download) =
        command.copy_to_bytes(descriptor(&handle, vec![32], vec![1]), true, None).ok().unwrap();
    assert!(matches!(buffer, HostBuffer::Pinned { size: 128, .. }));
    assert_eq!(download.resource, upload.resource);
    assert_eq!((download.plan, download.stream), (CopyPlan::Linear, 0));
    let refused = command.write_to_cpu(descriptor(&handle, vec![4, 8], vec![1, 4]), None);
    assert_eq!(refused.err(), Some(IoError::UnsupportedStrides));
}

/// Memory is looked up on the stream that it belongs to, and copied on the one that is named.
#[test]
fn a_command_reaches_the_memory_of_other_streams() {
    let mut command = command(&[1, 2]);
    command.current = 0;
    let other = command.empty(64).unwrap();
    command.current = 1;
    let mine = command.empty(32).unwrap();
    assert_eq!((other.stream, mine.stream), (1, 2));
    let here = command.write_to_cpu(descriptor(&other, vec![16], vec![1]), None).ok().unwrap();
    assert_eq!((here.resource.size, here.stream), (64, 1));
    let there = command.write_to_cpu(descriptor(&mine, vec![8], vec![1]), Some(1)).ok().unwrap();
    assert_eq!((there.resource.size, there.stream), (32, 0));
    assert_eq!(command.position(2), Some(1));
    assert_eq!(command.position(9), None);
    command.error(ServerError::StreamMismatch);
    assert!(CudaStreamBackend::is_healthy(&command.streams[0]));
    assert!(!CudaStreamBackend::is_healthy(&command.streams[1]));
}

#[test]
fn new_memory_is_filled_through_pinned_memory() {
    let mut command = command(&[7]);
    let created = command.create_with_data(40).ok().unwrap();
    assert_eq!((created.handle.stream, created.handle.size()), (7, 40));
    assert_eq!(created.resource, BytesResource { id: 0, offset: 0, size: 40 });
    assert_eq!(created.staging.1, BytesResource { id: 0, offset: 0, size: 40 });
    assert_eq!(created.plan, CopyPlan::Linear);
    assert_eq!(command.create_with_data(5000).err(), Some(IoError::Unpinned));
    assert_eq!(command.memory_usage().bytes_in_use, 40);
    drop(created);
    command.memory_cleanup();
    assert_eq!(command.memory_usage().bytes_reserved, 0);
}

#[test]
fn reserved_memory_is_given_to_a_handle() {
    let mut command = command(&[7]);
    let reserved = command.reserve(100).unwrap();
    let user = Handle::new(&command.streams[0].ids, 7, 100);
    command.bind(reserved, user.memory.clone()).unwrap();
    assert_eq!(command.resource(user.binding()).map(|resource| resource.size), Ok(100));
    command.allocation_mode(MemoryAllocationMode::Persistent);
    assert!(command.reserve(8000).is_ok());
}

/// Bytes of a file are always staged; others between the bounds, where it is asked for.
#[test]
fn writes_are_staged_where_it_pays() {
    let native = |size, enabled| staging_wanted(AllocationProperty::Native, size, enabled);
    assert!(!native(PINNED_STAGING_MIN - 1, true) && native(PINNED_STAGING_MIN, true));
    assert!(native(PINNED_STAGING_MAX, true) && !native(PINNED_STAGING_MAX + 1, true));
    assert!(!native(PINNED_STAGING_MIN, false));
    assert!(staging_wanted(AllocationProperty::File, 1, false));
    assert!(!staging_wanted(AllocationProperty::Pinned, PINNED_STAGING_MIN, true));

    let mut command = command(&[7]);
    let handle = command.empty(64).unwrap();
    let file = command
        .write_to_gpu(
            descriptor(&handle, vec![16], vec![1]),
            AllocationProperty::File,
            64,
            false,
        )
        .ok()
        .unwrap();
    assert!(file.staging.is_some());
    // More than the pinned pool holds.
    let refused = command.write_to_gpu(
        descriptor(&handle, vec![16], vec![1]),
        AllocationProperty::File,
        5000,
        false,
    );
    assert_eq!(refused.err(), Some(IoError::Unpinned));
}

/// The binding of pinned memory is that of the memory that comes with it, and a second one is
/// other memory.
#[test]
fn pinned_memory_is_what_was_reserved() {
    let mut stream = stream();
    let (binding, resource) = stream.reserve_pinned(40).unwrap();
    let (other, another) = stream.reserve_pinned(40).unwrap();
    let cpu = &mut stream.memory_management_cpu;
    assert_eq!(cpu.get_resource(binding.clone(), None, None), Ok(resource));
    assert_eq!(cpu.get_resource(other.clone(), None, None), Ok(another));
    assert_ne!(resource, another);
    assert_eq!(cpu.memory_usage().bytes_in_use, 80);
    drop(binding);
    assert_eq!(cpu.memory_usage().bytes_in_use, 40);
    drop(other);
}

#[test]
fn large_buffers_go_to_the_heap() {
    let mut command = command(&[7, 8]);
    assert!(matches!(
        command.reserve_cpu(PINNED_LIMIT + 1, false, None),
        HostBuffer::Heap { size } if size == PINNED_LIMIT + 1
    ));
    assert!(matches!(
        command.reserve_cpu(10, false, Some(7)),
        HostBuffer::Pinned { size: 10, .. }
    ));
    assert!(matches!(command.reserve_cpu(5000, true, None), HostBuffer::Heap { size: 5000 }));
}

#[test]
fn errors_refuse_a_command_unless_they_are_ignored() {
    let mut stream = stream();
    let all = StreamErrorMode { ignore: false, flush: true };
    assert!(stream.begin_command(all).is_ok());
    stream.error(ServerError::StreamMismatch);
    assert!(!CudaStreamBackend::is_healthy(&stream));
    let left = stream.begin_command(StreamErrorMode { ignore: false, flush: false });
    assert!(left.err().unwrap().is_empty());
    assert!(stream.begin_command(StreamErrorMode { ignore: true, flush: false }).is_ok());
    assert!(!CudaStreamBackend::is_healthy(&stream));
    let errors = stream.begin_command(all).err().unwrap();
    assert_eq!(errors.len(), 1);
    assert!(CudaStreamBackend::is_healthy(&stream));
    stream.error(ServerError::StreamMismatch);
    assert!(stream.begin_command(StreamErrorMode { ignore: true, flush: true }).is_ok());
    assert!(CudaStreamBackend::is_healthy(&stream));
}

#[test]
fn a_capture_keeps_its_staging() {
    let mut stream = stream();
    assert_eq!(stream.keep_staged(10, true), Keeper::Queue);
    assert!(!stream.flush_due());
    assert_eq!(stream.keep_staged(10, true), Keeper::Queue);
    assert!(stream.flush_due());
    assert_eq!(stream.begin_capture(true), None);
    stream.memory_management_gpu.arena_begin();
    assert_eq!(stream.begin_capture(true), Some(0));
    assert!(!stream.flush_due());
    assert_eq!(stream.keep_staged(30, true), Keeper::Capture { index: 0 });
    assert_eq!(stream.keep_staged(40, true), Keeper::Capture { index: 1 });
    assert_eq!(stream.keep_staged(50, false), Keeper::Queue);
    let held = stream.reserve(100).unwrap();
    let (signature, staging) = stream.end_capture(0);
    assert_eq!(staging, vec![30, 40]);
    assert_eq!(signature, stream.memory_management_gpu.arena_signature(0));
    assert_ne!(signature, stream.memory_management_gpu.arena_signature(1));
    assert!(stream.flush_due());
    stream.flushed();
    assert!(!stream.flush_due());
    drop(held);
}

#[test]
fn external_memory_has_a_handle() {
    let mut stream = stream();
    let id = stream.memory_management_gpu.storage().allocate(64).unwrap().id;
    let storage = StorageHandle { id, offset: 16, size: 8 };
    let handle = stream.register_external(storage, 8);
    assert_eq!((handle.stream, handle.size()), (7, 8));
    assert!(!handle.memory.can_mut());
    assert_eq!(
        stream.resource(handle.binding()),
        Ok(BytesResource { id, offset: 16, size: 8 })
    );
}

#[test]
fn each_stream_is_fenced_once() {
    assert_eq!(fenced_streams(&vec![3, 1, 3, 2, 1]), vec![3, 1, 2]);
}

#[test]
fn an_error_is_the_profile_s_while_one_is_taken() {
    let error = LaunchError::Unknown { code: 1 };
    assert_eq!(launch_outcome(Ok(()), true), LaunchOutcome::Continue);
    assert_eq!(launch_outcome(Err(error), false), LaunchOutcome::Fail(error));
    assert_eq!(launch_outcome(Err(error), true), LaunchOutcome::SpoilProfile(error));
}

/// Tensor maps come first, then buffers, and then what was uploaded; each binding is found on
/// the stream it belongs to.
#[test]
fn a_launch_binds_in_order() {
    let mut command = command(&[1, 2]);
    let map = command.streams[0].empty(32, 0).unwrap();
    let buffer = command.empty(64).unwrap();
    let prepared = command
        .prepare_launch(
            LaunchBindings {
                tensor_maps: vec![map.binding()],
                buffers: vec![buffer.binding()],
                info: vec![1, 2, 3],
                dynamic_metadata_offset: 1,
            },
            options(),
        )
        .ok()
        .unwrap();
    let upload = prepared.upload.unwrap();
    assert_eq!(upload.bytes.len(), 16);
    assert_eq!(upload.keeper, Keeper::Queue);
    assert_eq!(upload.created.handle.stream, 2);
    assert_eq!(
        prepared.resources,
        vec![
            BytesResource { id: 0, offset: 0, size: 32 },
            BytesResource { id: 0, offset: 0, size: 64 },
            BytesResource { id: 0, offset: 64, size: 16 },
        ]
    );
    assert!(prepared.owned.is_empty());
    assert!(prepared.hold.is_empty());
    assert_eq!(prepared.staging, None);
}

#[test]
fn a_captured_launch_holds_what_the_arena_does_not_own() {
    let mut command = command(&[1]);
    let outside = command.empty(64).unwrap();
    command.streams[0].memory_management_gpu.arena_begin();
    command.streams[0].begin_capture(true).unwrap();
    let inside = command.empty(32).unwrap();
    let prepared = command
        .prepare_launch(
            LaunchBindings {
                tensor_maps: vec![],
                buffers: vec![outside.binding(), inside.binding()],
                info: vec![4],
                dynamic_metadata_offset: 0,
            },
            LaunchOptions { capture_open: true, ..options() },
        )
        .ok()
        .unwrap();
    assert_eq!(prepared.hold.len(), 1);
    assert_eq!(prepared.hold[0].bytes, 64);
    assert_eq!(prepared.staging, Some(0));
    assert_eq!(prepared.upload.unwrap().keeper, Keeper::Capture { index: 0 });
    assert_eq!(command.streams[0].end_capture(0).1, vec![8]);
}

#[test]
fn a_binding_that_names_nothing_refuses_the_launch() {
    let mut command = command(&[1]);
    let known = command.empty(64).unwrap();
    let args = |binding, info: Vec<u64>| LaunchBindings {
        tensor_maps: vec![],
        buffers: vec![known.clone().binding(), binding],
        info,
        dynamic_metadata_offset: 0,
    };
    let stranger = Handle::new(&command.streams[0].ids, 99, 1).binding();
    assert_eq!(
        command.prepare_launch(args(stranger, vec![]), options()).err(),
        Some(LaunchRefusal::Unresolved { index: 1, error: IoError::InvalidHandle })
    );
    let too_much = vec![0; 1000];
    assert_eq!(
        command.prepare_launch(args(known.clone().binding(), too_much), options()).err(),
        Some(LaunchRefusal::Upload(IoError::Unpinned))
    );
}

#[test]
fn a_stream_needs_memories_that_can_be_had() {
    let backend = |mem_props, pinned_alignment| CudaStreamBackend {
        mem_props,
        pinned_alignment,
        persistent: PersistentMemory::Enabled,
        policy: FlushingPolicy { max_bytes_count: 2, max_bytes_size: 1000 },
    };
    assert!(backend(PROPS, 64).can_create(&sliced(), &sliced()));
    assert!(!backend(PROPS, 0).can_create(&sliced(), &sliced()));
    let unaligned = MemoryDeviceProperties { alignment: 0, ..PROPS };
    assert!(!backend(unaligned, 64).can_create(&sliced(), &sliced()));
}

/// Handles to new memory have ids and memory of their own, and can be written.
#[test]
fn new_memory_is_apart() {
    let mut stream = stream();
    let handles: Vec<Handle> = (0..4).map(|_| stream.empty(100, 0).unwrap()).collect();
    for (i, a) in handles.iter().enumerate() {
        assert!(a.memory.can_mut());
        let x = stream.resource(a.clone().binding()).unwrap();
        assert_eq!(x.size, 100);
        for b in handles.iter().skip(i + 1) {
            assert_ne!(a.memory.handle_id(), b.memory.handle_id());
            let y = stream.resource(b.clone().binding()).unwrap();
            assert!(x.id != y.id || x.offset + x.size <= y.offset || y.offset + y.size <= x.offset);
        }
    }
}
