use cubecl_memory::cuda::gpu_storage::{
    AllocationKind, Freed, GpuResource, GpuStorage, PtrBindings, OUT_OF_MEMORY,
};
use cubecl_memory::cuda::install::{
    cccl_include_path, cuda_path, include_path, reads_host_memory, supports_zero_copy_host, Found,
    Platform, ZeroCopyCache,
};
use cubecl_memory::memory::error::IoError;
use cubecl_memory::memory::storage::StorageHandle;

const NOTHING: Found = Found { usr_local_cuda: false, opt_cuda: false, usr_bin_nvcc: false };

#[test]
fn allocations_are_numbered_and_resolved() {
    let mut storage = GpuStorage::new(512, 4);
    assert_eq!(storage.alignment(), 512);
    let a = storage.alloc_async(100, Ok(0x1000)).unwrap();
    assert_eq!(a, StorageHandle { id: 0, offset: 0, size: 100 });
    let b = storage.alloc_sync(200, Ok(0x2000)).unwrap();
    assert_eq!(b.id, 1);
    let c = storage.register_external(0x3000, 16, 8);
    assert_eq!(c, StorageHandle { id: 2, offset: 16, size: 8 });
    assert_eq!(storage.get(&c), GpuResource { ptr: 0x3010, slot: 0, size: 8 });
    let part = StorageHandle { id: 1, offset: 0x20, size: 4 };
    assert_eq!(storage.get(&part), GpuResource { ptr: 0x2020, slot: 1, size: 4 });
    assert_eq!(storage.ptr_bindings.slots, vec![0x3010, 0x2020, 0, 0]);
}

#[test]
fn a_refused_stream_allocation_is_asked_of_the_device() {
    let mut storage = GpuStorage::new(512, 1);
    assert!(storage.alloc_async(64, Err(801)).is_none());
    assert_eq!(
        storage.alloc_sync(64, Err(OUT_OF_MEMORY)),
        Err(IoError::BufferTooBig { size: 64 })
    );
    assert_eq!(storage.alloc_sync(64, Err(700)), Err(IoError::Unknown { code: 700 }));
    assert_eq!(storage.alloc_sync(64, Ok(7)).unwrap().id, 0);
}

/// Each allocation is freed once, the way it was allocated, in the order of the marks.
#[test]
fn marked_allocations_are_freed_once() {
    let mut storage = GpuStorage::new(1, 1);
    storage.alloc_async(1, Ok(10)).unwrap();
    storage.alloc_sync(1, Ok(20)).unwrap();
    storage.register_external(30, 0, 1);
    for id in [2, 0, 2, 1] {
        storage.dealloc(id);
    }
    assert_eq!(
        storage.perform_deallocations(),
        vec![
            Freed { id: 2, ptr: 30, kind: AllocationKind::External },
            Freed { id: 0, ptr: 10, kind: AllocationKind::Async },
            Freed { id: 1, ptr: 20, kind: AllocationKind::Sync },
        ]
    );
    assert!(storage.perform_deallocations().is_empty());
    assert!(storage.memory.is_empty());
}

/// An address stays in its slot until the ring has come round.
#[test]
fn the_ring_comes_round() {
    let mut ring = PtrBindings::new(3);
    assert_eq!([1, 2, 3].map(|ptr| ring.register(ptr)), [0, 1, 2]);
    assert_eq!(ring.slots, vec![1, 2, 3]);
    assert_eq!(ring.register(4), 0);
    assert_eq!(ring.slots, vec![4, 2, 3]);
}

#[test]
fn the_installation_is_where_the_environment_says() {
    assert_eq!(
        cuda_path(Some("/cuda"), Platform::Linux, NOTHING).as_deref(),
        Some("/cuda")
    );
    assert_eq!(cuda_path(None, Platform::Linux, NOTHING), None);
    assert_eq!(cuda_path(None, Platform::Other, NOTHING), None);
    let all = Found { usr_local_cuda: true, opt_cuda: true, usr_bin_nvcc: true };
    assert_eq!(cuda_path(None, Platform::Linux, all).as_deref(), Some("/usr/local/cuda"));
    let opt = Found { usr_local_cuda: false, ..all };
    assert_eq!(cuda_path(None, Platform::Linux, opt).as_deref(), Some("/opt/cuda"));
    let usr = Found { usr_bin_nvcc: true, ..NOTHING };
    assert_eq!(cuda_path(None, Platform::Linux, usr).as_deref(), Some("/usr"));
    assert_eq!(
        cuda_path(None, Platform::Windows, NOTHING).as_deref(),
        Some("C:/Program Files/NVIDIA GPU Computing Toolkit/CUDA/")
    );
}

#[test]
fn headers_lie_below_the_installation() {
    assert_eq!(include_path(Platform::Linux, "/usr/local/cuda"), "/usr/local/cuda/include");
    assert_eq!(
        cccl_include_path(Platform::Linux, "/usr/local/cuda"),
        "/usr/local/cuda/include/cccl"
    );
    assert_eq!(include_path(Platform::Windows, "C:/CUDA/"), "C:/CUDA/include");
}

/// What follows a bare drive is relative to where that drive is.
#[test]
fn a_bare_drive_takes_no_separator() {
    assert_eq!(include_path(Platform::Windows, "C:"), "C:include");
    assert_eq!(cccl_include_path(Platform::Windows, "c:"), "c:include\\cccl");
    assert_eq!(include_path(Platform::Windows, "7:"), "7:\\include");
    assert_eq!(include_path(Platform::Linux, "C:"), "C:/include");
}

#[test]
fn a_device_is_asked_once() {
    let mut cache = ZeroCopyCache::default();
    assert_eq!(cache.lookup(3), None);
    cache.store(3, true);
    cache.store(4, false);
    cache.store(99, true);
    assert_eq!(cache.lookup(3), Some(true));
    assert_eq!(cache.lookup(4), Some(false));
    assert_eq!(cache.lookup(99), None);
    assert!(reads_host_memory(Some(1), Some(1)));
    assert!(!reads_host_memory(Some(1), Some(0)));
    assert!(!reads_host_memory(None, Some(1)));
}

/// A device is asked once, as long as there is room for its answer.
#[test]
fn answers_are_asked_for_once() {
    let mut cache = ZeroCopyCache::default();
    assert!(supports_zero_copy_host(&mut cache, 3, || (Some(1), Some(1))));
    assert!(supports_zero_copy_host(&mut cache, 3, || panic!("asked again")));
    assert!(!supports_zero_copy_host(&mut cache, 4, || (Some(1), None)));
    assert!(!supports_zero_copy_host(&mut cache, 4, || (Some(1), Some(1))));
    assert!(!supports_zero_copy_host(&mut cache, 16, || (Some(1), Some(0))));
    assert!(supports_zero_copy_host(&mut cache, 16, || (Some(1), Some(1))));
}
