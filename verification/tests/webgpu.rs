use cubecl_memory::memory::bytes::{BytesResource, BytesStorage};
use cubecl_memory::memory::handle::{HandleIds, ManagedMemoryHandle};
use cubecl_memory::memory::options::{
    Bucket, MemoryAllocationMode, MemoryConfiguration, MemoryDeviceProperties, MemoryPoolOptions,
    PersistentMemory, PoolType,
};
use cubecl_memory::memory::storage::{ComputeStorage, StorageHandle};
use cubecl_memory::webgpu::{main_usages, staging_usages, uniform_usages, WgpuMemManager};

fn manager() -> WgpuMemManager<BytesStorage> {
    let buckets = vec![Bucket { size: 1024, dealloc_period: 5000 }];
    WgpuMemManager::new(
        BytesStorage::new(),
        BytesStorage::new(),
        BytesStorage::new(),
        MemoryDeviceProperties { max_page_size: 4096, alignment: 256 },
        MemoryConfiguration::Custom {
            pool_options: vec![MemoryPoolOptions {
                pool_type: PoolType::SlicedPages { page_size: 2048, max_slice_size: 2048 },
                dealloc_period: None,
            }],
        },
        buckets.clone(),
        buckets,
        PersistentMemory::Enabled,
        &HandleIds::new(),
    )
}

#[test]
fn uses_of_the_three_memories_differ() {
    assert!(main_usages().storage && main_usages().indirect && !main_usages().map_read);
    assert!(staging_usages().map_read && staging_usages().copy_dst && !staging_usages().storage);
    assert!(uniform_usages().uniform && !uniform_usages().copy_src);
}

#[test]
fn main_memory_is_sliced() {
    let mut manager = manager();
    let a = manager.reserve(100).unwrap();
    let b = manager.reserve(100).unwrap();
    let of = |manager: &mut WgpuMemManager<BytesStorage>, handle: &ManagedMemoryHandle| {
        manager.get_resource(handle.clone().binding(), None, None).unwrap()
    };
    assert_eq!(of(&mut manager, &a), BytesResource { id: 0, offset: 0, size: 100 });
    assert_eq!(of(&mut manager, &b), BytesResource { id: 0, offset: 256, size: 100 });
    assert_eq!(manager.memory_usage().bytes_in_use, 200);
    let user = ManagedMemoryHandle::new(&HandleIds::new());
    manager.bind(a, user.clone()).unwrap();
    assert_eq!(of(&mut manager, &user).offset, 0);
    drop(b);
    manager.memory_cleanup(true);
    assert_eq!(manager.memory_usage().bytes_reserved, 2048);
}

#[test]
fn staging_has_pages_of_its_own() {
    let mut manager = manager();
    let (first, held) = manager.reserve_staging(10).ok().unwrap();
    let (second, _) = manager.reserve_staging(10).ok().unwrap();
    assert_eq!((first.offset, first.size), (0, 10));
    assert_ne!(first.id, second.id);
    drop(held);
    assert_eq!(manager.memory_usage().bytes_reserved, 0);
}

/// Uniforms stay in use until they are released together.
#[test]
fn uniforms_are_released_together() {
    let mut manager = manager();
    let a = manager.reserve_uniform(64).unwrap();
    let b = manager.reserve_uniform(64).unwrap();
    assert_ne!(a.id, b.id);
    assert_eq!(manager.uniforms.len(), 2);
    manager.release_uniforms();
    assert!(manager.uniforms.is_empty());
    let c = manager.reserve_uniform(64).unwrap();
    assert!(c.id == a.id || c.id == b.id);
}

#[test]
fn external_buffers_are_found() {
    let mut manager = manager();
    let id = manager.memory_pool.storage().allocate(12).unwrap().id;
    let handle = manager.register_external(StorageHandle { id, offset: 0, size: 12 });
    assert!(!handle.can_mut());
    assert_eq!(
        manager.get_resource(handle.binding(), Some(4), None),
        Ok(BytesResource { id, offset: 4, size: 8 })
    );
    manager.mode(MemoryAllocationMode::Persistent);
    assert!(manager.reserve(3000).is_ok());
}
