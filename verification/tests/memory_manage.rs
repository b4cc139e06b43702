use cubecl_memory::memory::bytes::BytesStorage;
use cubecl_memory::memory::handle::HandleIds;
use cubecl_memory::memory::manage::MemoryManagement;
use cubecl_memory::memory::options::{
    generate_bucket_sizes, Bucket, MemoryAllocationOption, MemoryConfiguration,
    MemoryDeviceProperties, MemoryManagementOptions, MemoryPoolOptions, PersistentMemory, PoolType,
};

/// Exponentially growing buckets, from 32 KiB to the largest page.
fn exclusive_pages(props: &MemoryDeviceProperties) -> MemoryConfiguration {
    let count = 24;
    let log_min = (1024.0 * 32.0f64).ln();
    let log_max = (props.max_page_size as f64).ln();
    let wanted: Vec<u64> = (0..count)
        .map(|i| {
            let p = i as f64 / (count - 1) as f64;
            (log_min + (log_max - log_min) * p).exp() as u64
        })
        .collect();
    let buckets = generate_bucket_sizes(&wanted, props.alignment)
        .into_iter()
        .map(|size| Bucket {
            size,
            dealloc_period: (5000.0 * (1.0 + size as f64 / (1024.0 * 1024.0 * 1024.0)).round())
                as u64,
        })
        .collect();
    MemoryConfiguration::ExclusivePages { buckets }
}

const DUMMY_MEM_PROPS: MemoryDeviceProperties = MemoryDeviceProperties {
    max_page_size: 128 * 1024 * 1024,
    alignment: 32,
};

fn options() -> MemoryManagementOptions {
    MemoryManagementOptions {
        name: "test".into(),
        memory: MemoryAllocationOption::FromConfig,
    }
}

// Test pools with slices.
#[test]
fn test_handle_mutability() {
    let mut memory_management = MemoryManagement::from_configuration(
        BytesStorage::new(),
        &DUMMY_MEM_PROPS,
        MemoryConfiguration::SubSlices,
        PersistentMemory::Enabled,
        options(),
        HandleIds::new(),
    );
    let handle = memory_management.reserve(10).unwrap();
    let other_ref = handle.clone();
    assert!(!handle.can_mut(), "Handle can't be mut when multiple ref.");
    drop(other_ref);
    assert!(handle.can_mut(), "Handle should be mut when only one ref.");
}

// Test pools with slices.
#[test]
fn test_memory_usage() {
    let max_page_size = 512;

    let mut memory_management = MemoryManagement::from_configuration(
        BytesStorage::new(),
        &DUMMY_MEM_PROPS,
        MemoryConfiguration::Custom {
            pool_options: vec![MemoryPoolOptions {
                pool_type: PoolType::ExclusivePages {
                    max_alloc_size: max_page_size,
                },
                dealloc_period: None,
            }],
        },
        PersistentMemory::Enabled,
        options(),
        HandleIds::new(),
    );
    let handle = memory_management.reserve(100);
    let usage = memory_management.memory_usage();

    assert_eq!(usage.bytes_in_use, 100);
    assert!(usage.bytes_reserved >= 100 && usage.bytes_reserved <= max_page_size);

    // Drop and re-alloc.
    drop(handle);
    let _handle = memory_management.reserve(100);
    let usage_new = memory_management.memory_usage();
    assert_eq!(usage, usage_new);
}

#[test]
fn alloc_two_chunks_on_one_page() {
    let page_size = 2048;

    let mut memory_management = MemoryManagement::from_configuration(
        BytesStorage::new(),
        &DUMMY_MEM_PROPS,
        MemoryConfiguration::Custom {
            pool_options: vec![MemoryPoolOptions {
                pool_type: PoolType::SlicedPages {
                    page_size,
                    max_slice_size: page_size,
                },
                dealloc_period: None,
            }],
        },
        PersistentMemory::Enabled,
        options(),
        HandleIds::new(),
    );

    let alloc_size = 512;
    let _handle = memory_management.reserve(alloc_size);
    let _new_handle = memory_management.reserve(alloc_size);

    let usage = memory_management.memory_usage();
    assert_eq!(usage.number_allocs, 2);
    assert_eq!(usage.bytes_in_use, alloc_size * 2);
    assert_eq!(usage.bytes_reserved, page_size);
}

#[test]
fn alloc_reuses_storage() {
    // If no storage is re-used, this will allocate two pages.
    let page_size = 512;

    let mut memory_management = MemoryManagement::from_configuration(
        BytesStorage::new(),
        &DUMMY_MEM_PROPS,
        MemoryConfiguration::Custom {
            pool_options: vec![MemoryPoolOptions {
                pool_type: PoolType::SlicedPages {
                    page_size,
                    max_slice_size: page_size,
                },
                dealloc_period: None,
            }],
        },
        PersistentMemory::Enabled,
        options(),
        HandleIds::new(),
    );

    let alloc_size = 512;
    let _handle = memory_management.reserve(alloc_size);
    drop(_handle);
    let _new_handle = memory_management.reserve(alloc_size);

    let usage = memory_management.memory_usage();
    assert_eq!(usage.number_allocs, 1);
    assert_eq!(usage.bytes_in_use, alloc_size);
    assert_eq!(usage.bytes_reserved, page_size);
}

#[test]
fn alloc_allocs_new_storage() {
    let page_size = 1024;

    let mut memory_management = MemoryManagement::from_configuration(
        BytesStorage::new(),
        &DUMMY_MEM_PROPS,
        MemoryConfiguration::Custom {
            pool_options: vec![MemoryPoolOptions {
                pool_type: PoolType::SlicedPages {
                    page_size,
                    max_slice_size: page_size,
                },
                dealloc_period: None,
            }],
        },
        PersistentMemory::Enabled,
        options(),
        HandleIds::new(),
    );

    let alloc_size = 768;
    let _handle = memory_management.reserve(alloc_size);
    let _new_handle = memory_management.reserve(alloc_size);

    let usage = memory_management.memory_usage();
    assert_eq!(usage.number_allocs, 2);
    assert_eq!(usage.bytes_in_use, alloc_size * 2);
    assert_eq!(usage.bytes_reserved, page_size * 2);
}

#[test]
fn alloc_respects_alignment_size() {
    let page_size = 500;
    let mut memory_management = MemoryManagement::from_configuration(
        BytesStorage::new(),
        &MemoryDeviceProperties {
            max_page_size: page_size,
            alignment: 50,
        },
        MemoryConfiguration::Custom {
            pool_options: vec![MemoryPoolOptions {
                pool_type: PoolType::SlicedPages {
                    page_size,
                    max_slice_size: page_size,
                },
                dealloc_period: None,
            }],
        },
        PersistentMemory::Enabled,
        options(),
        HandleIds::new(),
    );
    let alloc_size = 40;
    let _handle = memory_management.reserve(alloc_size);
    let _new_handle = memory_management.reserve(alloc_size);
    let usage = memory_management.memory_usage();
    // Each slice should be aligned to 50 bytes, so 20 padding bytes.
    assert_eq!(usage.bytes_padding, 10 * 2);
}

#[test]
fn allocs_on_correct_page() {
    let sizes = [100, 200, 300, 400];

    let pools = sizes
        .iter()
        .map(|size| MemoryPoolOptions {
            pool_type: PoolType::SlicedPages {
                page_size: *size,
                max_slice_size: *size,
            },
            dealloc_period: None,
        })
        .collect();
    let mut memory_management = MemoryManagement::from_configuration(
        BytesStorage::new(),
        &MemoryDeviceProperties {
            max_page_size: 128 * 1024 * 1024,
            alignment: 10,
        },
        MemoryConfiguration::Custom {
            pool_options: pools,
        },
        PersistentMemory::Enabled,
        options(),
        HandleIds::new(),
    );
    // Allocate one thing on each page.
    let alloc_sizes = [50, 150, 250, 350];
    let _handles = alloc_sizes.map(|s| memory_management.reserve(s));

    let usage = memory_management.memory_usage();

    // Total memory should be size of all pages, and no more.
    assert_eq!(usage.bytes_in_use, alloc_sizes.iter().sum::<u64>());
    assert!(usage.bytes_reserved >= sizes.iter().sum::<u64>());
}

#[test]
fn allocate_deallocate_reallocate() {
    let mut memory_management = MemoryManagement::from_configuration(
        BytesStorage::new(),
        &MemoryDeviceProperties {
            max_page_size: 128 * 1024 * 1024,
            alignment: 32,
        },
        MemoryConfiguration::SubSlices,
        PersistentMemory::Enabled,
        options(),
        HandleIds::new(),
    );
    // Allocate a bunch
    let handles: Vec<_> = (0..5)
        .map(|i| memory_management.reserve(1000 * (i + 1)))
        .collect();
    let usage_before = memory_management.memory_usage();
    // Deallocate
    drop(handles);
    // Reallocate
    let _new_handles: Vec<_> = (0..5)
        .map(|i| memory_management.reserve(1000 * (i + 1)))
        .collect();
    let usage_after = memory_management.memory_usage();
    assert_eq!(usage_before.number_allocs, usage_after.number_allocs);
    assert_eq!(usage_before.bytes_in_use, usage_after.bytes_in_use);
    // Usage after can actually be _less_ because of defragging.
    assert!(usage_before.bytes_reserved >= usage_after.bytes_reserved);
}

#[test]
fn test_fragmentation_resistance() {
    let mut memory_management = MemoryManagement::from_configuration(
        BytesStorage::new(),
        &MemoryDeviceProperties {
            max_page_size: 128 * 1024 * 1024,
            alignment: 32,
        },
        MemoryConfiguration::SubSlices,
        PersistentMemory::Enabled,
        options(),
        HandleIds::new(),
    );
    // Allocate a mix of small and large chunks
    let sizes = [50, 1000, 100, 5000, 200, 10000, 300];
    let handles: Vec<_> = sizes
        .iter()
        .map(|&size| memory_management.reserve(size).unwrap())
        .collect();
    let usage_before = memory_management.memory_usage();
    // Deallocate every other allocation
    for i in (0..handles.len()).step_by(2) {
        drop(handles[i].clone());
    }
    // Reallocate similar sizes
    for &size in &sizes[0..sizes.len() / 2] {
        memory_management.reserve(size).unwrap();
    }
    let usage_after = memory_management.memory_usage();
    // Check that we haven't increased our memory usage significantly
    assert!(usage_after.bytes_reserved <= (usage_before.bytes_reserved as f64 * 1.1) as u64);
}

// Test pools without slices. More or less same as tests above.
#[test]
fn noslice_test_handle_mutability() {
    let mut memory_management = MemoryManagement::from_configuration(
        BytesStorage::new(),
        &(MemoryDeviceProperties {
            max_page_size: 128 * 1024 * 1024,
            alignment: 32,
        }),
        exclusive_pages(&DUMMY_MEM_PROPS),
        PersistentMemory::Enabled,
        options(),
        HandleIds::new(),
    );
    let handle = memory_management.reserve(10).unwrap();
    let other_ref = handle.clone();
    assert!(!handle.can_mut(), "Handle can't be mut when multiple ref.");
    drop(other_ref);
    assert!(handle.can_mut(), "Handle should be mut when only one ref.");
}

#[test]
fn noslice_alloc_two_chunk() {
    let mut memory_management = MemoryManagement::from_configuration(
        BytesStorage::new(),
        &DUMMY_MEM_PROPS,
        MemoryConfiguration::Custom {
            pool_options: vec![MemoryPoolOptions {
                pool_type: PoolType::ExclusivePages {
                    max_alloc_size: 1024,
                },
                dealloc_period: None,
            }],
        },
        PersistentMemory::Enabled,
        options(),
        HandleIds::new(),
    );

    let alloc_size = 512;
    let _handle = memory_management.reserve(alloc_size);
    let _new_handle = memory_management.reserve(alloc_size);

    let usage = memory_management.memory_usage();
    assert_eq!(usage.number_allocs, 2);
    assert_eq!(usage.bytes_in_use, alloc_size * 2);
    assert!(usage.bytes_reserved >= alloc_size * 2);
}

#[test]
fn noslice_alloc_reuses_storage() {
    // If no storage is re-used, this will allocate two pages.
    let mut memory_management = MemoryManagement::from_configuration(
        BytesStorage::new(),
        &DUMMY_MEM_PROPS,
        MemoryConfiguration::Custom {
            pool_options: vec![MemoryPoolOptions {
                pool_type: PoolType::ExclusivePages {
                    max_alloc_size: 1024,
                },
                dealloc_period: None,
            }],
        },
        PersistentMemory::Enabled,
        options(),
        HandleIds::new(),
    );

    let alloc_size = 512;
    let _handle = memory_management.reserve(alloc_size);
    drop(_handle);
    let _new_handle = memory_management.reserve(alloc_size);

    let usage = memory_management.memory_usage();
    assert_eq!(usage.number_allocs, 1);
    assert_eq!(usage.bytes_in_use, alloc_size);
    assert!(usage.bytes_reserved >= alloc_size);
}

#[test]
fn noslice_alloc_allocs_new_storage() {
    let mut memory_management = MemoryManagement::from_configuration(
        BytesStorage::new(),
        &DUMMY_MEM_PROPS,
        MemoryConfiguration::Custom {
            pool_options: vec![MemoryPoolOptions {
                pool_type: PoolType::ExclusivePages {
                    max_alloc_size: 1024,
                },
                dealloc_period: None,
            }],
        },
        PersistentMemory::Enabled,
        options(),
        HandleIds::new(),
    );

    let alloc_size = 768;
    let _handle = memory_management.reserve(alloc_size);
    let _new_handle = memory_management.reserve(alloc_size);
    let usage = memory_management.memory_usage();
    assert_eq!(usage.number_allocs, 2);
    assert_eq!(usage.bytes_in_use, alloc_size * 2);
    assert!(usage.bytes_reserved >= alloc_size * 2);
}

#[test]
fn noslice_alloc_respects_alignment_size() {
    let mut memory_management = MemoryManagement::from_configuration(
        BytesStorage::new(),
        &MemoryDeviceProperties {
            max_page_size: DUMMY_MEM_PROPS.max_page_size,
            alignment: 50,
        },
        MemoryConfiguration::Custom {
            pool_options: vec![MemoryPoolOptions {
                pool_type: PoolType::ExclusivePages {
                    max_alloc_size: 50 * 20,
                },
                dealloc_period: None,
            }],
        },
        PersistentMemory::Enabled,
        options(),
        HandleIds::new(),
    );
    let alloc_size = 40;
    let _handle = memory_management.reserve(alloc_size);
    let _new_handle = memory_management.reserve(alloc_size);
    let usage = memory_management.memory_usage();
    // Each slice should be aligned to 60 bytes, so 20 padding bytes.
    assert_eq!(usage.bytes_padding, 10 * 2);
}

#[test]
fn noslice_allocs_on_correct_page() {
    let pools = [100, 200, 300, 400]
        .iter()
        .map(|&size| MemoryPoolOptions {
            pool_type: PoolType::SlicedPages {
                page_size: size,
                max_slice_size: size,
            },
            dealloc_period: None,
        })
        .collect();
    let mut memory_management = MemoryManagement::from_configuration(
        BytesStorage::new(),
        &MemoryDeviceProperties {
            max_page_size: DUMMY_MEM_PROPS.max_page_size,
            alignment: 10,
        },
        MemoryConfiguration::Custom {
            pool_options: pools,
        },
        PersistentMemory::Enabled,
        options(),
        HandleIds::new(),
    );
    // Allocate one thing on each page.
    let alloc_sizes = [50, 150, 250, 350];
    let _handles = alloc_sizes.map(|s| memory_management.reserve(s));
    let usage = memory_management.memory_usage();
    // Total memory should be size of all pages, and no more.
    assert_eq!(usage.bytes_in_use, alloc_sizes.iter().sum::<u64>());
}

#[test]
fn noslice_allocate_deallocate_reallocate() {
    let mut memory_management = MemoryManagement::from_configuration(
        BytesStorage::new(),
        &MemoryDeviceProperties {
            max_page_size: 128 * 1024 * 1024,
            alignment: 32,
        },
        exclusive_pages(&DUMMY_MEM_PROPS),
        PersistentMemory::Enabled,
        options(),
        HandleIds::new(),
    );
    // Allocate a bunch
    let handles: Vec<_> = (0..5)
        .map(|i| memory_management.reserve(1000 * (i + 1)))
        .collect();
    let usage_before = memory_management.memory_usage();
    // Deallocate
    drop(handles);
    // Reallocate
    let _new_handles: Vec<_> = (0..5)
        .map(|i| memory_management.reserve(1000 * (i + 1)))
        .collect();
    let usage_after = memory_management.memory_usage();
    assert_eq!(usage_before.number_allocs, usage_after.number_allocs);
    assert_eq!(usage_before.bytes_in_use, usage_after.bytes_in_use);
    assert_eq!(usage_before.bytes_reserved, usage_after.bytes_reserved);
}
