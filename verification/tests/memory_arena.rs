use cubecl_memory::memory::bytes::{BytesResource, BytesStorage};
use cubecl_memory::memory::error::{IoError, Missing};
use cubecl_memory::memory::handle::{located, HandleIds, ManagedMemoryHandle, MemoryLocation};
use cubecl_memory::memory::manage::{can_configure, MemoryManagement};
use cubecl_memory::memory::options::{
    generate_bucket_sizes, sub_slice_options, Bucket, MemoryAllocationMode, MemoryAllocationOption,
    MemoryConfiguration, MemoryDeviceProperties, MemoryManagementOptions, MemoryPoolOptions,
    PersistentMemory, PoolType,
};
use cubecl_memory::memory::storage::{ComputeStorage, StorageHandle};

const MB: u64 = 1024 * 1024;

fn memory_with(
    persistent: PersistentMemory,
    options: MemoryManagementOptions,
    ids: HandleIds,
) -> MemoryManagement<BytesStorage> {
    MemoryManagement::from_configuration(
        BytesStorage::new(),
        &MemoryDeviceProperties { max_page_size: 4096, alignment: 32 },
        MemoryConfiguration::Custom {
            pool_options: vec![MemoryPoolOptions {
                pool_type: PoolType::SlicedPages { page_size: 1024, max_slice_size: 1024 },
                dealloc_period: None,
            }],
        },
        persistent,
        options,
        ids,
    )
}

fn configured(persistent: PersistentMemory) -> MemoryManagement<BytesStorage> {
    memory_with(persistent, MemoryManagementOptions::new("test"), HandleIds::new())
}

fn memory() -> MemoryManagement<BytesStorage> {
    configured(PersistentMemory::Enabled)
}

#[test]
fn pages_grow_by_four() {
    let props = MemoryDeviceProperties { max_page_size: 128 * MB, alignment: 32 };
    let options: Vec<PoolType> =
        sub_slice_options(&props).into_iter().map(|options| options.pool_type).collect();
    assert_eq!(
        options,
        vec![
            PoolType::ExclusivePages { max_alloc_size: 0 },
            PoolType::SlicedPages { page_size: 8 * MB, max_slice_size: 2 * MB },
            PoolType::SlicedPages { page_size: 32 * MB, max_slice_size: 16 * MB },
            PoolType::SlicedPages { page_size: 128 * MB, max_slice_size: 128 * MB },
        ]
    );
}

#[test]
fn buckets_are_aligned_and_differ() {
    assert_eq!(generate_bucket_sizes(&vec![10, 30, 33, 64, 65], 32), vec![32, 64, 96]);
}

#[test]
fn options_carry_a_name_and_a_mode() {
    let options = MemoryManagementOptions::new("main").mode(MemoryAllocationMode::Persistent);
    assert_eq!(options.name, "main");
    assert_eq!(
        options.memory,
        MemoryAllocationOption::Provided(MemoryAllocationMode::Persistent)
    );
    assert_eq!(
        MemoryManagementOptions::new("main").memory,
        MemoryAllocationOption::FromConfig
    );
}

/// A mode that the options provide is never changed. One that they do not is changed where the
/// configuration leaves it open.
#[test]
fn a_provided_mode_stays() {
    for config in [PersistentMemory::Enabled, PersistentMemory::Disabled] {
        let options = MemoryManagementOptions::new("test").mode(MemoryAllocationMode::Auto);
        let mut forced = memory_with(config, options, HandleIds::new());
        forced.mode(MemoryAllocationMode::Persistent);
        let kept = forced.reserve(100).unwrap().location().pool;
        let untouched = memory_with(config, MemoryManagementOptions::new("test"), HandleIds::new())
            .reserve(100)
            .unwrap();
        assert_eq!(kept, untouched.location().pool);
    }
    let mut open = configured(PersistentMemory::Enabled);
    let auto = open.reserve(100).unwrap().location().pool;
    open.mode(MemoryAllocationMode::Persistent);
    assert!(open.reserve(5000).unwrap().location().pool > auto);
}

/// What an open arena hands out is the arena's, also once another handle has it; what is
/// handed out while it is closed is not.
#[test]
fn the_arena_owns_what_it_hands_out() {
    let ids = HandleIds::new();
    let mut memory =
        memory_with(PersistentMemory::Enabled, MemoryManagementOptions::new("test"), ids.clone());
    let before = memory.reserve(100).unwrap();
    memory.arena_begin();
    let inside = memory.reserve(100).unwrap();
    let user = ManagedMemoryHandle::new(&ids);
    assert!(!memory.arena_owns(&user.clone().binding()));
    memory.bind(inside.clone(), user.clone(), 0).unwrap();
    memory.arena_end();
    let after = memory.reserve(100).unwrap();
    assert!(memory.arena_owns(&inside.binding()));
    assert!(memory.arena_owns(&user.binding()));
    assert!(!memory.arena_owns(&before.binding()));
    assert!(!memory.arena_owns(&after.binding()));
}

/// While the arena is open it alone serves; closed, it serves nothing.
#[test]
fn an_open_arena_is_alone() {
    let mut memory = memory();
    assert!(!memory.arena_active());
    assert_eq!(memory.arena_begin(), 1);
    assert!(memory.arena_active());
    let a = memory.reserve(100).unwrap();
    let b = memory.reserve(200).unwrap();
    let stats = memory.arena_stats();
    assert_eq!((stats.generation, stats.served, stats.misses), (1, 2, 2));
    assert_eq!((stats.slices, stats.bytes_in_use), (2, 300));
    assert!(memory.arena_owns(&a.clone().binding()));
    memory.arena_end();
    let c = memory.reserve(100).unwrap();
    assert!(!memory.arena_owns(&c.binding()));
    assert_eq!(memory.arena_stats().served, 2);
    memory.arena_reset_counters();
    assert_eq!((memory.arena_stats().served, memory.arena_stats().misses), (0, 0));
    drop((a, b));
}

/// A region that was warmed is captured without one fresh allocation, and signs the same.
#[test]
fn a_warmed_region_repeats() {
    let mut memory = memory();
    let region = |memory: &mut MemoryManagement<BytesStorage>| {
        memory.arena_begin();
        let a = memory.reserve(64).unwrap();
        let place = memory.get_storage(a.clone().binding()).unwrap();
        drop(a);
        let b = memory.reserve(64).unwrap();
        let again = memory.get_storage(b.binding()).unwrap();
        let signature = memory.arena_signature(0);
        memory.arena_end();
        (place, again, signature)
    };
    let first = region(&mut memory);
    memory.cleanup(true);
    let second = region(&mut memory);
    assert_eq!(first, second);
    assert_eq!(first.0, first.1);
    assert_eq!(memory.arena_stats().misses, 1);
    assert_eq!(memory.arena_stats().served, 4);
    memory.arena_release();
    assert_eq!(memory.arena_stats().bytes_reserved, 0);
}

/// A window that asks for and drops what an earlier one did finds all of it again.
#[test]
fn a_repeated_window_takes_no_miss() {
    let mut memory = memory();
    let window = |memory: &mut MemoryManagement<BytesStorage>| {
        memory.arena_begin();
        let a = memory.reserve(64).unwrap();
        let b = memory.reserve(64).unwrap();
        drop(a);
        let c = memory.reserve(64).unwrap();
        let d = memory.reserve(100).unwrap();
        drop((b, c));
        let e = memory.reserve(120).unwrap();
        drop((d, e));
        memory.arena_end();
        memory.arena_stats().misses
    };
    assert_eq!(window(&mut memory), 4);
    let reserved = memory.arena_stats().bytes_reserved;
    assert_eq!(window(&mut memory), 4);
    assert_eq!(memory.arena_stats().bytes_reserved, reserved);
}

#[test]
fn signatures_tell_sizes_and_windows() {
    let mut memory = memory();
    memory.arena_begin();
    let empty = memory.arena_signature(0);
    assert_eq!(empty, 0xcbf2_9ce4_8422_2325);
    let _a = memory.reserve(64).unwrap();
    let mark = memory.arena_mark();
    assert_eq!(mark, 1);
    let one = memory.arena_signature(0);
    assert_ne!(one, empty);
    assert_eq!(memory.arena_signature(mark), empty);
    let _b = memory.reserve(64).unwrap();
    assert_eq!(memory.arena_signature(mark), one);
}

/// Slices of one page lie apart, at multiples of the alignment.
#[test]
fn slices_are_disjoint_and_aligned() {
    let mut memory = memory();
    let handles: Vec<ManagedMemoryHandle> =
        [40, 1, 100].iter().map(|size| memory.reserve(*size).unwrap()).collect();
    let places: Vec<StorageHandle> = handles
        .iter()
        .map(|handle| memory.get_storage(handle.clone().binding()).unwrap())
        .collect();
    let offsets: Vec<u64> = places.iter().map(|place| place.offset).collect();
    assert_eq!(offsets, vec![0, 64, 96]);
    assert!(places.iter().all(|place| place.id == places[0].id));
    let usage = memory.memory_usage();
    assert_eq!((usage.number_allocs, usage.bytes_in_use, usage.bytes_padding), (3, 141, 83));
    assert_eq!(usage.bytes_reserved, 1024);
}

#[test]
fn a_bound_handle_finds_the_memory() {
    let ids = HandleIds::new();
    let mut memory =
        memory_with(PersistentMemory::Enabled, MemoryManagementOptions::new("test"), ids.clone());
    let reserved = memory.reserve(100).unwrap();
    let place = memory.get_storage(reserved.clone().binding()).unwrap();
    let user = ManagedMemoryHandle::new(&ids);
    assert_eq!(
        memory.bind(user.clone(), reserved.clone(), 12).err(),
        Some(IoError::NotFound { reason: Missing::Uninitialized })
    );
    assert!(memory.get_cursor(user.clone().binding()).is_err());
    memory.bind(reserved, user.clone(), 12).unwrap();
    assert_eq!(memory.get_cursor(user.clone().binding()), Ok(12));
    assert_eq!(memory.get_storage(user.clone().binding()), Ok(place));
    assert_eq!(
        memory.get_resource(user.binding(), Some(8), Some(4)),
        Ok(BytesResource { id: place.id, offset: place.offset + 8, size: 88 })
    );
}

/// A handle has no place until it is bound, and then every clone has the same one.
#[test]
fn a_handle_reports_its_place() {
    let nowhere = MemoryLocation { pool: 0, page: 0, init: 0 };
    assert_eq!(located(0, 3, 9), nowhere);
    assert_eq!(located(1, 3, 9), MemoryLocation { pool: 3, page: 9, init: 1 });
    let ids = HandleIds::new();
    let mut memory =
        memory_with(PersistentMemory::Enabled, MemoryManagementOptions::new("test"), ids.clone());
    let reserved = memory.reserve(100).unwrap();
    let place = reserved.location();
    assert_eq!(place.init, 1);
    let user = ManagedMemoryHandle::new(&ids);
    assert_ne!(user.handle_id(), reserved.handle_id());
    assert_eq!(user.location(), nowhere);
    assert_eq!(user.clone().binding().location(), nowhere);
    assert!(user.is_free() && user.can_mut());
    let held = user.clone();
    assert!(!user.is_free() && user.can_mut());
    memory.bind(reserved, user.clone(), 12).unwrap();
    assert_eq!(user.location(), place);
    assert_eq!(held.binding().location(), place);
}

/// External memory resolves, is never written in place, and is not reserved here.
#[test]
fn external_memory_is_read_only() {
    let mut memory = memory();
    let id = memory.storage().allocate(64).unwrap().id;
    let handle = memory.register_external(StorageHandle { id, offset: 4, size: 16 });
    assert!(!handle.can_mut());
    assert_eq!(
        memory.get_resource(handle.binding(), None, None),
        Ok(BytesResource { id, offset: 4, size: 16 })
    );
    assert_eq!(memory.memory_usage().bytes_reserved, 0);
}

#[test]
fn too_much_is_refused() {
    let mut memory = memory();
    assert_eq!(
        memory.reserve(1025).err(),
        Some(IoError::BufferTooBig { size: 1025 })
    );
    memory.mode(MemoryAllocationMode::Persistent);
    assert!(memory.reserve(1025).is_ok());
    let mut fixed = configured(PersistentMemory::Disabled);
    fixed.mode(MemoryAllocationMode::Persistent);
    assert!(fixed.reserve(1025).is_err());
    let mut enforced = configured(PersistentMemory::Enforced);
    assert!(enforced.reserve(1025).is_ok());
}

/// Memory in use survives a cleanup; other pages are given back.
#[test]
fn cleanup_keeps_what_is_in_use() {
    let mut memory = memory();
    let kept = memory.reserve(600).unwrap();
    let dropped = memory.reserve(600).unwrap();
    let place = memory.get_storage(kept.clone().binding());
    drop(dropped);
    assert_eq!(memory.memory_usage().bytes_reserved, 2048);
    memory.cleanup(true);
    assert_eq!(memory.memory_usage().bytes_reserved, 1024);
    assert_eq!(memory.get_storage(kept.binding()), place);
}

/// What was registered resolves after anything else was called, and is no usage.
#[test]
fn registered_memory_stays() {
    let mut memory = memory();
    let storage = memory.storage().allocate(64).unwrap();
    let before = memory.memory_usage();
    let handle = memory.register_external(storage);
    assert_eq!(memory.memory_usage(), before);
    let held = memory.reserve(100).unwrap();
    memory.arena_begin();
    drop(memory.reserve(100).unwrap());
    memory.arena_end();
    memory.arena_release();
    drop(held);
    memory.cleanup(true);
    memory.mode(MemoryAllocationMode::Persistent);
    assert_eq!(memory.get_storage(handle.clone().binding()), Ok(storage));
    assert_eq!(memory.get_cursor(handle.clone().binding()), Ok(0));
    assert!(!handle.can_mut());
}

/// A handle that one after the other was given memory of the arena and of another pool is the
/// arena's if it was placed there last.
#[test]
fn the_location_decides_between_two_pools() {
    let ids = HandleIds::new();
    let mut memory =
        memory_with(PersistentMemory::Enabled, MemoryManagementOptions::new("test"), ids.clone());
    let (a, b) = (memory.reserve(100).unwrap(), memory.reserve(100).unwrap());
    memory.arena_begin();
    let (c, d) = (memory.reserve(100).unwrap(), memory.reserve(100).unwrap());
    let (first, second) = (ManagedMemoryHandle::new(&ids), ManagedMemoryHandle::new(&ids));
    memory.bind(a, first.clone(), 0).unwrap();
    memory.bind(c, first.clone(), 0).unwrap();
    memory.bind(d, second.clone(), 0).unwrap();
    memory.bind(b, second.clone(), 0).unwrap();
    assert!(memory.arena_owns(&first.binding()));
    assert!(!memory.arena_owns(&second.binding()));
}

/// No clone of a registered handle may ever be written in place, not even the last one.
#[test]
fn registered_memory_is_never_written() {
    let mut memory = memory();
    let storage = memory.storage().allocate(64).unwrap();
    let handle = memory.register_external(storage);
    let last = handle.clone();
    assert!(!handle.can_mut() && !last.can_mut());
    drop(handle);
    assert!(!last.can_mut() && !last.is_free());
    assert!(memory.reserve(64).unwrap().can_mut());
}

/// Handles have ids of their own, also next to one that comes from another sequence.
#[test]
fn handles_have_ids_of_their_own() {
    let other = HandleIds::new();
    let far: Vec<ManagedMemoryHandle> =
        (0..50).map(|_| ManagedMemoryHandle::new(&other)).collect();
    let mut memory = memory();
    let mut seen: Vec<usize> = Vec::new();
    let mut held: Vec<ManagedMemoryHandle> = Vec::new();
    for _ in 0..5 {
        held.push(memory.reserve(100).unwrap());
    }
    let reserved = memory.reserve(100).unwrap();
    memory.bind(reserved, far[49].clone(), 0).unwrap();
    held.push(far[49].clone());
    for _ in 0..5 {
        held.push(memory.reserve(300).unwrap());
        let storage = memory.storage().allocate(8).unwrap();
        held.push(memory.register_external(storage));
    }
    for handle in held.iter() {
        assert!(!seen.contains(&handle.handle_id()));
        seen.push(handle.handle_id());
    }
    assert_eq!(seen.len(), 16);
}

#[test]
fn some_configurations_cannot_be_had() {
    let props = |max_page_size, alignment| MemoryDeviceProperties { max_page_size, alignment };
    let sub_slices = MemoryConfiguration::SubSlices;
    assert!(can_configure(&sub_slices, &props(128 * MB, 32)));
    assert!(can_configure(&sub_slices, &props(32 * MB - 1, 64 * MB)));
    assert!(!can_configure(&sub_slices, &props(32 * MB, 32 * MB)));
    assert!(!can_configure(&sub_slices, &props(128 * MB, 0)));
    let buckets = |sizes: &[u64]| MemoryConfiguration::ExclusivePages {
        buckets: sizes.iter().map(|size| Bucket { size: *size, dealloc_period: 1 }).collect(),
    };
    assert!(can_configure(&buckets(&[]), &props(1, 1)));
    assert!(can_configure(&buckets(&[64; 254]), &props(MB, 32)));
    assert!(!can_configure(&buckets(&[64; 255]), &props(MB, 32)));
    assert!(!can_configure(&buckets(&[64, u64::MAX]), &props(MB, 32)));
    assert!(can_configure(&buckets(&[64, u64::MAX]), &props(MB, 1)));
    assert!(!can_configure(&buckets(&[]), &props(1, 0)));
    let custom = |page_size| MemoryConfiguration::Custom {
        pool_options: vec![MemoryPoolOptions {
            pool_type: PoolType::SlicedPages { page_size, max_slice_size: 1 },
            dealloc_period: None,
        }],
    };
    assert!(can_configure(&custom(u64::MAX - 31), &props(MB, 32)));
    assert!(!can_configure(&custom(u64::MAX - 30), &props(MB, 32)));
}

/// A storage that grants anything and holds nothing.
struct Endless(usize);

impl ComputeStorage for Endless {
    type Resource = usize;

    fn allocate(&mut self, size: u64) -> Result<StorageHandle, IoError> {
        self.0 += 1;
        Ok(StorageHandle { id: self.0, offset: 0, size })
    }

    fn deallocate(&mut self, _id: usize) {}

    fn flush(&mut self) {}

    fn get(&mut self, handle: &StorageHandle) -> usize {
        handle.id
    }
}

/// Sums that do not fit are told beforehand.
#[test]
fn sums_that_do_not_fit_are_told() {
    const HALF: u64 = 1 << 63;
    let mut memory = MemoryManagement::from_configuration(
        Endless(0),
        &MemoryDeviceProperties { max_page_size: HALF, alignment: 32 },
        MemoryConfiguration::ExclusivePages {
            buckets: vec![Bucket { size: HALF, dealloc_period: 1 }],
        },
        PersistentMemory::Enabled,
        MemoryManagementOptions::new("test"),
        HandleIds::new(),
    );
    assert!(memory.can_reserve() && memory.can_open_arena());
    let first = memory.reserve(HALF).unwrap();
    assert!(memory.can_add_up());
    assert_eq!(memory.memory_usage().bytes_reserved, HALF);
    let second = memory.reserve(HALF).unwrap();
    assert!(!memory.can_add_up() && memory.can_add_up_arena());
    memory.arena_begin();
    let third = memory.reserve(HALF).unwrap();
    assert!(memory.can_add_up_arena());
    let fourth = memory.reserve(HALF).unwrap();
    assert!(!memory.can_add_up_arena());
    drop((first, second, third, fourth));
}

/// A handle finds its slice in every memory that it was given one of, though it says that it is
/// where it was placed last.
#[test]
fn the_pools_know_where_a_handle_is() {
    let ids = HandleIds::new();
    let options = || MemoryManagementOptions::new("test");
    let mut one = memory_with(PersistentMemory::Enabled, options(), ids.clone());
    let mut two = memory_with(PersistentMemory::Enabled, options(), ids.clone());
    let user = ManagedMemoryHandle::new(&ids);
    let first = one.reserve(600).unwrap();
    let second = one.reserve(600).unwrap();
    drop(first);
    let place = one.get_storage(second.clone().binding()).unwrap();
    one.bind(second.clone(), user.clone(), 7).unwrap();
    let other = two.reserve(40).unwrap();
    two.bind(other, user.clone(), 9).unwrap();
    assert_eq!(user.location().page, 0);
    assert_eq!(one.get_storage(user.clone().binding()), Ok(place));
    assert_eq!(one.get_cursor(user.clone().binding()), Ok(7));
    assert_eq!(two.get_cursor(user.clone().binding()), Ok(9));
    assert_eq!(two.get_storage(user.clone().binding()).unwrap().size, 40);
    assert!(one.get_storage(second.clone().binding()).is_err());
    assert!(one.bind(second, ManagedMemoryHandle::new(&ids), 0).is_err());
    let next = one.new_handle();
    one.bind(user.clone(), next.clone(), 11).unwrap();
    assert_eq!(one.get_storage(next.clone().binding()), Ok(place));
    assert_eq!(next.location().page, 1);
    assert!(one.get_storage(user.binding()).is_err());
}

/// A handle to be given memory has an id of its own, can be written, and has no memory yet.
#[test]
fn a_new_handle_has_no_memory_yet() {
    let mut memory = memory();
    let held = memory.reserve(64).unwrap();
    let (a, b) = (memory.new_handle(), memory.new_handle());
    assert_ne!(a.handle_id(), b.handle_id());
    assert_ne!(a.handle_id(), held.handle_id());
    assert!(a.can_mut() && held.can_mut());
    assert!(memory.get_storage(a.binding()).is_err());
}

/// Any storage can be registered, also one that the memory knows nothing of.
#[test]
fn any_storage_can_be_registered() {
    let mut memory = memory();
    let held = memory.reserve(64).unwrap();
    let page = memory.get_storage(held.binding()).unwrap();
    let unknown = StorageHandle { id: 99, offset: 3, size: 5 };
    let a = memory.register_external(page);
    let b = memory.register_external(unknown);
    assert_eq!(memory.get_storage(a.binding()), Ok(page));
    assert_eq!(memory.get_storage(b.binding()), Ok(unknown));
}
