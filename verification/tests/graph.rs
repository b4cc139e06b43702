use cubecl_memory::cuda::command::{
    captured_node, CapturedLaunchNode, CapturedNode, Frontier, KernelShape,
};
use cubecl_memory::cuda::gpu_storage::GpuResource;
use cubecl_memory::cuda::graph::{
    CapturedLaunch, GraphError, GraphLaunchPatch, GraphStore, TensorMapBits,
};
use cubecl_memory::cuda::launch::{
    captured_launch, holds, info_upload, staging_index, LaunchOptions,
};
use cubecl_memory::cuda::nodes::{
    alloc_regions, memcpy_specs, node_kinds, nodes_of_kind, MemcpyNode,
};
use cubecl_memory::cuda::settings::{
    capture_mode, capture_status, check_external, on_unless_off, pinned_staging_enabled,
    trace_ptrs, CaptureMode, CaptureStatus, ExternalRefusal,
};
use cubecl_memory::cuda::words::{cube_count_of, dynamic_cube_count, CubeCountError};
use cubecl_memory::handle::{Binding, Handle};
use cubecl_memory::memory::handle::HandleIds;

const SHAPE: KernelShape = KernelShape { func: 11, block: (32, 1, 1), shared: 48 };

fn launch(info: Vec<u64>, dyn_offset: usize, staging: Option<usize>) -> CapturedLaunch {
    let maps: Vec<TensorMapBits> = vec![[7; 16]];
    captured_launch(
        CapturedNode { node: 5, shape: SHAPE },
        (1, 2, 3),
        maps,
        &vec![GpuResource::new(100, 0, 8), GpuResource::new(200, 1, 8)],
        info,
        dyn_offset,
        staging,
        true,
        "kernel".to_string(),
    )
}

fn store(launches: Vec<CapturedLaunch>, staging: Vec<usize>) -> (GraphStore, u64) {
    let mut store = GraphStore::new();
    store.capture_begin(0);
    for launch in launches {
        store.record(vec![], Some(launch));
    }
    let id = store.capture_end(1000, 2000, 42, staging);
    (store, id)
}

fn patch(info: Option<Vec<u64>>, ptrs: Vec<(usize, u64)>) -> GraphLaunchPatch {
    GraphLaunchPatch { grid: None, info, ptrs }
}

fn bindings(n: usize) -> Vec<Binding> {
    let ids = HandleIds::new();
    (0..n).map(|i| Handle::new(&ids, 0, i as u64).binding()).collect()
}

#[test]
fn a_capture_becomes_a_graph_under_a_new_id() {
    let mut store = GraphStore::new();
    store.capture_begin(3);
    store.record(bindings(2), Some(launch(vec![1], 1, None)));
    store.record(bindings(1), None);
    assert_eq!(store.capture_launch_count(), 1);
    let id = store.capture_end(10, 20, 42, vec![]);
    assert_eq!(id, 1);
    assert_eq!(store.capture_launch_count(), 0);
    assert_eq!(store.graphs[&id].hold.len(), 3);
    assert_eq!(store.captured(id), Ok(10));
    assert_eq!(store.launch_count(id), Ok(1));
    assert_eq!(store.capture_arena_mark, 3);
    assert_eq!(store.destroy(id), Some((20, 10)));
    assert_eq!(store.destroy(id), None);
    store.capture_begin(0);
    assert_eq!(store.capture_end(1, 2, 3, vec![]), 2);
}

/// With the arena in use a graph is replayed only while its region is the last captured.
#[test]
fn another_region_is_refused() {
    let mut store = GraphStore::new();
    let first = store.capture_end(1, 101, 42, vec![]);
    assert_eq!(store.replay(first, true), Ok(101));
    let same = store.capture_end(2, 102, 42, vec![]);
    assert_eq!(store.replay(first, true), Ok(101));
    assert_eq!(store.replay(same, true), Ok(102));
    let other = store.capture_end(3, 103, 43, vec![]);
    assert_eq!(store.replay(first, true), Err(GraphError::OtherRegion { built: 42, last: 43 }));
    assert_eq!(store.replay(first, false), Ok(101));
    assert_eq!(store.replay(other, true), Ok(103));
    assert_eq!(store.replay(9, true), Err(GraphError::NoGraph { id: 9 }));
}

#[test]
fn a_launch_is_known_by_its_parameters() {
    let (store, id) = store(vec![launch(vec![1, 2], 1, Some(0))], vec![8]);
    let params = store.launch_params(id, 0).ok().unwrap();
    assert_eq!((params.grid, params.block), ((1, 2, 3), (32, 1, 1)));
    assert_eq!((params.info, params.ptrs), (vec![1, 2], vec![100, 200]));
    assert_eq!((params.dyn_offset, params.has_staging), (1, true));
    assert_eq!(params.name, "kernel");
    assert_eq!(store.launch_params(id, 1).err(), Some(GraphError::NoLaunch { recorded: 1 }));
    assert_eq!(store.launch_params(7, 0).err(), Some(GraphError::NoGraph { id: 7 }));
}

#[test]
fn a_patch_rewrites_one_launch() {
    let launches = vec![launch(vec![1, 2], 2, None), launch(vec![3, 4], 2, None)];
    let (mut store, id) = store(launches, vec![]);
    let change = GraphLaunchPatch {
        grid: Some((9, 9, 9)),
        info: Some(vec![5, 6]),
        ptrs: vec![(1, 300), (1, 301)],
    };
    let action = store.patch_launch(id, 1, change).ok().unwrap();
    assert!(action.stage.is_none());
    assert_eq!((action.params.instance, action.params.node), (2000, 5));
    assert_eq!((action.params.func, action.params.shared), (11, 48));
    assert_eq!(action.params.grid, (9, 9, 9));
    assert_eq!(action.params.tensor_maps, vec![[7; 16]]);
    assert_eq!(action.params.ptrs, vec![100, 301]);
    assert_eq!(action.params.info, Some(vec![5, 6]));
    let other = store.launch_params(id, 0).ok().unwrap();
    assert_eq!((other.grid, other.info), ((1, 2, 3), vec![1, 2]));
    assert_eq!(store.launch_params(id, 1).ok().unwrap().ptrs, vec![100, 301]);
}

/// A shape that moved is written into the pinned buffer that its copy reads from.
#[test]
fn the_dynamic_half_is_staged() {
    let (mut store, id) = store(vec![launch(vec![1, 2, 3], 1, Some(1))], vec![99, 16]);
    let same = store.patch_launch(id, 0, patch(Some(vec![8, 2, 3]), vec![])).ok().unwrap();
    assert!(same.stage.is_none());
    let moved = store.patch_launch(id, 0, patch(Some(vec![8, 2, 0x0102]), vec![])).ok().unwrap();
    let write = moved.stage.unwrap();
    assert_eq!(write.slot, 1);
    let expected: Vec<u8> = [2u64, 0x0102].iter().flat_map(|word| word.to_ne_bytes()).collect();
    assert_eq!(write.bytes, expected);
    let again = store.patch_launch(id, 0, patch(Some(vec![8, 2, 0x0102]), vec![])).ok().unwrap();
    assert!(again.stage.is_none());
}

#[test]
fn each_refusal_of_a_patch_is_told_and_changes_nothing() {
    let mut by_buffer = launch(vec![1], 1, None);
    by_buffer.info_is_grid_constant = false;
    let launches = vec![
        launch(vec![1, 2], 1, None),
        launch(vec![1, 2], 1, Some(5)),
        launch(vec![1, 2], 1, Some(0)),
        by_buffer,
    ];
    let (mut store, id) = store(launches, vec![24]);
    let mut refused = |idx: usize, patch: GraphLaunchPatch| {
        store.patch_launch(id, idx, patch).err()
    };
    assert_eq!(refused(0, patch(Some(vec![1, 9]), vec![])), Some(GraphError::NoStaging));
    assert_eq!(
        refused(1, patch(Some(vec![1, 9]), vec![])),
        Some(GraphError::NoBuffer { slot: 5 })
    );
    assert_eq!(
        refused(2, patch(Some(vec![1, 9]), vec![])),
        Some(GraphError::StagedLength { staged: 24, words: 1 })
    );
    assert_eq!(refused(3, patch(Some(vec![9]), vec![])), Some(GraphError::NotByValue));
    assert_eq!(
        refused(2, patch(Some(vec![1]), vec![])),
        Some(GraphError::InfoLength { captured: 2, offered: 1 })
    );
    assert_eq!(
        refused(0, patch(None, vec![(0, 1), (2, 1)])),
        Some(GraphError::NoBinding { bound: 2, index: 2 })
    );
    assert_eq!(refused(4, patch(None, vec![])), Some(GraphError::NoLaunch { recorded: 4 }));
    assert_eq!(store.launch_params(id, 0).ok().unwrap().ptrs, vec![100, 200]);
    assert_eq!(
        store.patch_launch(9, 0, patch(None, vec![])).err(),
        Some(GraphError::NoGraph { id: 9 })
    );
}

#[test]
fn patches_stop_at_the_first_refusal() {
    let (mut store, id) = store(vec![launch(vec![], 0, None)], vec![]);
    let done = store.patch_launches(
        id,
        vec![
            (0, patch(None, vec![(0, 1)])),
            (3, patch(None, vec![])),
            (0, patch(None, vec![(0, 2)])),
        ],
    );
    assert_eq!(done.actions.len(), 1);
    assert_eq!(done.actions[0].params.info, None);
    assert_eq!(done.refusal, Some(GraphError::NoLaunch { recorded: 1 }));
    assert_eq!(store.launch_params(id, 0).ok().unwrap().ptrs[0], 1);
}

#[test]
fn the_node_of_a_launch_is_the_frontier() {
    let frontier = Frontier { active: true, node: Some(4), count: 1 };
    assert_eq!(
        captured_node(true, frontier, Some(SHAPE)),
        CapturedLaunchNode::Node(CapturedNode { node: 4, shape: SHAPE })
    );
    assert_eq!(captured_node(false, frontier, Some(SHAPE)), CapturedLaunchNode::Absent);
    assert_eq!(captured_node(true, frontier, None), CapturedLaunchNode::NotLoaded);
    let fork = Frontier { count: 2, ..frontier };
    assert_eq!(captured_node(true, fork, Some(SHAPE)), CapturedLaunchNode::Forked { count: 2 });
    let closed = Frontier { active: false, ..frontier };
    assert_eq!(captured_node(true, closed, Some(SHAPE)), CapturedLaunchNode::Absent);
}

#[test]
fn only_the_dynamic_half_is_uploaded_beside_a_grid_constant() {
    let words = vec![1u64, 2, 3];
    assert_eq!(info_upload(&words, 3, true), None);
    assert_eq!(info_upload(&words, 2, true), Some(3u64.to_ne_bytes().to_vec()));
    assert_eq!(info_upload(&words, 2, false).map(|bytes| bytes.len()), Some(24));
    assert_eq!(info_upload(&vec![], 0, false), None);
}

#[test]
fn staging_is_counted() {
    assert_eq!(staging_index(true, 2, 3), Some(2));
    assert_eq!(staging_index(true, 3, 3), None);
    assert_eq!(staging_index(false, 2, 3), None);
}

/// What the arena owns is not held, unless the arena is not in use.
#[test]
fn foreign_memory_is_held() {
    let all = bindings(3);
    let owned = vec![false, true, false];
    let options = LaunchOptions {
        grid_constants: true,
        capture_open: true,
        hold: true,
        arena: true,
        stage_own: true,
    };
    let sizes = |options: LaunchOptions| -> Vec<u64> {
        holds(&all, &owned, options).iter().map(|binding| binding.bytes).collect()
    };
    assert_eq!(sizes(options), vec![0, 2]);
    assert_eq!(sizes(LaunchOptions { arena: false, ..options }), vec![0, 1, 2]);
    assert_eq!(sizes(LaunchOptions { hold: false, ..options }), Vec::<u64>::new());
    assert_eq!(sizes(LaunchOptions { capture_open: false, ..options }), Vec::<u64>::new());
}

#[test]
fn nodes_are_counted_by_kind() {
    assert_eq!(node_kinds(&vec![5, 0, 5, 1, 0, 5]), vec![(0, 2), (1, 1), (5, 3)]);
    assert_eq!(node_kinds(&vec![]), vec![]);
    assert_eq!(nodes_of_kind(&vec![(10, 1), (11, 2), (12, 1)], 1), vec![10, 12]);
}

#[test]
fn regions_and_copies_are_sorted() {
    assert_eq!(
        alloc_regions(vec![(5, 1), (2, 9), (5, 0)]),
        vec![(2, 9), (5, 0), (5, 1)]
    );
    let copy = MemcpyNode {
        src_device: 0,
        src_host: 70,
        dst_device: 80,
        dst_host: 0,
        width: 4,
        height: 3,
        depth: 0,
        src_memory_type: 1,
    };
    let first = MemcpyNode { src_device: 60, src_host: 0, height: 0, depth: 2, ..copy };
    let third = MemcpyNode { src_memory_type: 2, ..copy };
    assert_eq!(
        memcpy_specs(&vec![third, copy, first]),
        vec![(60, 80, 8, 1), (70, 80, 12, 1), (70, 80, 12, 2)]
    );
}

#[test]
fn settings_are_read() {
    assert!(on_unless_off(None) && on_unless_off(Some("1")) && !on_unless_off(Some("0")));
    assert!(pinned_staging_enabled(Some("on")) && pinned_staging_enabled(Some("1")));
    assert!(!pinned_staging_enabled(None) && !pinned_staging_enabled(Some("yes")));
    assert!(trace_ptrs(Some("1")) && !trace_ptrs(Some("on")) && !trace_ptrs(None));
    assert_eq!(capture_mode(Some("relaxed")), CaptureMode::Relaxed);
    assert_eq!(capture_mode(Some("global")), CaptureMode::Global);
    assert_eq!(capture_mode(Some("thread")), CaptureMode::ThreadLocal);
    assert_eq!(capture_mode(None), CaptureMode::ThreadLocal);
    let codes = [
        Some(CaptureStatus::Closed),
        Some(CaptureStatus::Active),
        Some(CaptureStatus::Invalidated),
        None,
    ];
    assert_eq!(codes.map(capture_status), [0, 1, 2, 3]);
}

#[test]
fn external_memory_has_to_fit() {
    assert_eq!(check_external(100, 60, 40, true), Ok(()));
    assert_eq!(check_external(100, 60, 41, true), Err(ExternalRefusal::OutOfBounds));
    assert_eq!(check_external(100, u64::MAX, 2, true), Err(ExternalRefusal::OutOfBounds));
    assert_eq!(check_external(100, 0, 1, false), Err(ExternalRefusal::NotAddressable));
}

#[test]
fn a_cube_count_is_three_words() {
    let words: Vec<u32> = vec![7, 0x0102_0304, 9];
    assert_eq!(cube_count_of(&words), Ok((7, 0x0102_0304, 9)));
    assert_eq!(cube_count_of(&vec![1]), Err(CubeCountError::Length { words: 1 }));
    // Room enough for twelve bytes that start at a multiple of four.
    let mut backing = vec![0u8; 16];
    let start = (0..4).find(|i| (backing.as_ptr() as usize + i) % 4 == 0).unwrap();
    for (i, word) in words.iter().enumerate() {
        backing[start + 4 * i..start + 4 * i + 4].copy_from_slice(&word.to_ne_bytes());
    }
    assert_eq!(dynamic_cube_count(&backing[start..start + 12]), Ok((7, 0x0102_0304, 9)));
    assert_eq!(
        dynamic_cube_count(&backing[start..start + 8]),
        Err(CubeCountError::Length { words: 2 })
    );
    assert_eq!(
        dynamic_cube_count(&backing[start + 1..start + 13]),
        Err(CubeCountError::Unaligned)
    );
}
