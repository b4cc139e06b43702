//! What captures, replays and rewrites do to the graphs that are kept, field by field.

use vstd::arithmetic::power2::pow2;
use vstd::prelude::*;

use crate::cuda::graph::{
    dangles, lemma_replaced_by_the_last, CapturedGraph, CapturedLaunch, GraphError,
    GraphLaunchParams, GraphLaunchPatch, GraphStore, PatchAction, Patched,
};
use crate::first::lemma_first_from;
use crate::handle::Binding;

verus! {

/// Whether a launch takes the place of another one: it is the same but for its grid, its
/// packed blob and its pointers.
pub open spec fn same_node(was: CapturedLaunch, now: CapturedLaunch) -> bool {
    &&& now.node == was.node && now.func == was.func && now.block == was.block
    &&& now.shared == was.shared && now.tensor_maps@ == was.tensor_maps@
    &&& now.info_is_grid_constant == was.info_is_grid_constant
    &&& now.dyn_offset == was.dyn_offset && now.staging == was.staging
    &&& now.name@ == was.name@
}

/// Whether a launch is as it was.
pub open spec fn same_launch(was: CapturedLaunch, now: CapturedLaunch) -> bool {
    &&& same_node(was, now)
    &&& now.grid == was.grid && now.info@ == was.info@ && now.ptrs@ == was.ptrs@
}

/// Whether a graph is as it was.
pub open spec fn same_graph(was: CapturedGraph, now: CapturedGraph) -> bool {
    &&& now.graph == was.graph && now.instance == was.instance && now.hold@ == was.hold@
    &&& now.arena_signature == was.arena_signature && now.staging@ == was.staging@
    &&& now.launches@.len() == was.launches@.len()
    &&& forall|k: int|
        0 <= k < was.launches@.len() ==> same_launch(
            was.launches@[k],
            #[trigger] now.launches@[k],
        )
}

/// Whether all graphs but one are as they were.
pub open spec fn same_others(was: GraphStore, now: GraphStore, id: u64) -> bool {
    forall|other: u64|
        #![trigger now.graphs@[other]]
        #![trigger now.graphs@.contains_key(other)]
        other != id ==> {
            &&& now.graphs@.contains_key(other) == was.graphs@.contains_key(other)
            &&& was.graphs@.contains_key(other) ==> same_graph(
                was.graphs@[other],
                now.graphs@[other],
            )
        }
}

/// Whether the open capture is as it was.
pub open spec fn same_capture(was: GraphStore, now: GraphStore) -> bool {
    &&& now.capture_hold@ == was.capture_hold@
    &&& now.capture_arena_mark == was.capture_arena_mark
    &&& now.capture_launches@.len() == was.capture_launches@.len()
    &&& forall|k: int|
        0 <= k < was.capture_launches@.len() ==> same_launch(
            was.capture_launches@[k],
            #[trigger] now.capture_launches@[k],
        )
}

proof fn lemma_same_launch(was: CapturedLaunch, now: CapturedLaunch)
    requires
        was@ == now@,
    ensures
        same_launch(was, now),
{
}

proof fn lemma_same_graph(was: CapturedGraph, now: CapturedGraph)
    requires
        was@ == now@,
    ensures
        same_graph(was, now),
{
    assert(now@.launches.len() == now.launches@.len());
    assert(was@.launches.len() == was.launches@.len());
    assert forall|k: int| 0 <= k < was.launches@.len() implies same_launch(
        was.launches@[k],
        #[trigger] now.launches@[k],
    ) by {
        assert(was@.launches[k] == was.launches@[k]@);
        assert(now@.launches[k] == now.launches@[k]@);
        lemma_same_launch(was.launches@[k], now.launches@[k]);
    }
}

proof fn lemma_same_others(was: GraphStore, now: GraphStore, id: u64)
    requires
        forall|other: u64|
            #![trigger now@.graphs.contains_key(other)]
            other != id ==> now@.graphs.contains_key(other) == was@.graphs.contains_key(other)
                && now@.graphs[other] == was@.graphs[other],
    ensures
        same_others(was, now, id),
{
    assert forall|other: u64|
        #![trigger now.graphs@[other]]
        #![trigger now.graphs@.contains_key(other)]
        other != id implies {
            &&& now.graphs@.contains_key(other) == was.graphs@.contains_key(other)
            &&& was.graphs@.contains_key(other) ==> same_graph(
                was.graphs@[other],
                now.graphs@[other],
            )
        } by {
        assert(now@.graphs.contains_key(other) == now.graphs@.contains_key(other));
        assert(was@.graphs.contains_key(other) == was.graphs@.contains_key(other));
        if was.graphs@.contains_key(other) {
            assert(now@.graphs[other] == now.graphs@[other]@);
            assert(was@.graphs[other] == was.graphs@[other]@);
            lemma_same_graph(was.graphs@[other], now.graphs@[other]);
        }
    }
}

proof fn lemma_same_capture(was: GraphStore, now: GraphStore)
    requires
        now@.capture_hold == was@.capture_hold,
        now@.capture_arena_mark == was@.capture_arena_mark,
        now@.capture_launches == was@.capture_launches,
    ensures
        same_capture(was, now),
{
    assert(now@.capture_launches.len() == now.capture_launches@.len());
    assert(was@.capture_launches.len() == was.capture_launches@.len());
    assert forall|k: int| 0 <= k < was.capture_launches@.len() implies same_launch(
        was.capture_launches@[k],
        #[trigger] now.capture_launches@[k],
    ) by {
        assert(was@.capture_launches[k] == was.capture_launches@[k]@);
        assert(now@.capture_launches[k] == now.capture_launches@[k]@);
        lemma_same_launch(was.capture_launches@[k], now.capture_launches@[k]);
    }
}

/// Whether a number is the one that was asked for, or the one from before if none was.
pub open spec fn set_to<T>(asked: Option<T>, was: T, now: T) -> bool {
    now == match asked {
        Some(value) => value,
        None => was,
    }
}

/// Whether pointer `k` is what changes made of it: the last one that names it says what it
/// is, and where none does it is as before.
pub open spec fn pointed(
    changes: Seq<(usize, u64)>,
    was: Seq<u64>,
    now: Seq<u64>,
    k: int,
) -> bool {
    ||| now[k] == was[k] && forall|i: int| 0 <= i < changes.len() ==> (#[trigger] changes[i]).0 != k
    ||| exists|i: int|
        0 <= i < changes.len() && (#[trigger] changes[i]).0 == k && changes[i].1 == now[k] && (
        forall|j: int| i < j < changes.len() ==> (#[trigger] changes[j]).0 != k)
}

/// A rewrite that is done leaves the launch with the grid of the patch, dimension by dimension,
/// or with its own if the patch has none; with the packed blob of the patch, word by word, or
/// its own; and with each pointer that the patch names last. Nothing else of it is changed.
pub proof fn law_patch_is_what_the_launch_becomes(
    store: &mut GraphStore,
    id: u64,
    idx: usize,
    patch: GraphLaunchPatch,
    r: Result<PatchAction, GraphError>,
)
    requires
        call_ensures(GraphStore::patch_launch, (store, id, idx, patch), r),
        r is Ok,
    ensures
        old(store).graphs@.contains_key(id),
        final(store).graphs@.contains_key(id),
        idx < old(store).graphs@[id].launches@.len(),
        ({
            let was = old(store).graphs@[id].launches@[idx as int];
            let now = final(store).graphs@[id].launches@[idx as int];
            &&& same_node(was, now)
            &&& patch.grid matches Some(grid) ==> now.grid.0 == grid.0 && now.grid.1 == grid.1
                && now.grid.2 == grid.2
            &&& patch.grid is None ==> now.grid == was.grid
            &&& patch.info matches Some(info) ==> now.info@.len() == info@.len() && (forall|k: int|
                0 <= k < info@.len() ==> (#[trigger] now.info@[k]) == info@[k])
            &&& patch.info is None ==> now.info@ == was.info@
            &&& now.ptrs@.len() == was.ptrs@.len()
            &&& forall|k: int|
                0 <= k < was.ptrs@.len() ==> #[trigger] pointed(
                    patch.ptrs@,
                    was.ptrs@,
                    now.ptrs@,
                    k,
                )
        }),
{
    lemma_patched(*old(store), *final(store), id, idx as int, patch, r->Ok_0);
}

proof fn lemma_patched(
    before: GraphStore,
    after: GraphStore,
    id: u64,
    idx: int,
    patch: GraphLaunchPatch,
    action: PatchAction,
)
    requires
        0 <= idx,
        crate::cuda::graph::patches(before@, id, idx, patch, Ok(action), after@),
    ensures
        before.graphs@.contains_key(id),
        after.graphs@.contains_key(id),
        idx < before.graphs@[id].launches@.len(),
        idx < after.graphs@[id].launches@.len(),
        after.graphs@[id].launches@[idx]@ == crate::cuda::graph::patched(
            before.graphs@[id].launches@[idx]@,
            patch,
        ),
        after@.graphs[id] == after.graphs@[id]@,
        before@.graphs[id] == before.graphs@[id]@,
        before@.graphs[id].launches[idx] == before.graphs@[id].launches@[idx]@,
        forall|i: int|
            0 <= i < patch.ptrs@.len() ==> (#[trigger] patch.ptrs@[i]).0
                < before.graphs@[id].launches@[idx].ptrs@.len(),
        ({
            let was = before.graphs@[id].launches@[idx];
            let now = after.graphs@[id].launches@[idx];
            &&& now.ptrs@.len() == was.ptrs@.len()
            &&& forall|k: int|
                0 <= k < was.ptrs@.len() ==> #[trigger] pointed(
                    patch.ptrs@,
                    was.ptrs@,
                    now.ptrs@,
                    k,
                )
        }),
{
    assert(before@.graphs.contains_key(id));
    assert(after@.graphs.contains_key(id));
    let b = before.graphs@[id];
    let a = after.graphs@[id];
    assert(before@.graphs[id] == b@);
    assert(after@.graphs[id] == a@);
    assert(b@.launches.len() == b.launches@.len());
    assert(a@.launches.len() == a.launches@.len());
    assert(b@.launches[idx] == b.launches@[idx]@);
    assert(a@.launches[idx] == a.launches@[idx]@);
    let was = b.launches@[idx];
    let now = a.launches@[idx];
    let p = |i: int| dangles(was@, patch.ptrs@, i);
    lemma_first_from(0, patch.ptrs@.len() as int, p);
    assert forall|i: int| 0 <= i < patch.ptrs@.len() implies (#[trigger] patch.ptrs@[i]).0
        < was.ptrs@.len() by {
        assert(!p(i));
    }
    assert forall|k: int| 0 <= k < was.ptrs@.len() implies #[trigger] pointed(
        patch.ptrs@,
        was.ptrs@,
        now.ptrs@,
        k,
    ) by {
        lemma_replaced_by_the_last(was.ptrs@, patch.ptrs@, k);
    }
    if was.ptrs@.len() > 0 {
        lemma_replaced_by_the_last(was.ptrs@, patch.ptrs@, 0);
    } else {
        assert(patch.ptrs@.len() == 0) by {
            if patch.ptrs@.len() > 0 {
                assert(patch.ptrs@[0].0 < was.ptrs@.len());
            }
        }
    }
}

/// What the node is rewritten to is what the launch became, all of it: the graph, the node, the
/// function, the grid and block dimension by dimension, the tensor maps, the pointers, and the
/// packed blob if it rides by value and there is one.
pub proof fn law_node_becomes_what_the_launch_became(
    store: &mut GraphStore,
    id: u64,
    idx: usize,
    patch: GraphLaunchPatch,
    r: Result<PatchAction, GraphError>,
)
    requires
        call_ensures(GraphStore::patch_launch, (store, id, idx, patch), r),
        r is Ok,
    ensures
        ({
            let graph = final(store).graphs@[id];
            let now = graph.launches@[idx as int];
            let params = r->Ok_0.params;
            &&& params.instance == graph.instance
            &&& params.node == now.node && params.func == now.func
            &&& params.grid.0 == now.grid.0 && params.grid.1 == now.grid.1 && params.grid.2
                == now.grid.2
            &&& params.block.0 == now.block.0 && params.block.1 == now.block.1 && params.block.2
                == now.block.2
            &&& params.shared == now.shared
            &&& params.tensor_maps@ == now.tensor_maps@
            &&& params.ptrs@ == now.ptrs@
            &&& params.info is Some <==> now.info_is_grid_constant && now.info@.len() > 0
            &&& params.info matches Some(info) ==> info@ == now.info@
        }),
{
    lemma_patched(*old(store), *final(store), id, idx as int, patch, r->Ok_0);
}

/// A rewrite touches one launch of one graph: its other launches, what it holds and what it
/// was made from, the other graphs and the open capture are as they were. One that is refused
/// touches nothing.
pub proof fn law_patch_touches_one_launch(
    store: &mut GraphStore,
    id: u64,
    idx: usize,
    patch: GraphLaunchPatch,
    r: Result<PatchAction, GraphError>,
)
    requires
        call_ensures(GraphStore::patch_launch, (store, id, idx, patch), r),
    ensures
        same_capture(*old(store), *final(store)),
        same_others(*old(store), *final(store), id),
        final(store).next_graph_id == old(store).next_graph_id,
        final(store).last_arena_signature == old(store).last_arena_signature,
        final(store).graphs@.contains_key(id) == old(store).graphs@.contains_key(id),
        r is Err && old(store).graphs@.contains_key(id) ==> same_graph(
            old(store).graphs@[id],
            final(store).graphs@[id],
        ),
        r is Ok ==> {
            let was = old(store).graphs@[id];
            let now = final(store).graphs@[id];
            &&& now.graph == was.graph && now.instance == was.instance && now.hold@ == was.hold@
            &&& now.arena_signature == was.arena_signature && now.staging@ == was.staging@
            &&& now.launches@.len() == was.launches@.len()
            &&& forall|k: int|
                0 <= k < was.launches@.len() && k != idx ==> same_launch(
                    was.launches@[k],
                    #[trigger] now.launches@[k],
                )
        },
{
    lemma_same_capture(*old(store), *final(store));
    lemma_same_others(*old(store), *final(store), id);
    assert(final(store)@.graphs.contains_key(id) == old(store)@.graphs.contains_key(id));
    if r is Ok {
        lemma_patched(*old(store), *final(store), id, idx as int, patch, r->Ok_0);
        let was = old(store).graphs@[id];
        let now = final(store).graphs@[id];
        assert(now@.launches.len() == now.launches@.len());
        assert(was@.launches.len() == was.launches@.len());
        assert forall|k: int| 0 <= k < was.launches@.len() && k != idx implies same_launch(
            was.launches@[k],
            #[trigger] now.launches@[k],
        ) by {
            assert(was@.launches[k] == was.launches@[k]@);
            assert(now@.launches[k] == now.launches@[k]@);
            lemma_same_launch(was.launches@[k], now.launches@[k]);
        }
    } else if old(store).graphs@.contains_key(id) {
        assert(final(store)@.graphs[id] == final(store).graphs@[id]@);
        assert(old(store)@.graphs[id] == old(store).graphs@[id]@);
        lemma_same_graph(old(store).graphs@[id], final(store).graphs@[id]);
    }
}

/// Whether word `k` of a packed blob moves and is one of the shapes and strides: it is another
/// one than before, or there is none where there was one, or none was where there is one.
pub open spec fn moved(launch: CapturedLaunch, info: Seq<u64>, k: int) -> bool {
    &&& launch.dyn_offset <= k && launch.dyn_offset < info.len()
    &&& k < info.len() || k < launch.info@.len()
    &&& k < info.len() && k < launch.info@.len() ==> info[k] != launch.info@[k]
}

/// Whether any of the shapes and strides moves.
pub open spec fn any_moved(launch: CapturedLaunch, info: Seq<u64>) -> bool {
    exists|k: int| #[trigger] moved(launch, info, k)
}

proof fn lemma_any_moved(launch: CapturedLaunch, info: Seq<u64>)
    ensures
        any_moved(launch, info) <==> crate::cuda::graph::moves_dynamic(launch@, info),
{
    let off = launch.dyn_offset as int;
    let had = launch.info@;
    if off < info.len() && off <= had.len() {
        if any_moved(launch, info) {
            let k = choose|k: int| #[trigger] moved(launch, info, k);
            if info.len() == had.len() {
                assert(info.skip(off)[k - off] != had.skip(off)[k - off]);
            } else {
                assert(info.skip(off).len() != had.skip(off).len());
            }
        } else {
            assert(!moved(launch, info, info.len() as int));
            assert(!moved(launch, info, had.len() as int));
            assert forall|i: int| 0 <= i < info.len() - off implies info.skip(off)[i] == had.skip(
                off,
            )[i] by {
                assert(!moved(launch, info, i + off));
            }
            assert(info.skip(off) =~= had.skip(off));
        }
    } else if off < info.len() {
        assert(moved(launch, info, off));
    }
}

/// A rewrite is done exactly if the graph is there and recorded the launch, every pointer names
/// a binding, and the packed blob, if there is one, rides by value, is as long as it was, and
/// either leaves the shapes and strides alone or has a pinned buffer of the right size to write
/// them into.
pub proof fn law_patch_is_done_if_it_can_be(
    store: &mut GraphStore,
    id: u64,
    idx: usize,
    patch: GraphLaunchPatch,
    r: Result<PatchAction, GraphError>,
)
    requires
        call_ensures(GraphStore::patch_launch, (store, id, idx, patch), r),
    ensures
        r is Ok <==> {
            let graph = old(store).graphs@[id];
            let launch = graph.launches@[idx as int];
            &&& old(store).graphs@.contains_key(id)
            &&& idx < graph.launches@.len()
            &&& forall|i: int|
                0 <= i < patch.ptrs@.len() ==> (#[trigger] patch.ptrs@[i]).0 < launch.ptrs@.len()
            &&& match patch.info {
                Some(info) => {
                    &&& launch.info_is_grid_constant
                    &&& info@.len() == launch.info@.len()
                    &&& any_moved(launch, info@) ==> launch.staging is Some && launch.staging->0
                        < graph.staging@.len() && graph.staging@[launch.staging->0 as int] == 8 * (
                    info@.len() - launch.dyn_offset)
                },
                None => true,
            }
        },
{
    let before = *old(store);
    assert(before@.graphs.contains_key(id) == before.graphs@.contains_key(id));
    if before.graphs@.contains_key(id) {
        let b = before.graphs@[id];
        assert(before@.graphs[id] == b@);
        assert(b@.launches.len() == b.launches@.len());
        if idx < b.launches@.len() {
            let launch = b.launches@[idx as int];
            assert(b@.launches[idx as int] == launch@);
            let p = |i: int| dangles(launch@, patch.ptrs@, i);
            lemma_first_from(0, patch.ptrs@.len() as int, p);
            assert forall|i: int| 0 <= i < patch.ptrs@.len() implies p(i) == ((
            #[trigger] patch.ptrs@[i]).0 >= launch.ptrs@.len()) by {}
            if r is Ok {
                assert forall|i: int| 0 <= i < patch.ptrs@.len() implies (
                #[trigger] patch.ptrs@[i]).0 < launch.ptrs@.len() by {
                    assert(!p(i));
                }
            }
            if let Some(info) = patch.info {
                lemma_any_moved(launch, info@);
            }
        }
    }
}

/// Why a rewrite is refused is so, with the numbers that it names, and what it asks of the
/// shapes and strides comes before the rest of the blob, which comes before the pointers.
pub proof fn law_patch_is_refused_for_what_is_wrong(
    store: &mut GraphStore,
    id: u64,
    idx: usize,
    patch: GraphLaunchPatch,
    r: Result<PatchAction, GraphError>,
)
    requires
        call_ensures(GraphStore::patch_launch, (store, id, idx, patch), r),
    ensures
        r matches Err(GraphError::NoGraph { id: named }) <==> !old(store).graphs@.contains_key(id),
        r matches Err(GraphError::NoGraph { id: named }) ==> named == id,
        r matches Err(GraphError::NoLaunch { recorded }) ==> old(store).graphs@.contains_key(id)
            && recorded == old(store).graphs@[id].launches@.len() && idx >= recorded,
        old(store).graphs@.contains_key(id) && idx >= old(store).graphs@[id].launches@.len()
            ==> r matches Err(GraphError::NoLaunch { recorded }),
        r is Err && old(store).graphs@.contains_key(id) && idx
            < old(store).graphs@[id].launches@.len() ==> {
            let graph = old(store).graphs@[id];
            let launch = graph.launches@[idx as int];
            match r->Err_0 {
                GraphError::NoStaging => {
                    &&& patch.info matches Some(info) && any_moved(launch, info@)
                    &&& launch.staging is None
                },
                GraphError::NoBuffer { slot } => {
                    &&& patch.info matches Some(info) && any_moved(launch, info@)
                    &&& launch.staging == Some(slot) && slot >= graph.staging@.len()
                },
                GraphError::StagedLength { staged, words } => {
                    &&& patch.info matches Some(info) && any_moved(launch, info@)
                    &&& launch.dyn_offset + words == (patch.info->0)@.len()
                    &&& launch.staging matches Some(slot) && slot < graph.staging@.len()
                        && graph.staging@[slot as int] == staged
                    &&& staged != 8 * words
                },
                GraphError::NotByValue => patch.info is Some && !launch.info_is_grid_constant,
                GraphError::InfoLength { captured, offered } => {
                    &&& patch.info matches Some(info) && offered == info@.len()
                    &&& captured == launch.info@.len()
                    &&& captured != offered
                },
                GraphError::NoBinding { bound, index } => {
                    &&& bound == launch.ptrs@.len()
                    &&& index >= bound
                    &&& exists|i: int|
                        0 <= i < patch.ptrs@.len() && (#[trigger] patch.ptrs@[i]).0 == index
                            && forall|j: int|
                            0 <= j < i ==> (#[trigger] patch.ptrs@[j]).0 < launch.ptrs@.len()
                    &&& patch.info matches Some(info) ==> launch.info_is_grid_constant
                        && info@.len() == launch.info@.len()
                },
                _ => false,
            }
        },
{
    let before = *old(store);
    assert(before@.graphs.contains_key(id) == before.graphs@.contains_key(id));
    if before.graphs@.contains_key(id) {
        let b = before.graphs@[id];
        assert(before@.graphs[id] == b@);
        assert(b@.launches.len() == b.launches@.len());
        if idx < b.launches@.len() {
            let launch = b.launches@[idx as int];
            assert(b@.launches[idx as int] == launch@);
            assert(launch.info@.len() == launch.info.len());
            assert(launch.ptrs@.len() == launch.ptrs.len());
            let p = |i: int| dangles(launch@, patch.ptrs@, i);
            lemma_first_from(0, patch.ptrs@.len() as int, p);
            if let Some(GraphError::NoBinding { bound, index }) = r.err() {
                let i = crate::first::first_where(patch.ptrs@.len(), p)->0;
                assert(patch.ptrs@[i].0 == index);
                assert forall|j: int| 0 <= j < i implies (#[trigger] patch.ptrs@[j]).0
                    < launch.ptrs@.len() by {
                    assert(!p(j));
                }
            }
            if let Some(info) = patch.info {
                lemma_any_moved(launch, info@);
                assert(info@.len() == info.len());
            }
        }
    }
}

/// Whether eight bytes are those of a word, from the lowest on.
pub open spec fn lowest_first(bytes: Seq<u8>, at: int, word: u64) -> bool {
    forall|k: int|
        #![trigger bytes[at + k]]
        0 <= k < 8 ==> bytes[at + k] == (word as int / pow2((8 * k) as nat) as int) % 256
}

/// Whether eight bytes are those of a word, from the highest on.
pub open spec fn highest_first(bytes: Seq<u8>, at: int, word: u64) -> bool {
    forall|k: int|
        #![trigger bytes[at + k]]
        0 <= k < 8 ==> bytes[at + k] == (word as int / pow2((8 * (7 - k)) as nat) as int) % 256
}

/// A pinned buffer is written exactly if one of the shapes and strides moved. It is the one
/// that they were uploaded from, it is written whole, and each of them is written where it
/// belongs, eight bytes for a word, in one order of bytes or the other throughout.
pub proof fn law_moved_shapes_are_staged(
    store: &mut GraphStore,
    id: u64,
    idx: usize,
    patch: GraphLaunchPatch,
    r: Result<PatchAction, GraphError>,
)
    requires
        call_ensures(GraphStore::patch_launch, (store, id, idx, patch), r),
        r is Ok,
    ensures
        ({
            let graph = old(store).graphs@[id];
            let was = graph.launches@[idx as int];
            &&& r->Ok_0.stage is Some <==> patch.info is Some && any_moved(was, (patch.info->0)@)
            &&& r->Ok_0.stage matches Some(write) ==> {
                let words = (patch.info->0)@;
                let off = was.dyn_offset as int;
                &&& was.staging == Some(write.slot)
                &&& write.bytes@.len() == graph.staging@[write.slot as int]
                &&& write.bytes@.len() == 8 * (words.len() - off)
                &&& (forall|j: int|
                    off <= j < words.len() ==> lowest_first(
                        write.bytes@,
                        8 * (j - off),
                        #[trigger] words[j],
                    )) || (forall|j: int|
                    off <= j < words.len() ==> highest_first(
                        write.bytes@,
                        8 * (j - off),
                        #[trigger] words[j],
                    ))
            }
        }),
{
    lemma_patched(*old(store), *final(store), id, idx as int, patch, r->Ok_0);
    let was = old(store).graphs@[id].launches@[idx as int];
    if let Some(info) = patch.info {
        lemma_any_moved(was, info@);
        if let Some(write) = r->Ok_0.stage {
            let off = was.dyn_offset as int;
            let words = info@;
            let tail = words.skip(off);
            let bytes = write.bytes@;
            if bytes == crate::cuda::words::little_endian(tail) {
                assert forall|j: int| off <= j < words.len() implies lowest_first(
                    bytes,
                    8 * (j - off),
                    #[trigger] words[j],
                ) by {
                    assert forall|k: int| #![trigger bytes[8 * (j - off) + k]] 0 <= k < 8 implies bytes[8
                        * (j - off) + k] == (words[j] as int / pow2((8 * k) as nat) as int) % 256 by {
                        let i = 8 * (j - off) + k;
                        assert(i / 8 == j - off && i % 8 == k);
                        assert(tail[i / 8] == words[j]);
                    }
                }
            } else {
                assert forall|j: int| off <= j < words.len() implies highest_first(
                    bytes,
                    8 * (j - off),
                    #[trigger] words[j],
                ) by {
                    assert forall|k: int| #![trigger bytes[8 * (j - off) + k]] 0 <= k < 8 implies bytes[8
                        * (j - off) + k] == (words[j] as int / pow2((8 * (7 - k)) as nat) as int)
                        % 256 by {
                        let i = 8 * (j - off) + k;
                        assert(i / 8 == j - off && i % 8 == k);
                        assert(tail[i / 8] == words[j]);
                    }
                }
            }
        }
    }
}

/// What is known of a recorded launch is what the launch is. It is known exactly if the graph
/// is there and recorded it.
pub proof fn law_launch_is_known_as_it_is(
    store: GraphStore,
    id: u64,
    idx: usize,
    r: Result<GraphLaunchParams, GraphError>,
    count: Result<usize, GraphError>,
    address: Result<u64, GraphError>,
)
    requires
        call_ensures(GraphStore::launch_params, (&store, id, idx), r),
        call_ensures(GraphStore::launch_count, (&store, id), count),
        call_ensures(GraphStore::captured, (&store, id), address),
    ensures
        count is Ok <==> store.graphs@.contains_key(id),
        address is Ok <==> store.graphs@.contains_key(id),
        count matches Err(error) ==> error == (GraphError::NoGraph { id }),
        address matches Err(error) ==> error == (GraphError::NoGraph { id }),
        address matches Ok(graph) ==> graph == store.graphs@[id].graph,
        count matches Ok(n) ==> n == store.graphs@[id].launches@.len(),
        r is Ok <==> count is Ok && idx < count->Ok_0,
        r matches Err(error) ==> error == match count {
            Ok(n) => GraphError::NoLaunch { recorded: n },
            Err(error) => error,
        },
        r matches Ok(params) ==> {
            let launch = store.graphs@[id].launches@[idx as int];
            &&& params.grid.0 == launch.grid.0 && params.grid.1 == launch.grid.1 && params.grid.2
                == launch.grid.2
            &&& params.block.0 == launch.block.0 && params.block.1 == launch.block.1
                && params.block.2 == launch.block.2
            &&& params.info@ == launch.info@ && params.ptrs@ == launch.ptrs@
            &&& params.info_is_grid_constant == launch.info_is_grid_constant
            &&& params.dyn_offset == launch.dyn_offset
            &&& params.has_staging <==> launch.staging is Some
            &&& params.name@ == launch.name@
        },
{
    assert(store@.graphs.contains_key(id) == store.graphs@.contains_key(id));
    if store.graphs@.contains_key(id) {
        let graph = store.graphs@[id];
        assert(store@.graphs[id] == graph@);
        assert(graph@.launches.len() == graph.launches@.len());
        assert(graph.launches@.len() == graph.launches.len());
        if idx < graph.launches@.len() {
            assert(graph@.launches[idx as int] == graph.launches@[idx as int]@);
        }
    }
}

/// At first there are no graphs and nothing was captured.
pub proof fn law_nothing_is_captured_at_first(r: GraphStore, n: usize)
    requires
        call_ensures(GraphStore::new, (), r),
        call_ensures(GraphStore::capture_launch_count, (&r,), n),
    ensures
        forall|id: u64| !(#[trigger] r.graphs@.contains_key(id)),
        r.next_graph_id > 0,
        r.capture_hold@.len() == 0,
        r.capture_launches@.len() == 0,
        r.last_arena_signature is None,
        n == 0,
{
    assert forall|id: u64| !(#[trigger] r.graphs@.contains_key(id)) by {
        assert(!r@.graphs.contains_key(id));
    }
    assert(r@.capture_launches.len() == r.capture_launches@.len());
}

/// A capture begins with nothing held and nothing launched, at the mark of the arena, and
/// leaves all graphs as they are.
pub proof fn law_capture_begins_with_nothing(store: &mut GraphStore, mark: usize, r: ())
    requires
        call_ensures(GraphStore::capture_begin, (store, mark), r),
    ensures
        final(store).capture_hold@.len() == 0,
        final(store).capture_launches@.len() == 0,
        final(store).capture_arena_mark == mark,
        final(store).next_graph_id == old(store).next_graph_id,
        final(store).last_arena_signature == old(store).last_arena_signature,
        forall|id: u64|
            same_others(*old(store), *final(store), id),
{
    assert(final(store)@.capture_launches.len() == final(store).capture_launches@.len());
    assert forall|id: u64| same_others(*old(store), *final(store), id) by {
        lemma_same_others(*old(store), *final(store), id);
    }
}

/// A record puts what is held behind what was, and the launch, if there is one, behind those
/// before it; the capture counts one launch more exactly if there is one.
pub proof fn law_records_are_kept_in_order(
    store: &mut GraphStore,
    hold: Vec<Binding>,
    launch: Option<CapturedLaunch>,
    r: (),
)
    requires
        call_ensures(GraphStore::record, (store, hold, launch), r),
    ensures
        ({
            let held = old(store).capture_hold@;
            let launched = old(store).capture_launches@;
            &&& final(store).capture_hold@.len() == held.len() + hold@.len()
            &&& forall|i: int|
                0 <= i < held.len() ==> (#[trigger] final(store).capture_hold@[i]) == held[i]
            &&& forall|i: int|
                0 <= i < hold@.len() ==> final(store).capture_hold@[held.len() + i]
                    == #[trigger] hold@[i]
            &&& final(store).capture_launches@.len() == launched.len() + (if launch is Some {
                1int
            } else {
                0
            })
            &&& forall|i: int|
                0 <= i < launched.len() ==> same_launch(
                    launched[i],
                    #[trigger] final(store).capture_launches@[i],
                )
            &&& launch matches Some(launch) ==> same_launch(
                launch,
                final(store).capture_launches@.last(),
            )
        }),
        final(store).capture_arena_mark == old(store).capture_arena_mark,
        final(store).next_graph_id == old(store).next_graph_id,
        final(store).last_arena_signature == old(store).last_arena_signature,
        forall|id: u64| same_others(*old(store), *final(store), id),
{
    let was = *old(store);
    let now = *final(store);
    assert(now@.capture_launches.len() == now.capture_launches@.len());
    assert(was@.capture_launches.len() == was.capture_launches@.len());
    assert forall|i: int| 0 <= i < was.capture_launches@.len() implies same_launch(
        was.capture_launches@[i],
        #[trigger] now.capture_launches@[i],
    ) by {
        assert(was@.capture_launches[i] == was.capture_launches@[i]@);
        assert(now@.capture_launches[i] == now.capture_launches@[i]@);
        lemma_same_launch(was.capture_launches@[i], now.capture_launches@[i]);
    }
    if let Some(launch) = launch {
        let n = was.capture_launches@.len() as int;
        assert(now@.capture_launches[n] == now.capture_launches@[n]@);
        lemma_same_launch(launch, now.capture_launches@[n]);
    }
    assert forall|id: u64| same_others(was, now, id) by {
        lemma_same_others(was, now, id);
    }
}

/// The end of a capture makes one graph, under a number that no later one gets. It has what
/// was held and launched, and what it was instantiated as; replays have to agree with its
/// signature, and the next capture starts anew.
pub proof fn law_capture_ends_as_a_graph(
    store: &mut GraphStore,
    graph: u64,
    instance: u64,
    arena_signature: u64,
    staging: Vec<usize>,
    id: u64,
)
    requires
        old(store)@.next_graph_id < u64::MAX,
        call_ensures(
            GraphStore::capture_end,
            (store, graph, instance, arena_signature, staging),
            id,
        ),
    ensures
        old(store).next_graph_id <= id < final(store).next_graph_id,
        final(store).graphs@.contains_key(id),
        same_others(*old(store), *final(store), id),
        ({
            let made = final(store).graphs@[id];
            &&& made.graph == graph && made.instance == instance
            &&& made.arena_signature == arena_signature && made.staging@ == staging@
            &&& made.hold@ == old(store).capture_hold@
            &&& made.launches@.len() == old(store).capture_launches@.len()
            &&& forall|i: int|
                0 <= i < made.launches@.len() ==> same_launch(
                    old(store).capture_launches@[i],
                    #[trigger] made.launches@[i],
                )
        }),
        final(store).last_arena_signature == Some(arena_signature),
        final(store).capture_hold@.len() == 0,
        final(store).capture_launches@.len() == 0,
        final(store).capture_arena_mark == old(store).capture_arena_mark,
{
    let was = *old(store);
    let now = *final(store);
    assert(now@.graphs.contains_key(id));
    let made = now.graphs@[id];
    assert(now@.graphs[id] == made@);
    assert(made@.launches.len() == made.launches@.len());
    assert(was@.capture_launches.len() == was.capture_launches@.len());
    assert(now@.capture_launches.len() == now.capture_launches@.len());
    assert forall|i: int| 0 <= i < made.launches@.len() implies same_launch(
        was.capture_launches@[i],
        #[trigger] made.launches@[i],
    ) by {
        assert(was@.capture_launches[i] == was.capture_launches@[i]@);
        assert(made@.launches[i] == made.launches@[i]@);
        lemma_same_launch(was.capture_launches@[i], made.launches@[i]);
    }
    lemma_same_others(was, now, id);
}

/// What is launched to replay a graph is what was instantiated from it. It is refused exactly
/// if the graph is not there, or if the arena is in use and the capture that was closed last
/// had another signature.
pub proof fn law_replay_launches_the_instance(
    store: GraphStore,
    id: u64,
    arena_enabled: bool,
    r: Result<u64, GraphError>,
)
    requires
        call_ensures(GraphStore::replay, (&store, id, arena_enabled), r),
    ensures
        r is Ok <==> {
            &&& store.graphs@.contains_key(id)
            &&& !arena_enabled || store.last_arena_signature is None
                || store.last_arena_signature->0 == store.graphs@[id].arena_signature
        },
        r matches Ok(instance) ==> instance == store.graphs@[id].instance,
        r matches Err(error) ==> error == (if store.graphs@.contains_key(id) {
            GraphError::OtherRegion {
                built: store.graphs@[id].arena_signature,
                last: store.last_arena_signature->0,
            }
        } else {
            GraphError::NoGraph { id }
        }),
{
    assert(store@.graphs.contains_key(id) == store.graphs@.contains_key(id));
    if store.graphs@.contains_key(id) {
        assert(store@.graphs[id] == store.graphs@[id]@);
    }
}

/// A graph that is forgotten is gone, and what was instantiated from it and then the graph
/// itself are what has to be destroyed. Nothing else is touched.
pub proof fn law_destroy_forgets_one_graph(
    store: &mut GraphStore,
    id: u64,
    r: Option<(u64, u64)>,
)
    requires
        call_ensures(GraphStore::destroy, (store, id), r),
    ensures
        !final(store).graphs@.contains_key(id),
        r is Some <==> old(store).graphs@.contains_key(id),
        r matches Some((instance, graph)) ==> instance == old(store).graphs@[id].instance && graph
            == old(store).graphs@[id].graph,
        same_others(*old(store), *final(store), id),
        same_capture(*old(store), *final(store)),
        final(store).next_graph_id == old(store).next_graph_id,
        final(store).last_arena_signature == old(store).last_arena_signature,
{
    let was = *old(store);
    let now = *final(store);
    assert(was@.graphs.contains_key(id) == was.graphs@.contains_key(id));
    assert(now@.graphs.contains_key(id) == now.graphs@.contains_key(id));
    if was.graphs@.contains_key(id) {
        assert(was@.graphs[id] == was.graphs@[id]@);
    }
    lemma_same_others(was, now, id);
    lemma_same_capture(was, now);
}

/// Whether something is what was asked for last of `n` times, or what it was where it never was.
pub open spec fn asked_last<T>(asked: spec_fn(int) -> Option<T>, n: int, was: T, now: T) -> bool {
    ||| now == was && forall|i: int| 0 <= i < n ==> (#[trigger] asked(i)) is None
    ||| exists|i: int|
        0 <= i < n && #[trigger] asked(i) == Some(now) && (forall|j: int|
            i < j < n ==> (#[trigger] asked(j)) is None)
}

proof fn lemma_asked_again<T>(
    asked: spec_fn(int) -> Option<T>,
    n: int,
    was: T,
    before: T,
    now: T,
)
    requires
        0 <= n,
        asked_last(asked, n, was, before),
        set_to(asked(n), before, now),
    ensures
        asked_last(asked, n + 1, was, now),
{
    if asked(n) is None && exists|i: int|
        0 <= i < n && #[trigger] asked(i) == Some(before) && (forall|j: int|
            i < j < n ==> (#[trigger] asked(j)) is None) {
        let i = choose|i: int|
            0 <= i < n && #[trigger] asked(i) == Some(before) && (forall|j: int|
                i < j < n ==> (#[trigger] asked(j)) is None);
        assert(asked(i) == Some(now));
    }
}

/// The grid that change `i` asks for of launch `k`.
pub open spec fn grid_asked(
    changes: Seq<(usize, GraphLaunchPatch)>,
    k: int,
) -> spec_fn(int) -> Option<(u32, u32, u32)> {
    |i: int|
        if changes[i].0 == k {
            changes[i].1.grid
        } else {
            None
        }
}

/// The packed blob that change `i` asks for of launch `k`.
pub open spec fn info_asked(
    changes: Seq<(usize, GraphLaunchPatch)>,
    k: int,
) -> spec_fn(int) -> Option<Seq<u64>> {
    |i: int|
        match changes[i].1.info {
            Some(info) => if changes[i].0 == k {
                Some(info@)
            } else {
                None
            },
            None => None,
        }
}

proof fn lemma_patched_states(
    states: Seq<crate::cuda::graph::StoreView>,
    id: u64,
    changes: Seq<(usize, GraphLaunchPatch)>,
    actions: Seq<PatchAction>,
    n: int,
    k: int,
)
    requires
        0 <= n <= actions.len() <= changes.len(),
        states.len() == actions.len() + 1,
        forall|i: int|
            0 <= i < actions.len() ==> #[trigger] crate::cuda::graph::patched_at(
                states,
                id,
                changes,
                actions,
                i,
            ),
        0 <= k < states[0].graphs[id].launches.len(),
    ensures
        states[n].graphs[id].launches.len() == states[0].graphs[id].launches.len(),
        asked_last(
            grid_asked(changes, k),
            n,
            states[0].graphs[id].launches[k].grid,
            states[n].graphs[id].launches[k].grid,
        ),
        asked_last(
            info_asked(changes, k),
            n,
            states[0].graphs[id].launches[k].info,
            states[n].graphs[id].launches[k].info,
        ),
    decreases n,
{
    if n > 0 {
        lemma_patched_states(states, id, changes, actions, n - 1, k);
        assert(crate::cuda::graph::patched_at(states, id, changes, actions, n - 1));
        let first = states[0].graphs[id].launches[k];
        let before = states[n - 1].graphs[id].launches[k];
        let now = states[n].graphs[id].launches[k];
        lemma_asked_again(grid_asked(changes, k), n - 1, first.grid, before.grid, now.grid);
        lemma_asked_again(info_asked(changes, k), n - 1, first.info, before.info, now.info);
    }
}

/// Several rewrites are done in order, up to the first that is refused. Each launch is left
/// with the grid and the packed blob that the last of those that were done asks for, and what
/// each node is rewritten to has those of its own patch.
pub proof fn law_patches_are_done_in_order(
    store: &mut GraphStore,
    id: u64,
    changes: Vec<(usize, GraphLaunchPatch)>,
    r: Patched,
    k: int,
)
    requires
        call_ensures(GraphStore::patch_launches, (store, id, changes), r),
        old(store).graphs@.contains_key(id),
        0 <= k < old(store).graphs@[id].launches@.len(),
    ensures
        r.actions@.len() <= changes@.len(),
        r.refusal is None <==> r.actions@.len() == changes@.len(),
        final(store).graphs@.contains_key(id),
        final(store).graphs@[id].launches@.len() == old(store).graphs@[id].launches@.len(),
        asked_last(
            grid_asked(changes@, k),
            r.actions@.len() as int,
            old(store).graphs@[id].launches@[k].grid,
            final(store).graphs@[id].launches@[k].grid,
        ),
        asked_last(
            info_asked(changes@, k),
            r.actions@.len() as int,
            old(store).graphs@[id].launches@[k].info@,
            final(store).graphs@[id].launches@[k].info@,
        ),
        forall|i: int|
            #![trigger r.actions@[i]]
            0 <= i < r.actions@.len() ==> {
                let params = r.actions@[i].params;
                &&& changes@[i].1.grid matches Some(grid) ==> params.grid.0 == grid.0
                    && params.grid.1 == grid.1 && params.grid.2 == grid.2
                &&& changes@[i].1.info matches Some(info) ==> info@.len() > 0
                    ==> params.info is Some && (params.info->0)@ == info@
            },
{
    let was = *old(store);
    let now = *final(store);
    let states = choose|states: Seq<crate::cuda::graph::StoreView>|
        #[trigger] crate::cuda::graph::patches_all(
            states,
            was@,
            id,
            changes@,
            r.actions@,
            r.refusal,
            now@,
        );
    let n = r.actions@.len() as int;
    assert(was@.graphs.contains_key(id));
    let b = was.graphs@[id];
    assert(was@.graphs[id] == b@);
    assert(b@.launches.len() == b.launches@.len());
    assert(b@.launches[k] == b.launches@[k]@);
    lemma_patched_states(states, id, changes@, r.actions@, n, k);
    if n > 0 {
        assert(crate::cuda::graph::patched_at(states, id, changes@, r.actions@, n - 1));
    }
    assert(now@.graphs.contains_key(id));
    let a = now.graphs@[id];
    assert(now@.graphs[id] == a@);
    assert(a@.launches.len() == a.launches@.len());
    assert(a@.launches[k] == a.launches@[k]@);
    assert forall|i: int|
        #![trigger r.actions@[i]]
        0 <= i < r.actions@.len() implies {
            let params = r.actions@[i].params;
            &&& changes@[i].1.grid matches Some(grid) ==> params.grid.0 == grid.0 && params.grid.1
                == grid.1 && params.grid.2 == grid.2
            &&& changes@[i].1.info matches Some(info) ==> info@.len() > 0 ==> params.info is Some
                && (params.info->0)@ == info@
        } by {
        assert(crate::cuda::graph::patched_at(states, id, changes@, r.actions@, i));
    }
}

} // verus!
