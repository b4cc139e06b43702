//! Captured graphs: what is recorded, replayed and rewritten.
//!
//! A graph records device addresses. A slice that a node reads or writes must stay allocated,
//! and must not be handed to anything else, for as long as the graph can be replayed; so
//! a graph holds the buffers its nodes point at, and owns the pinned buffers its copies read
//! from. Graphs that share the capture arena share scratch, which is safe exactly when they
//! are captures of the same region.

use std::collections::HashMap;

use vstd::prelude::*;

use crate::cuda::words::{bytes_of, word_bytes};
use crate::first::{first_where, lemma_first_from, lemma_first_is, lemma_first_none};
use crate::handle::Binding;

verus! {

/// A tensor map as the driver encoded it.
pub type TensorMapBits = [u64; 16];

/// One launch a capture recorded, with everything needed to rewrite it. A rewrite takes all
/// of a node's parameters, so these are owned copies. The arguments of the launch were the
/// tensor maps, then one pointer for each bound resource, then the packed blob if it rides
/// by value.
pub struct CapturedLaunch {
    pub node: u64,
    pub func: u64,
    pub grid: (u32, u32, u32),
    pub block: (u32, u32, u32),
    pub shared: u32,
    pub tensor_maps: Vec<TensorMapBits>,
    pub ptrs: Vec<u64>,
    pub info: Vec<u64>,
    pub info_is_grid_constant: bool,
    /// Where the dynamic half of `info` starts: the shapes and strides, which reach the
    /// kernel through a copy that no rewrite of parameters reaches.
    pub dyn_offset: usize,
    /// Which of the graph's pinned buffers the dynamic half was uploaded from.
    pub staging: Option<usize>,
    /// The kernel, named.
    pub name: String,
}

/// What a recorded launch is, for contracts.
#[verifier::ext_equal]
pub struct LaunchView {
    pub node: u64,
    pub func: u64,
    pub grid: (u32, u32, u32),
    pub block: (u32, u32, u32),
    pub shared: u32,
    pub tensor_maps: Seq<TensorMapBits>,
    pub ptrs: Seq<u64>,
    pub info: Seq<u64>,
    pub info_is_grid_constant: bool,
    pub dyn_offset: usize,
    pub staging: Option<usize>,
    pub name: Seq<char>,
}

impl View for CapturedLaunch {
    type V = LaunchView;

    open spec fn view(&self) -> LaunchView {
        LaunchView {
            node: self.node,
            func: self.func,
            grid: self.grid,
            block: self.block,
            shared: self.shared,
            tensor_maps: self.tensor_maps@,
            ptrs: self.ptrs@,
            info: self.info@,
            info_is_grid_constant: self.info_is_grid_constant,
            dyn_offset: self.dyn_offset,
            staging: self.staging,
            name: self.name@,
        }
    }
}

/// One captured region: the graph, what was instantiated from it, and every buffer its nodes
/// hold a pointer to.
pub struct CapturedGraph {
    pub graph: u64,
    pub instance: u64,
    pub hold: Vec<Binding>,
    pub launches: Vec<CapturedLaunch>,
    /// A hash of the sizes this capture asked the arena for: the signature of the region.
    pub arena_signature: u64,
    /// The lengths of the pinned buffers that captured copies read from.
    pub staging: Vec<usize>,
}

/// What a captured region is, for contracts.
#[verifier::ext_equal]
pub struct GraphView {
    pub graph: u64,
    pub instance: u64,
    pub hold: Seq<Binding>,
    pub launches: Seq<LaunchView>,
    pub arena_signature: u64,
    pub staging: Seq<usize>,
}

/// What recorded launches are, for contracts.
pub open spec fn launch_views(launches: Seq<CapturedLaunch>) -> Seq<LaunchView> {
    launches.map_values(|launch: CapturedLaunch| launch@)
}

impl View for CapturedGraph {
    type V = GraphView;

    open spec fn view(&self) -> GraphView {
        GraphView {
            graph: self.graph,
            instance: self.instance,
            hold: self.hold@,
            launches: launch_views(self.launches@),
            arena_signature: self.arena_signature,
            staging: self.staging@,
        }
    }
}

/// The captured graphs, and the capture that is open.
pub struct GraphStore {
    pub graphs: HashMap<u64, CapturedGraph>,
    pub next_graph_id: u64,
    /// Every buffer that a launch of the open capture owes a hold.
    pub capture_hold: Vec<Binding>,
    /// Every launch of the open capture, in order.
    pub capture_launches: Vec<CapturedLaunch>,
    /// Where in the arena's window the capture began.
    pub capture_arena_mark: usize,
    /// The signature of the capture that was closed last. Every graph that may be replayed
    /// agrees with it.
    pub last_arena_signature: Option<u64>,
}

/// What the graphs are, for contracts.
#[verifier::ext_equal]
pub struct StoreView {
    pub graphs: Map<u64, GraphView>,
    pub next_graph_id: u64,
    pub capture_hold: Seq<Binding>,
    pub capture_launches: Seq<LaunchView>,
    pub capture_arena_mark: usize,
    pub last_arena_signature: Option<u64>,
}

impl View for GraphStore {
    type V = StoreView;

    open spec fn view(&self) -> StoreView {
        StoreView {
            graphs: Map::new(
                |id: u64| self.graphs@.contains_key(id),
                |id: u64| self.graphs@[id]@,
            ),
            next_graph_id: self.next_graph_id,
            capture_hold: self.capture_hold@,
            capture_launches: launch_views(self.capture_launches@),
            capture_arena_mark: self.capture_arena_mark,
            last_arena_signature: self.last_arena_signature,
        }
    }
}

/// Why a request about a graph is refused.
#[derive(Clone, Copy, Debug, PartialEq, Eq)]
pub enum GraphError {
    /// There is no captured graph with this id.
    NoGraph { id: u64 },
    /// The graph recorded fewer launches.
    NoLaunch { recorded: usize },
    /// The graph recorded another sequence of arena requests than the most recent capture.
    OtherRegion { built: u64, last: u64 },
    /// A shape or stride moved, and there is no pinned buffer to write it into.
    NoStaging,
    /// The graph owns no pinned buffer of this number.
    NoBuffer { slot: usize },
    /// The pinned buffer has another length than what is offered.
    StagedLength { staged: usize, words: usize },
    /// The launch passes its scalars in device memory, which no rewrite can move.
    NotByValue,
    /// The packed blob has another length than what is offered.
    InfoLength { captured: usize, offered: usize },
    /// The launch bound fewer buffers.
    NoBinding { bound: usize, index: usize },
}

/// What is rewritten of a launch.
pub struct GraphLaunchPatch {
    pub grid: Option<(u32, u32, u32)>,
    pub info: Option<Vec<u64>>,
    pub ptrs: Vec<(usize, u64)>,
}

/// Pointers after some were replaced, one after another.
pub open spec fn replaced(ptrs: Seq<u64>, changes: Seq<(usize, u64)>) -> Seq<u64>
    decreases changes.len(),
{
    if changes.len() == 0 {
        ptrs
    } else {
        replaced(ptrs, changes.drop_last()).update(changes.last().0 as int, changes.last().1)
    }
}

/// Whether a patch moves the dynamic half of a launch.
pub open spec fn moves_dynamic(launch: LaunchView, info: Seq<u64>) -> bool {
    let off = launch.dyn_offset as int;
    off < info.len() && (off > launch.info.len() || info.skip(off) != launch.info.skip(off))
}

/// Why the dynamic half of a launch cannot be rewritten, if it cannot.
pub open spec fn staging_refusal(graph: GraphView, launch: LaunchView, info: Seq<u64>) -> Option<
    GraphError,
> {
    let off = launch.dyn_offset as int;
    if !moves_dynamic(launch, info) {
        None
    } else if off > launch.info.len() {
        Some(
            GraphError::InfoLength {
                captured: launch.info.len() as usize,
                offered: info.len() as usize,
            },
        )
    } else {
        match launch.staging {
            None => Some(GraphError::NoStaging),
            Some(slot) => if slot >= graph.staging.len() {
                Some(GraphError::NoBuffer { slot })
            } else if 8 * (info.len() - off) != graph.staging[slot as int] {
                Some(
                    GraphError::StagedLength {
                        staged: graph.staging[slot as int],
                        words: (info.len() - off) as usize,
                    },
                )
            } else {
                None
            },
        }
    }
}

/// Why the packed blob of a launch cannot be rewritten, if it cannot.
pub open spec fn info_refusal(graph: GraphView, launch: LaunchView, info: Option<Vec<u64>>) -> Option<
    GraphError,
> {
    match info {
        None => None,
        Some(info) => if staging_refusal(graph, launch, info@) is Some {
            staging_refusal(graph, launch, info@)
        } else if !launch.info_is_grid_constant {
            Some(GraphError::NotByValue)
        } else if info@.len() != launch.info.len() {
            Some(
                GraphError::InfoLength {
                    captured: launch.info.len() as usize,
                    offered: info@.len() as usize,
                },
            )
        } else {
            None
        },
    }
}

/// Whether a pointer of a patch names no binding of a launch.
pub open spec fn dangles(launch: LaunchView, changes: Seq<(usize, u64)>, i: int) -> bool {
    changes[i].0 >= launch.ptrs.len()
}

/// The first pointer of a patch that names no binding of a launch.
pub open spec fn ptr_refusal(launch: LaunchView, changes: Seq<(usize, u64)>) -> Option<GraphError> {
    match first_where(changes.len(), |i: int| dangles(launch, changes, i)) {
        Some(i) => Some(
            GraphError::NoBinding { bound: launch.ptrs.len() as usize, index: changes[i].0 },
        ),
        None => None,
    }
}

/// Why a launch cannot be rewritten, if it cannot.
pub open spec fn patch_refusal(
    graphs: Map<u64, GraphView>,
    id: u64,
    idx: int,
    patch: GraphLaunchPatch,
) -> Option<GraphError> {
    if !graphs.contains_key(id) {
        Some(GraphError::NoGraph { id })
    } else if idx >= graphs[id].launches.len() {
        Some(GraphError::NoLaunch { recorded: graphs[id].launches.len() as usize })
    } else {
        let launch = graphs[id].launches[idx];
        if info_refusal(graphs[id], launch, patch.info) is Some {
            info_refusal(graphs[id], launch, patch.info)
        } else {
            ptr_refusal(launch, patch.ptrs@)
        }
    }
}

/// A launch after it was rewritten.
pub open spec fn patched(launch: LaunchView, patch: GraphLaunchPatch) -> LaunchView {
    LaunchView {
        grid: match patch.grid {
            Some(grid) => grid,
            None => launch.grid,
        },
        info: match patch.info {
            Some(info) => info@,
            None => launch.info,
        },
        ptrs: replaced(launch.ptrs, patch.ptrs@),
        ..launch
    }
}

/// A graph after one of its launches was rewritten.
pub open spec fn patched_graph(graph: GraphView, idx: int, patch: GraphLaunchPatch) -> GraphView {
    GraphView {
        launches: graph.launches.update(idx, patched(graph.launches[idx], patch)),
        ..graph
    }
}

/// Bytes that are written into a pinned buffer of a graph.
pub struct StageWrite {
    pub slot: usize,
    pub bytes: Vec<u8>,
}

/// What a node is rewritten to.
pub struct NodeParams {
    pub instance: u64,
    pub node: u64,
    pub func: u64,
    pub grid: (u32, u32, u32),
    pub block: (u32, u32, u32),
    pub shared: u32,
    /// The arguments: tensor maps, then pointers, then the packed blob if it rides by value.
    pub tensor_maps: Vec<TensorMapBits>,
    pub ptrs: Vec<u64>,
    pub info: Option<Vec<u64>>,
}

/// What has to be done to rewrite a launch: first the pinned buffer, then the node.
pub struct PatchAction {
    pub stage: Option<StageWrite>,
    pub params: NodeParams,
}

/// What several rewrites come to.
pub struct Patched {
    /// What has to be done, in order.
    pub actions: Vec<PatchAction>,
    /// Why the next one is refused.
    pub refusal: Option<GraphError>,
}

/// Whether this is what has to be done.
pub open spec fn is_action(
    action: PatchAction,
    graph: GraphView,
    launch: LaunchView,
    patch: GraphLaunchPatch,
) -> bool {
    let after = patched(launch, patch);
    let params = action.params;
    &&& match action.stage {
        Some(write) => {
            &&& patch.info matches Some(info) && moves_dynamic(launch, info@)
            &&& launch.staging == Some(write.slot)
            &&& bytes_of(write.bytes@, (patch.info->0)@.skip(launch.dyn_offset as int))
        },
        None => patch.info matches Some(info) ==> !moves_dynamic(launch, info@),
    }
    &&& params.instance == graph.instance
    &&& params.node == after.node
    &&& params.func == after.func
    &&& params.grid == after.grid
    &&& params.block == after.block
    &&& params.shared == after.shared
    &&& params.tensor_maps@ == after.tensor_maps
    &&& params.ptrs@ == after.ptrs
    &&& match params.info {
        Some(info) => after.info_is_grid_constant && after.info.len() > 0 && info@ == after.info,
        None => !(after.info_is_grid_constant && after.info.len() > 0),
    }
}

/// What is known of a recorded launch.
pub struct GraphLaunchParams {
    pub grid: (u32, u32, u32),
    pub block: (u32, u32, u32),
    pub info: Vec<u64>,
    pub info_is_grid_constant: bool,
    pub ptrs: Vec<u64>,
    pub dyn_offset: usize,
    pub has_staging: bool,
    pub name: String,
}

/// Whether words are the same from `off` on.
fn same_tail(a: &Vec<u64>, b: &Vec<u64>, off: usize) -> (r: bool)
    requires
        off <= a.len(),
        off <= b.len(),
    ensures
        r == (a@.skip(off as int) == b@.skip(off as int)),
{
    if a.len() != b.len() {
        assert(a@.skip(off as int).len() != b@.skip(off as int).len());
        return false;
    }
    let mut i: usize = off;
    while i < a.len()
        invariant
            off <= i <= a.len() == b.len(),
            forall|k: int| off <= k < i ==> (#[trigger] a@[k]) == b@[k],
        decreases a.len() - i,
    {
        if a[i] != b[i] {
            assert(a@.skip(off as int)[i - off] != b@.skip(off as int)[i - off]);
            return false;
        }
        i += 1;
    }
    assert(a@.skip(off as int) =~= b@.skip(off as int));
    true
}

/// The words from `off` on.
fn tail_of(a: &Vec<u64>, off: usize) -> (r: Vec<u64>)
    requires
        off <= a.len(),
    ensures
        r@ == a@.skip(off as int),
{
    let mut r: Vec<u64> = Vec::new();
    let mut i: usize = off;
    while i < a.len()
        invariant
            off <= i <= a.len(),
            r@ =~= a@.subrange(off as int, i as int),
        decreases a.len() - i,
    {
        r.push(a[i]);
        i += 1;
    }
    assert(r@ =~= a@.skip(off as int));
    r
}

/// A copy of words.
fn copy_words(a: &Vec<u64>) -> (r: Vec<u64>)
    ensures
        r@ == a@,
{
    let r: Vec<u64> = tail_of(a, 0);
    assert(a@.skip(0) =~= a@);
    r
}

/// A copy of tensor maps.
fn copy_maps(a: &Vec<TensorMapBits>) -> (r: Vec<TensorMapBits>)
    ensures
        r@ == a@,
{
    let mut r: Vec<TensorMapBits> = Vec::new();
    let mut i: usize = 0;
    while i < a.len()
        invariant
            i <= a.len(),
            r@ =~= a@.subrange(0, i as int),
        decreases a.len() - i,
    {
        r.push(a[i]);
        i += 1;
    }
    assert(r@ =~= a@);
    r
}

/// Replacing pointers leaves as many.
proof fn lemma_replaced_len(ptrs: Seq<u64>, changes: Seq<(usize, u64)>)
    requires
        forall|i: int| 0 <= i < changes.len() ==> (#[trigger] changes[i]).0 < ptrs.len(),
    ensures
        replaced(ptrs, changes).len() == ptrs.len(),
    decreases changes.len(),
{
    if changes.len() > 0 {
        lemma_replaced_len(ptrs, changes.drop_last());
    }
}

/// A pointer after replacements is what the last one that names it says, or what it was.
pub proof fn lemma_replaced_by_the_last(ptrs: Seq<u64>, changes: Seq<(usize, u64)>, k: int)
    requires
        0 <= k < ptrs.len(),
        forall|i: int| 0 <= i < changes.len() ==> (#[trigger] changes[i]).0 < ptrs.len(),
    ensures
        replaced(ptrs, changes).len() == ptrs.len(),
        ({
            let now = replaced(ptrs, changes);
            ||| now[k] == ptrs[k] && forall|i: int|
                0 <= i < changes.len() ==> (#[trigger] changes[i]).0 != k
            ||| exists|i: int|
                0 <= i < changes.len() && (#[trigger] changes[i]).0 == k && changes[i].1 == now[k]
                    && (forall|j: int| i < j < changes.len() ==> (#[trigger] changes[j]).0 != k)
        }),
    decreases changes.len(),
{
    lemma_replaced_len(ptrs, changes);
    if changes.len() > 0 {
        let rest = changes.drop_last();
        let last = changes.len() - 1;
        lemma_replaced_by_the_last(ptrs, rest, k);
        lemma_replaced_len(ptrs, rest);
        let now = replaced(ptrs, rest);
        if changes[last].0 == k {
            assert(replaced(ptrs, changes)[k] == changes[last].1);
        } else if now[k] == ptrs[k] && (forall|i: int|
            0 <= i < rest.len() ==> (#[trigger] rest[i]).0 != k) {
            assert forall|i: int| 0 <= i < changes.len() implies (#[trigger] changes[i]).0 != k by {
                if i < last {
                    assert(rest[i].0 != k);
                }
            }
        } else {
            let i = choose|i: int|
                0 <= i < rest.len() && (#[trigger] rest[i]).0 == k && rest[i].1 == now[k] && (
                forall|j: int| i < j < rest.len() ==> (#[trigger] rest[j]).0 != k);
            assert(changes[i] == rest[i]);
            assert forall|j: int| i < j < changes.len() implies (#[trigger] changes[j]).0 != k by {
                if j < last {
                    assert(rest[j].0 != k);
                }
            }
        }
    }
}

impl CapturedLaunch {
    /// Rewrites the launch.
    fn rewrite(&mut self, patch: GraphLaunchPatch)
        requires
            forall|i: int| 0 <= i < patch.ptrs@.len() ==> !(#[trigger] dangles(old(self)@, patch.ptrs@, i)),
        ensures
            final(self)@ == patched(old(self)@, patch),
    {
        let ghost before = self@;
        if let Some(grid) = patch.grid {
            self.grid = grid;
        }
        if let Some(info) = patch.info {
            self.info = info;
        }
        let mut i: usize = 0;
        assert(patch.ptrs@.take(0) =~= Seq::empty());
        while i < patch.ptrs.len()
            invariant
                i <= patch.ptrs.len(),
                self@ == (LaunchView {
                    ptrs: replaced(before.ptrs, patch.ptrs@.take(i as int)),
                    ..patched(before, patch)
                }),
                forall|i: int| 0 <= i < patch.ptrs@.len() ==> !(#[trigger] dangles(before, patch.ptrs@, i)),
            decreases patch.ptrs.len() - i,
        {
            let (index, ptr): (usize, u64) = patch.ptrs[i];
            proof {
                assert forall|k: int| 0 <= k <= i implies (#[trigger] patch.ptrs@[k]).0
                    < before.ptrs.len() by {
                    assert(!dangles(before, patch.ptrs@, k));
                }
                lemma_replaced_len(before.ptrs, patch.ptrs@.take(i as int));
                assert(patch.ptrs@.take(i + 1).drop_last() =~= patch.ptrs@.take(i as int));
            }
            self.ptrs.set(index, ptr);
            i += 1;
        }
        assert(patch.ptrs@.take(i as int) =~= patch.ptrs@);
    }

    /// What the node of the launch is rewritten to.
    fn params(&self, instance: u64) -> (r: NodeParams)
        ensures
            r.instance == instance,
            r.node == self@.node,
            r.func == self@.func,
            r.grid == self@.grid,
            r.block == self@.block,
            r.shared == self@.shared,
            r.tensor_maps@ == self@.tensor_maps,
            r.ptrs@ == self@.ptrs,
            match r.info {
                Some(info) => self@.info_is_grid_constant && self@.info.len() > 0 && info@
                    == self@.info,
                None => !(self@.info_is_grid_constant && self@.info.len() > 0),
            },
    {
        let info: Option<Vec<u64>> = if self.info_is_grid_constant && self.info.len() > 0 {
            Some(copy_words(&self.info))
        } else {
            None
        };
        NodeParams {
            instance,
            node: self.node,
            func: self.func,
            grid: self.grid,
            block: self.block,
            shared: self.shared,
            tensor_maps: copy_maps(&self.tensor_maps),
            ptrs: copy_words(&self.ptrs),
            info,
        }
    }
}

impl CapturedGraph {
    /// What is written into a pinned buffer for the dynamic half of a launch.
    fn staged(&self, launch: &CapturedLaunch, info: &Vec<u64>) -> (r: Result<
        Option<StageWrite>,
        GraphError,
    >)
        ensures
            match r {
                Ok(stage) => {
                    &&& staging_refusal(self@, launch@, info@) is None
                    &&& stage is Some <==> moves_dynamic(launch@, info@)
                    &&& stage matches Some(write) ==> {
                        &&& launch.staging == Some(write.slot)
                        &&& bytes_of(write.bytes@, info@.skip(launch.dyn_offset as int))
                    }
                },
                Err(error) => staging_refusal(self@, launch@, info@) == Some(error),
            },
    {
        let off: usize = launch.dyn_offset;
        if off >= info.len() {
            return Ok(None);
        }
        if off > launch.info.len() {
            return Err(
                GraphError::InfoLength { captured: launch.info.len(), offered: info.len() },
            );
        }
        if same_tail(info, &launch.info, off) {
            return Ok(None);
        }
        let slot: usize = match launch.staging {
            Some(slot) => slot,
            None => {
                return Err(GraphError::NoStaging);
            },
        };
        if slot >= self.staging.len() {
            return Err(GraphError::NoBuffer { slot });
        }
        let words: Vec<u64> = tail_of(info, off);
        let bytes: Vec<u8> = word_bytes(words.as_slice());
        if bytes.len() != self.staging[slot] {
            return Err(
                GraphError::StagedLength { staged: self.staging[slot], words: words.len() },
            );
        }
        Ok(Some(StageWrite { slot, bytes }))
    }

    /// Whether a launch can be rewritten, and what is written into a pinned buffer for it.
    fn checked(&self, idx: usize, patch: &GraphLaunchPatch) -> (r: Result<
        Option<StageWrite>,
        GraphError,
    >)
        requires
            idx < self.launches@.len(),
        ensures
            ({
                let launch = self.launches@[idx as int]@;
                match r {
                    Ok(stage) => {
                        &&& info_refusal(self@, launch, patch.info) is None
                        &&& ptr_refusal(launch, patch.ptrs@) is None
                        &&& forall|i: int|
                            0 <= i < patch.ptrs@.len() ==> !(#[trigger] dangles(
                                launch,
                                patch.ptrs@,
                                i,
                            ))
                        &&& stage is Some <==> patch.info is Some && moves_dynamic(
                            launch,
                            (patch.info->0)@,
                        )
                        &&& stage matches Some(write) ==> {
                            &&& launch.staging == Some(write.slot)
                            &&& bytes_of(
                                write.bytes@,
                                (patch.info->0)@.skip(launch.dyn_offset as int),
                            )
                        }
                    },
                    Err(error) => {
                        ||| info_refusal(self@, launch, patch.info) == Some(error)
                        ||| info_refusal(self@, launch, patch.info) is None && ptr_refusal(
                            launch,
                            patch.ptrs@,
                        ) == Some(error)
                    },
                }
            }),
    {
        let launch: &CapturedLaunch = &self.launches[idx];
        let stage: Option<StageWrite> = match &patch.info {
            Some(info) => {
                let stage = match self.staged(launch, info) {
                    Ok(stage) => stage,
                    Err(error) => {
                        return Err(error);
                    },
                };
                if !launch.info_is_grid_constant {
                    return Err(GraphError::NotByValue);
                }
                if info.len() != launch.info.len() {
                    return Err(
                        GraphError::InfoLength { captured: launch.info.len(), offered: info.len() },
                    );
                }
                stage
            },
            None => None,
        };
        let ghost p = |i: int| dangles(launch@, patch.ptrs@, i);
        let mut i: usize = 0;
        while i < patch.ptrs.len()
            invariant
                i <= patch.ptrs.len(),
                p == (|i: int| dangles(launch@, patch.ptrs@, i)),
                forall|j: int| 0 <= j < i ==> !(#[trigger] p(j)),
                launch == &self.launches@[idx as int],
                info_refusal(self@, launch@, patch.info) is None,
            decreases patch.ptrs.len() - i,
        {
            if patch.ptrs[i].0 >= launch.ptrs.len() {
                proof {
                    assert(p(i as int));
                    lemma_first_is(patch.ptrs@.len(), p, i as int);
                }
                return Err(
                    GraphError::NoBinding { bound: launch.ptrs.len(), index: patch.ptrs[i].0 },
                );
            }
            i += 1;
        }
        proof {
            lemma_first_none(patch.ptrs@.len(), p);
            assert forall|i: int| 0 <= i < patch.ptrs@.len() implies !(#[trigger] dangles(
                launch@,
                patch.ptrs@,
                i,
            )) by {
                assert(!p(i));
            }
        }
        Ok(stage)
    }
}

impl GraphStore {
    /// No graphs, and no capture.
    pub fn new() -> (r: Self)
        ensures
            r@ == no_graphs(),
    {
        let r = GraphStore {
            graphs: HashMap::new(),
            next_graph_id: 1,
            capture_hold: Vec::new(),
            capture_launches: Vec::new(),
            capture_arena_mark: 0,
            last_arena_signature: None,
        };
        assert(r@.graphs =~= Map::<u64, GraphView>::empty());
        assert(r@.capture_launches =~= Seq::<LaunchView>::empty());
        r
    }

    /// Begins a capture, at a place of the arena's window.
    pub fn capture_begin(&mut self, mark: usize)
        ensures
            final(self)@ == begun(old(self)@, mark),
    {
        let ghost before = self@;
        self.capture_arena_mark = mark;
        self.capture_hold.clear();
        self.capture_launches.clear();
        assert(self@.capture_launches =~= Seq::<LaunchView>::empty());
        assert(self@ =~= begun(before, mark));
    }

    /// Adds what a launch owes a hold, and the launch if it was captured.
    pub fn record(&mut self, hold: Vec<Binding>, launch: Option<CapturedLaunch>)
        ensures
            final(self)@ == recorded(
                old(self)@,
                hold@,
                match launch {
                    Some(launch) => Some(launch@),
                    None => None,
                },
            ),
    {
        let ghost before = self@;
        let mut hold: Vec<Binding> = hold;
        self.capture_hold.append(&mut hold);
        match launch {
            Some(launch) => {
                self.capture_launches.push(launch);
                assert(self@.capture_launches =~= before.capture_launches.push(launch@));
            },
            None => {},
        }
    }

    /// Ends a capture: what it recorded becomes a graph, under a new id, and its signature is
    /// the one that replays have to agree with.
    pub fn capture_end(
        &mut self,
        graph: u64,
        instance: u64,
        arena_signature: u64,
        staging: Vec<usize>,
    ) -> (id: u64)
        requires
            old(self)@.next_graph_id < u64::MAX,
        ensures
            id == old(self)@.next_graph_id,
            final(self)@ == ended(old(self)@, graph, instance, arena_signature, staging@),
    {
        let ghost before = self@;
        let id: u64 = self.next_graph_id;
        self.next_graph_id = id + 1;
        let mut hold: Vec<Binding> = Vec::new();
        std::mem::swap(&mut hold, &mut self.capture_hold);
        let mut launches: Vec<CapturedLaunch> = Vec::new();
        std::mem::swap(&mut launches, &mut self.capture_launches);
        self.last_arena_signature = Some(arena_signature);
        let captured = CapturedGraph { graph, instance, hold, launches, arena_signature, staging };
        let ghost view = captured@;
        self.graphs.insert(id, captured);
        proof {
            assert(self@.graphs =~= before.graphs.insert(id, view));
            assert(self@.capture_launches =~= Seq::<LaunchView>::empty());
        }
        id
    }

    /// What is launched to replay a graph. With the arena in use, a graph that recorded other
    /// arena requests than the most recent capture is refused: its scratch is the other's
    /// live memory.
    pub fn replay(&self, id: u64, arena_enabled: bool) -> (r: Result<u64, GraphError>)
        ensures
            r == replayed(self@, id, arena_enabled),
    {
        match self.graphs.get(&id) {
            Some(graph) => {
                if arena_enabled {
                    match self.last_arena_signature {
                        Some(last) => {
                            if graph.arena_signature != last {
                                return Err(
                                    GraphError::OtherRegion { built: graph.arena_signature, last },
                                );
                            }
                        },
                        None => {},
                    }
                }
                Ok(graph.instance)
            },
            None => Err(GraphError::NoGraph { id }),
        }
    }

    /// How many launches the open capture made.
    pub fn capture_launch_count(&self) -> (r: usize)
        ensures
            r == self@.capture_launches.len(),
    {
        self.capture_launches.len()
    }

    /// The address of a captured graph.
    pub fn captured(&self, id: u64) -> (r: Result<u64, GraphError>)
        ensures
            r == (if self@.graphs.contains_key(id) {
                Ok::<u64, GraphError>(self@.graphs[id].graph)
            } else {
                Err(GraphError::NoGraph { id })
            }),
    {
        match self.graphs.get(&id) {
            Some(graph) => Ok(graph.graph),
            None => Err(GraphError::NoGraph { id }),
        }
    }

    /// How many launches a graph recorded.
    pub fn launch_count(&self, id: u64) -> (r: Result<usize, GraphError>)
        ensures
            r == (if self@.graphs.contains_key(id) {
                Ok::<usize, GraphError>(self@.graphs[id].launches.len() as usize)
            } else {
                Err(GraphError::NoGraph { id })
            }),
    {
        match self.graphs.get(&id) {
            Some(graph) => Ok(graph.launches.len()),
            None => Err(GraphError::NoGraph { id }),
        }
    }

    /// What is known of a recorded launch.
    pub fn launch_params(&self, id: u64, idx: usize) -> (r: Result<GraphLaunchParams, GraphError>)
        ensures
            match r {
                Ok(params) => {
                    &&& self@.graphs.contains_key(id)
                    &&& idx < self@.graphs[id].launches.len()
                    &&& ({
                        let launch = self@.graphs[id].launches[idx as int];
                        &&& params.grid == launch.grid
                        &&& params.block == launch.block
                        &&& params.info@ == launch.info
                        &&& params.info_is_grid_constant == launch.info_is_grid_constant
                        &&& params.ptrs@ == launch.ptrs
                        &&& params.dyn_offset == launch.dyn_offset
                        &&& params.has_staging == launch.staging is Some
                        &&& params.name@ == launch.name
                    })
                },
                Err(error) => if self@.graphs.contains_key(id) {
                    &&& idx >= self@.graphs[id].launches.len()
                    &&& error == (GraphError::NoLaunch {
                        recorded: self@.graphs[id].launches.len() as usize,
                    })
                } else {
                    error == (GraphError::NoGraph { id })
                },
            },
    {
        match self.graphs.get(&id) {
            Some(graph) => {
                if idx >= graph.launches.len() {
                    return Err(GraphError::NoLaunch { recorded: graph.launches.len() });
                }
                let launch: &CapturedLaunch = &graph.launches[idx];
                assert(self@.graphs[id].launches[idx as int] == launch@);
                Ok(
                    GraphLaunchParams {
                        grid: launch.grid,
                        block: launch.block,
                        info: copy_words(&launch.info),
                        info_is_grid_constant: launch.info_is_grid_constant,
                        ptrs: copy_words(&launch.ptrs),
                        dyn_offset: launch.dyn_offset,
                        has_staging: launch.staging.is_some(),
                        name: launch.name.clone(),
                    },
                )
            },
            None => Err(GraphError::NoGraph { id }),
        }
    }

    /// Rewrites a recorded launch, and says what has to be done for it. A patch that is
    /// refused changes nothing.
    pub fn patch_launch(&mut self, id: u64, idx: usize, patch: GraphLaunchPatch) -> (r: Result<
        PatchAction,
        GraphError,
    >)
        ensures
            patches(old(self)@, id, idx as int, patch, r, final(self)@),
    {
        let ghost before = self@;
        let ghost map = self.graphs@;
        let ghost told = patch;
        let stage: Option<StageWrite> = match self.graphs.get(&id) {
            Some(graph) => {
                if idx >= graph.launches.len() {
                    return Err(GraphError::NoLaunch { recorded: graph.launches.len() });
                }
                assert(before.graphs[id].launches[idx as int] == graph.launches@[idx as int]@);
                match graph.checked(idx, &patch) {
                    Ok(stage) => stage,
                    Err(error) => {
                        return Err(error);
                    },
                }
            },
            None => {
                return Err(GraphError::NoGraph { id });
            },
        };
        let mut graph: CapturedGraph = match self.graphs.remove(&id) {
            Some(graph) => graph,
            None => {
                return Err(GraphError::NoGraph { id });
            },
        };
        let ghost prior = graph@;
        let ghost launches = graph.launches@;
        assert(prior == before.graphs[id]);
        let mut launch: CapturedLaunch = graph.launches.remove(idx);
        let ghost unpatched = launch@;
        assert(unpatched == prior.launches[idx as int]);
        launch.rewrite(patch);
        let params: NodeParams = launch.params(graph.instance);
        let action = PatchAction { stage, params };
        let ghost rewritten = launch@;
        graph.launches.insert(idx, launch);
        proof {
            assert(launch_views(graph.launches@) =~= launch_views(launches).update(
                idx as int,
                rewritten,
            ));
            assert(graph@ =~= patched_graph(prior, idx as int, told));
        }
        let ghost view = graph@;
        self.graphs.insert(id, graph);
        proof {
            assert(self@.graphs =~= before.graphs.insert(id, view));
        }
        Ok(action)
    }

    /// Rewrites recorded launches, one after another, up to the first that is refused.
    pub fn patch_launches(&mut self, id: u64, patches: Vec<(usize, GraphLaunchPatch)>) -> (r: Patched)
        ensures
            exists|states: Seq<StoreView>|
                #[trigger] patches_all(
                    states,
                    old(self)@,
                    id,
                    patches@,
                    r.actions@,
                    r.refusal,
                    final(self)@,
                ),
    {
        let ghost told = patches@;
        let ghost mut states: Seq<StoreView> = seq![self@];
        let mut left: Vec<(usize, GraphLaunchPatch)> = patches;
        let mut actions: Vec<PatchAction> = Vec::new();
        while left.len() > 0
            invariant
                told == patches@,
                left@ == told.skip(actions@.len() as int),
                actions@.len() <= told.len(),
                states.len() == actions@.len() + 1,
                states[0] == old(self)@,
                states.last() == self@,
                forall|i: int| 0 <= i < actions@.len() ==> #[trigger] patched_at(states, id, told, actions@, i),
            decreases left.len(),
        {
            let (idx, patch) = left.remove(0);
            let ghost n = actions@.len() as int;
            assert(patch == told[n].1 && idx == told[n].0);
            assert(left@ =~= told.skip(n + 1));
            match self.patch_launch(id, idx, patch) {
                Ok(action) => {
                    let ghost done = actions@;
                    let ghost was = states;
                    actions.push(action);
                    proof {
                        states = states.push(self@);
                        assert forall|i: int| 0 <= i < actions@.len() implies #[trigger] patched_at(
                            states,
                            id,
                            told,
                            actions@,
                            i,
                        ) by {
                            if i < done.len() {
                                assert(patched_at(was, id, told, done, i));
                            }
                        }
                    }
                },
                Err(error) => {
                    let r = Patched { actions, refusal: Some(error) };
                    assert(patches_all(
                        states,
                        old(self)@,
                        id,
                        patches@,
                        r.actions@,
                        r.refusal,
                        self@,
                    ));
                    return r;
                },
            }
        }
        let r = Patched { actions, refusal: None };
        assert(patches_all(states, old(self)@, id, patches@, r.actions@, r.refusal, self@));
        r
    }

    /// Forgets a graph, and says what has to be destroyed.
    pub fn destroy(&mut self, id: u64) -> (r: Option<(u64, u64)>)
        ensures
            final(self)@ == destroyed(old(self)@, id),
            r == (if old(self)@.graphs.contains_key(id) {
                Some((old(self)@.graphs[id].instance, old(self)@.graphs[id].graph))
            } else {
                None
            }),
    {
        let ghost before = self@;
        let removed = self.graphs.remove(&id);
        assert(self@.graphs =~= before.graphs.remove(id));
        match removed {
            Some(graph) => Some((graph.instance, graph.graph)),
            None => None,
        }
    }
}

/// No graphs, and no capture.
pub open spec fn no_graphs() -> StoreView {
    StoreView {
        graphs: Map::empty(),
        next_graph_id: 1,
        capture_hold: Seq::empty(),
        capture_launches: Seq::empty(),
        capture_arena_mark: 0,
        last_arena_signature: None,
    }
}

/// Graphs once a capture began.
pub open spec fn begun(store: StoreView, mark: usize) -> StoreView {
    StoreView {
        capture_hold: Seq::empty(),
        capture_launches: Seq::empty(),
        capture_arena_mark: mark,
        ..store
    }
}

/// Graphs once a launch was recorded.
pub open spec fn recorded(
    store: StoreView,
    hold: Seq<Binding>,
    launch: Option<LaunchView>,
) -> StoreView {
    StoreView {
        capture_hold: store.capture_hold + hold,
        capture_launches: match launch {
            Some(launch) => store.capture_launches.push(launch),
            None => store.capture_launches,
        },
        ..store
    }
}

/// Graphs once the open capture ended.
pub open spec fn ended(
    store: StoreView,
    graph: u64,
    instance: u64,
    arena_signature: u64,
    staging: Seq<usize>,
) -> StoreView {
    StoreView {
        graphs: store.graphs.insert(
            store.next_graph_id,
            GraphView {
                graph,
                instance,
                hold: store.capture_hold,
                launches: store.capture_launches,
                arena_signature,
                staging,
            },
        ),
        next_graph_id: (store.next_graph_id + 1) as u64,
        capture_hold: Seq::empty(),
        capture_launches: Seq::empty(),
        last_arena_signature: Some(arena_signature),
        ..store
    }
}

/// Graphs without one.
pub open spec fn destroyed(store: StoreView, id: u64) -> StoreView {
    StoreView { graphs: store.graphs.remove(id), ..store }
}

/// Whether a rewrite comes to this.
pub open spec fn patches(
    before: StoreView,
    id: u64,
    idx: int,
    patch: GraphLaunchPatch,
    r: Result<PatchAction, GraphError>,
    after: StoreView,
) -> bool {
    match r {
        Ok(action) => {
            &&& patch_refusal(before.graphs, id, idx, patch) is None
            &&& is_action(action, before.graphs[id], before.graphs[id].launches[idx], patch)
            &&& after == StoreView {
                graphs: before.graphs.insert(
                    id,
                    patched_graph(before.graphs[id], idx, patch),
                ),
                ..before
            }
        },
        Err(error) => {
            &&& patch_refusal(before.graphs, id, idx, patch) == Some(error)
            &&& after == before
        },
    }
}

/// Whether one rewrite of several was done.
pub open spec fn patched_at(
    states: Seq<StoreView>,
    id: u64,
    changes: Seq<(usize, GraphLaunchPatch)>,
    actions: Seq<PatchAction>,
    i: int,
) -> bool {
    patches(states[i], id, changes[i].0 as int, changes[i].1, Ok(actions[i]), states[i + 1])
}

/// Whether rewrites come to these states and actions, and to this refusal: all were done, or
/// all before the first that is refused.
pub open spec fn patches_all(
    states: Seq<StoreView>,
    before: StoreView,
    id: u64,
    changes: Seq<(usize, GraphLaunchPatch)>,
    actions: Seq<PatchAction>,
    refusal: Option<GraphError>,
    after: StoreView,
) -> bool {
    let n = actions.len() as int;
    &&& states.len() == n + 1
    &&& states[0] == before
    &&& states[n] == after
    &&& n <= changes.len()
    &&& forall|i: int| 0 <= i < n ==> #[trigger] patched_at(states, id, changes, actions, i)
    &&& match refusal {
        Some(error) => n < changes.len() && patch_refusal(
            states[n].graphs,
            id,
            changes[n].0 as int,
            changes[n].1,
        ) == Some(error),
        None => n == changes.len(),
    }
}

/// What a replay comes to.
pub open spec fn replayed(store: StoreView, id: u64, arena_enabled: bool) -> Result<
    u64,
    GraphError,
> {
    if !store.graphs.contains_key(id) {
        Err(GraphError::NoGraph { id })
    } else if arena_enabled && store.last_arena_signature is Some
        && store.graphs[id].arena_signature != store.last_arena_signature->0 {
        Err(
            GraphError::OtherRegion {
                built: store.graphs[id].arena_signature,
                last: store.last_arena_signature->0,
            },
        )
    } else {
        Ok(store.graphs[id].instance)
    }
}

/// Whether every id that was given out is below the next one.
pub open spec fn numbered(store: StoreView) -> bool {
    forall|id: u64| #[trigger] store.graphs.contains_key(id) ==> id < store.next_graph_id
}

/// A new graph never takes the id of another one, also not of one that was destroyed: ids
/// only grow, from one operation to the next.
pub proof fn law_graph_ids_are_not_reused(
    store: StoreView,
    mark: usize,
    hold: Seq<Binding>,
    launch: Option<LaunchView>,
    graph: u64,
    instance: u64,
    signature: u64,
    staging: Seq<usize>,
    id: u64,
    idx: int,
    patch: GraphLaunchPatch,
    done: Result<PatchAction, GraphError>,
    after: StoreView,
)
    requires
        numbered(store),
        store.next_graph_id < u64::MAX,
        patches(store, id, idx, patch, done, after),
    ensures
        numbered(no_graphs()),
        !store.graphs.contains_key(store.next_graph_id),
        numbered(begun(store, mark)),
        numbered(recorded(store, hold, launch)),
        numbered(ended(store, graph, instance, signature, staging)),
        ended(store, graph, instance, signature, staging).next_graph_id > store.next_graph_id,
        numbered(destroyed(store, id)),
        destroyed(store, id).next_graph_id == store.next_graph_id,
        numbered(after),
        after.next_graph_id == store.next_graph_id,
{
}

/// What was captured last can be replayed, with the arena or without it.
pub proof fn law_last_capture_replays(
    store: StoreView,
    graph: u64,
    instance: u64,
    signature: u64,
    staging: Seq<usize>,
    arena_enabled: bool,
)
    ensures
        replayed(
            ended(store, graph, instance, signature, staging),
            store.next_graph_id,
            arena_enabled,
        ) == Ok::<u64, GraphError>(instance),
{
}

/// With the arena in use, an older graph can be replayed after a capture exactly if it has
/// the signature of that capture: else its scratch is memory that the newer one uses.
pub proof fn law_only_the_last_region_replays(
    store: StoreView,
    graph: u64,
    instance: u64,
    signature: u64,
    staging: Seq<usize>,
    id: u64,
)
    requires
        store.graphs.contains_key(id),
        id != store.next_graph_id,
    ensures
        replayed(ended(store, graph, instance, signature, staging), id, true) is Ok
            <==> store.graphs[id].arena_signature == signature,
        replayed(ended(store, graph, instance, signature, staging), id, false) == Ok::<
            u64,
            GraphError,
        >(store.graphs[id].instance),
{
}

/// A graph that was destroyed can neither be replayed nor rewritten.
pub proof fn law_destroyed_graph_is_gone(
    store: StoreView,
    id: u64,
    arena_enabled: bool,
    idx: int,
    patch: GraphLaunchPatch,
)
    ensures
        replayed(destroyed(store, id), id, arena_enabled) == Err::<u64, GraphError>(
            GraphError::NoGraph { id },
        ),
        patch_refusal(destroyed(store, id).graphs, id, idx, patch) == Some(
            GraphError::NoGraph { id },
        ),
{
}

/// Graphs once several launches were recorded.
pub open spec fn recorded_all(
    store: StoreView,
    records: Seq<(Seq<Binding>, Option<LaunchView>)>,
) -> StoreView
    decreases records.len(),
{
    if records.len() == 0 {
        store
    } else {
        recorded(
            recorded_all(store, records.drop_last()),
            records.last().0,
            records.last().1,
        )
    }
}

/// The buffers of several records.
pub open spec fn all_held(records: Seq<(Seq<Binding>, Option<LaunchView>)>) -> Seq<Binding>
    decreases records.len(),
{
    if records.len() == 0 {
        Seq::empty()
    } else {
        all_held(records.drop_last()) + records.last().0
    }
}

/// The launches of several records.
pub open spec fn all_launches(records: Seq<(Seq<Binding>, Option<LaunchView>)>) -> Seq<LaunchView>
    decreases records.len(),
{
    if records.len() == 0 {
        Seq::empty()
    } else {
        match records.last().1 {
            Some(launch) => all_launches(records.drop_last()).push(launch),
            None => all_launches(records.drop_last()),
        }
    }
}

/// Recording adds to the open capture and changes nothing else.
proof fn lemma_recorded_all(store: StoreView, records: Seq<(Seq<Binding>, Option<LaunchView>)>)
    ensures
        recorded_all(store, records) == (StoreView {
            capture_hold: store.capture_hold + all_held(records),
            capture_launches: store.capture_launches + all_launches(records),
            ..store
        }),
    decreases records.len(),
{
    if records.len() > 0 {
        lemma_recorded_all(store, records.drop_last());
    }
    assert(recorded_all(store, records) =~= StoreView {
        capture_hold: store.capture_hold + all_held(records),
        capture_launches: store.capture_launches + all_launches(records),
        ..store
    });
}

/// A graph holds every buffer and has every launch that was recorded from the beginning of
/// its capture to the end, in order, and nothing from before.
pub proof fn law_graph_is_what_was_captured(
    store: StoreView,
    mark: usize,
    records: Seq<(Seq<Binding>, Option<LaunchView>)>,
    graph: u64,
    instance: u64,
    signature: u64,
    staging: Seq<usize>,
)
    ensures
        ({
            let id = store.next_graph_id;
            let captured = ended(
                recorded_all(begun(store, mark), records),
                graph,
                instance,
                signature,
                staging,
            ).graphs;
            &&& captured == store.graphs.insert(id, captured[id])
            &&& captured[id].hold == all_held(records)
            &&& captured[id].launches == all_launches(records)
            &&& captured[id].staging == staging
            &&& captured[id].arena_signature == signature
        }),
{
    lemma_recorded_all(begun(store, mark), records);
    assert(Seq::<Binding>::empty() + all_held(records) =~= all_held(records));
    assert(Seq::<LaunchView>::empty() + all_launches(records) =~= all_launches(records));
}

/// A rewrite that is done changes the grid, the packed blob and the pointers of one launch
/// and nothing else: the node takes the same function, block, shared memory and number of
/// arguments that it was captured with.
pub proof fn law_patch_keeps_the_shape(
    before: StoreView,
    id: u64,
    idx: int,
    patch: GraphLaunchPatch,
    action: PatchAction,
    after: StoreView,
)
    requires
        0 <= idx,
        patches(before, id, idx, patch, Ok(action), after),
    ensures
        ({
            let was = before.graphs[id].launches[idx];
            let is = after.graphs[id].launches[idx];
            &&& is.node == was.node && is.func == was.func && is.block == was.block
            &&& is.shared == was.shared && is.tensor_maps == was.tensor_maps
            &&& is.ptrs.len() == was.ptrs.len() && is.info.len() == was.info.len()
            &&& is.info_is_grid_constant == was.info_is_grid_constant
            &&& is.dyn_offset == was.dyn_offset && is.staging == was.staging
            &&& is.name == was.name
        }),
        after.graphs[id].launches.len() == before.graphs[id].launches.len(),
        forall|k: int|
            #![trigger after.graphs[id].launches[k]]
            0 <= k < before.graphs[id].launches.len() && k != idx
                ==> after.graphs[id].launches[k] == before.graphs[id].launches[k],
        forall|other: u64|
            #![trigger after.graphs.contains_key(other)]
            #![trigger after.graphs[other]]
            other != id ==> after.graphs.contains_key(other) == before.graphs.contains_key(other)
                && after.graphs[other] == before.graphs[other],
        after.graphs[id].hold == before.graphs[id].hold,
{
    let was = before.graphs[id].launches[idx];
    let p = |i: int| dangles(was, patch.ptrs@, i);
    lemma_first_from(0, patch.ptrs@.len() as int, p);
    assert forall|i: int| 0 <= i < patch.ptrs@.len() implies (#[trigger] patch.ptrs@[i]).0
        < was.ptrs.len() by {
        assert(!p(i));
    }
    lemma_replaced_len(was.ptrs, patch.ptrs@);
}

/// A launch that was rewritten is already what the same patch makes of it: rewriting it again
/// is not refused, leaves the graphs as they are, and touches no pinned buffer.
pub proof fn law_patch_again_changes_nothing(
    before: StoreView,
    id: u64,
    idx: int,
    patch: GraphLaunchPatch,
    action: PatchAction,
    after: StoreView,
    again: Result<PatchAction, GraphError>,
    last: StoreView,
)
    requires
        0 <= idx,
        patches(before, id, idx, patch, Ok(action), after),
        patches(after, id, idx, patch, again, last),
    ensures
        again is Ok,
        last == after,
        again->Ok_0.stage is None,
{
    law_patch_keeps_the_shape(before, id, idx, patch, action, after);
    let was = before.graphs[id].launches[idx];
    let is = after.graphs[id].launches[idx];
    let p = |i: int| dangles(was, patch.ptrs@, i);
    let q = |i: int| dangles(is, patch.ptrs@, i);
    lemma_first_from(0, patch.ptrs@.len() as int, p);
    assert forall|i: int| 0 <= i < patch.ptrs@.len() implies (#[trigger] patch.ptrs@[i]).0
        < was.ptrs.len() by {
        assert(!p(i));
    }
    assert forall|i: int| 0 <= i < patch.ptrs@.len() implies !(#[trigger] q(i)) by {
        assert(!p(i));
    }
    lemma_first_none(patch.ptrs@.len(), q);
    lemma_replaced_twice(was.ptrs, patch.ptrs@);
    assert(patched(is, patch) =~= is);
    assert(patch_refusal(after.graphs, id, idx, patch) is None);
    let graph = after.graphs[id];
    assert(graph.launches.update(idx, is) =~= graph.launches);
    assert(patched_graph(graph, idx, patch) =~= graph);
    assert(last.graphs =~= after.graphs);
}

/// Where pointers were replaced, they stay as they are when they are replaced again.
proof fn lemma_replaced_twice(ptrs: Seq<u64>, changes: Seq<(usize, u64)>)
    requires
        forall|i: int| 0 <= i < changes.len() ==> (#[trigger] changes[i]).0 < ptrs.len(),
    ensures
        replaced(replaced(ptrs, changes), changes) == replaced(ptrs, changes),
{
    let once = replaced(ptrs, changes);
    let twice = replaced(once, changes);
    lemma_replaced_len(ptrs, changes);
    lemma_replaced_len(once, changes);
    assert forall|k: int| 0 <= k < once.len() implies twice[k] == once[k] by {
        lemma_replaced_at(ptrs, once, changes, k);
    }
    assert(twice =~= once);
}

/// A pointer after replacements does not depend on what it was, unless it was kept.
proof fn lemma_replaced_at(a: Seq<u64>, b: Seq<u64>, changes: Seq<(usize, u64)>, k: int)
    requires
        a.len() == b.len(),
        0 <= k < a.len(),
        forall|i: int| 0 <= i < changes.len() ==> (#[trigger] changes[i]).0 < a.len(),
    ensures
        replaced(b, changes)[k] == replaced(a, changes)[k] || (replaced(b, changes)[k] == b[k]
            && replaced(a, changes)[k] == a[k] && forall|i: int|
            0 <= i < changes.len() ==> (#[trigger] changes[i]).0 != k),
        (forall|i: int| 0 <= i < changes.len() ==> (#[trigger] changes[i]).0 != k) ==> replaced(
            b,
            changes,
        )[k] == b[k] && replaced(a, changes)[k] == a[k],
    decreases changes.len(),
{
    if changes.len() > 0 {
        lemma_replaced_at(a, b, changes.drop_last(), k);
        lemma_replaced_len(a, changes.drop_last());
        lemma_replaced_len(b, changes.drop_last());
        let rest = changes.drop_last();
        if changes.last().0 != k && (forall|i: int|
            0 <= i < rest.len() ==> (#[trigger] rest[i]).0 != k) {
            assert forall|i: int| 0 <= i < changes.len() implies (#[trigger] changes[i]).0 != k by {
                if i < rest.len() {
                    assert(rest[i].0 != k);
                }
            }
        }
        if forall|i: int| 0 <= i < changes.len() ==> (#[trigger] changes[i]).0 != k {
            assert forall|i: int| 0 <= i < rest.len() implies (#[trigger] rest[i]).0 != k by {
                assert(changes[i].0 != k);
            }
        }
    }
}

} // verus!
