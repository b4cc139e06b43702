//! What a launch uploads, binds in which order, holds and leaves behind.

use vstd::arithmetic::power2::pow2;
use vstd::prelude::*;

use crate::cuda::command::{binds, is_stream, CapturedNode, Command};
use crate::cuda::command_laws::{first_stream, no_stream};
use crate::cuda::gpu_storage::GpuResource;
use crate::cuda::graph::{CapturedLaunch, TensorMapBits};
use crate::cuda::graph_laws::{highest_first, lowest_first};
use crate::cuda::launch::{
    arena_says, captured_launch, holds, info_upload, owed, resolutions, staging_index, uploads_info,
    InfoUpload, LaunchBindings, LaunchOptions, LaunchRefusal, Prepared,
};
use crate::cuda::stream::{Keeper, Stream};
use crate::cuda::words::{big_endian, bytes_of, little_endian};
use crate::first::{lemma_first_from, lemma_first_is};
use crate::handle::Binding;
use crate::memory::call_laws::held_in;
use crate::memory::error::IoError;
use crate::memory::storage::ComputeStorage;

verus! {

/// Whether bytes are those of the words from `start` on, eight for each and one behind the
/// other, in one order of bytes or the other throughout.
pub open spec fn bytes_from(bytes: Seq<u8>, words: Seq<u64>, start: int) -> bool {
    &&& bytes.len() == 8 * (words.len() - start)
    &&& (forall|j: int|
        start <= j < words.len() ==> lowest_first(bytes, 8 * (j - start), #[trigger] words[j])) || (
    forall|j: int|
        start <= j < words.len() ==> highest_first(bytes, 8 * (j - start), #[trigger] words[j]))
}

proof fn lemma_bytes_from(bytes: Seq<u8>, words: Seq<u64>, start: int)
    requires
        0 <= start <= words.len(),
        bytes_of(bytes, words.skip(start)),
    ensures
        bytes_from(bytes, words, start),
{
    let tail = words.skip(start);
    if bytes == little_endian(tail) {
        assert forall|j: int| start <= j < words.len() implies lowest_first(
            bytes,
            8 * (j - start),
            #[trigger] words[j],
        ) by {
            assert forall|k: int| #![trigger bytes[8 * (j - start) + k]] 0 <= k < 8 implies bytes[8 * (
            j - start) + k] == (words[j] as int / pow2((8 * k) as nat) as int) % 256 by {
                let i = 8 * (j - start) + k;
                assert(i / 8 == j - start && i % 8 == k);
                assert(tail[i / 8] == words[j]);
            }
        }
    } else {
        assert(bytes == big_endian(tail));
        assert forall|j: int| start <= j < words.len() implies highest_first(
            bytes,
            8 * (j - start),
            #[trigger] words[j],
        ) by {
            assert forall|k: int| #![trigger bytes[8 * (j - start) + k]] 0 <= k < 8 implies bytes[8 * (
            j - start) + k] == (words[j] as int / pow2((8 * (7 - k)) as nat) as int) % 256 by {
                let i = 8 * (j - start) + k;
                assert(i / 8 == j - start && i % 8 == k);
                assert(tail[i / 8] == words[j]);
            }
        }
    }
}

/// From where on a packed blob goes to device memory.
pub open spec fn upload_start(offset: usize, grid_constants: bool) -> int {
    if grid_constants {
        offset as int
    } else {
        0
    }
}

/// Of a packed blob every word goes to device memory, or only the dynamic half where the rest
/// rides by value. Nothing does exactly if there are no such words.
pub proof fn law_dynamic_half_is_uploaded(
    info: Vec<u64>,
    offset: usize,
    grid_constants: bool,
    r: Option<Vec<u8>>,
)
    requires
        call_ensures(info_upload, (&info, offset, grid_constants), r),
    ensures
        r is Some <==> upload_start(offset, grid_constants) < info@.len(),
        r matches Some(bytes) ==> bytes_from(
            bytes@,
            info@,
            upload_start(offset, grid_constants),
        ),
{
    if let Some(bytes) = r {
        let start = upload_start(offset, grid_constants);
        if !grid_constants {
            assert(info@.skip(0) =~= info@);
        }
        lemma_bytes_from(bytes@, info@, start);
    }
}

/// A launch staged through the pinned buffer that the capture got last, if it got one.
pub proof fn law_launch_staged_through_the_last_buffer(
    capture_open: bool,
    before: usize,
    now: usize,
    r: Option<usize>,
)
    requires
        call_ensures(staging_index, (capture_open, before, now), r),
    ensures
        r is Some <==> capture_open && before < now,
        r matches Some(index) ==> index + 1 == now,
{
}

proof fn lemma_owed_prefix(bindings: Seq<Binding>, a: Seq<bool>, b: Seq<bool>, arena: bool)
    requires
        arena ==> forall|i: int| 0 <= i < bindings.len() ==> a[i] == b[i],
    ensures
        owed(bindings, a, arena) == owed(bindings, b, arena),
    decreases bindings.len(),
{
    if bindings.len() > 0 {
        lemma_owed_prefix(bindings.drop_last(), a, b, arena);
    }
}

/// Nothing is held without an open capture that holds. Else one more binding is held behind
/// the others, unless the arena is in use and owns it.
pub proof fn law_one_more_binding_is_held_last(
    bindings: Vec<Binding>,
    owned: Vec<bool>,
    more: Vec<Binding>,
    more_owned: Vec<bool>,
    options: LaunchOptions,
    r: Vec<Binding>,
    s: Vec<Binding>,
)
    requires
        options.asks_arena() ==> bindings@.len() == owned@.len(),
        options.asks_arena() ==> more@.len() == more_owned@.len(),
        more@.len() == bindings@.len() + 1,
        more@.drop_last() == bindings@,
        options.asks_arena() ==> more_owned@.drop_last() == owned@,
        call_ensures(holds, (&bindings, &owned, options), r),
        call_ensures(holds, (&more, &more_owned, options), s),
    ensures
        !options.capture_open || !options.hold ==> r@.len() == 0 && s@.len() == 0,
        options.capture_open && options.hold ==> {
            &&& bindings@.len() == 0 ==> r@.len() == 0
            &&& options.arena && more_owned@.last() ==> s@ == r@
            &&& !options.arena || !more_owned@.last() ==> s@ == r@.push(more@.last())
        },
{
    if options.capture_open && options.hold {
        if options.arena {
            assert forall|i: int| 0 <= i < bindings@.len() implies owned@[i] == more_owned@[i] by {
                assert(more_owned@.drop_last()[i] == more_owned@[i]);
            }
        }
        lemma_owed_prefix(bindings@, owned@, more_owned@, options.arena);
    }
}

/// What a capture records of a launch is what was launched: the node and what comes from its
/// module, the cubes in each dimension, and the address of each resource in its place.
pub proof fn law_recorded_launch_is_what_was_launched(
    node: CapturedNode,
    count: (u32, u32, u32),
    tensor_maps: Vec<TensorMapBits>,
    resources: Vec<GpuResource>,
    info: Vec<u64>,
    dyn_offset: usize,
    staging: Option<usize>,
    grid_constants: bool,
    name: String,
    r: CapturedLaunch,
)
    requires
        call_ensures(
            captured_launch,
            (
                node,
                count,
                tensor_maps,
                &resources,
                info,
                dyn_offset,
                staging,
                grid_constants,
                name,
            ),
            r,
        ),
    ensures
        r.node == node.node && r.func == node.shape.func && r.shared == node.shape.shared,
        r.grid.0 == count.0 && r.grid.1 == count.1 && r.grid.2 == count.2,
        r.block.0 == node.shape.block.0 && r.block.1 == node.shape.block.1 && r.block.2
            == node.shape.block.2,
        r.tensor_maps@ == tensor_maps@,
        r.info@ == info@,
        r.info_is_grid_constant == grid_constants,
        r.dyn_offset == dyn_offset,
        r.staging == staging,
        r.name@ == name@,
        r.ptrs@.len() == resources@.len(),
        forall|k: int|
            0 <= k < resources@.len() ==> (#[trigger] r.ptrs@[k]) == resources@[k].ptr,
{
    let view = r@;
    assert(view.ptrs == r.ptrs@);
}

/// A launch binds the memory of its tensor maps, then its buffers, each in order, and then the
/// memory that the packed blob was uploaded to, if there is something to upload. There is one
/// resource for each. The blob's buffer is the next of an open capture that owns its staging,
/// and the arena is asked only by an open capture that holds, where it is in use.
pub proof fn law_launch_binds_in_order<G: ComputeStorage, C: ComputeStorage>(
    command: &mut Command<G, C>,
    args: LaunchBindings,
    options: LaunchOptions,
    r: Result<Prepared<G::Resource, C::Resource>, LaunchRefusal>,
)
    requires
        old(command).wf(),
        old(command).ready(),
        call_ensures(Command::<G, C>::prepare_launch, (command, args, options), r),
        r is Ok,
    ensures
        ({
            let prepared = r->Ok_0;
            let start = upload_start(args.dynamic_metadata_offset, options.grid_constants);
            let maps = args.tensor_maps@.len() as int;
            let buffers = args.buffers@.len() as int;
            let bound = prepared.bindings@;
            &&& prepared.upload is Some <==> start < args.info@.len()
            &&& bound.len() == maps + buffers + (if prepared.upload is Some {
                1int
            } else {
                0
            })
            &&& forall|i: int| 0 <= i < maps ==> bound[i] == #[trigger] args.tensor_maps@[i]
            &&& forall|i: int| 0 <= i < buffers ==> bound[maps + i] == #[trigger] args.buffers@[i]
            &&& prepared.upload matches Some(upload) ==> {
                &&& binds(bound.last(), upload.created.handle)
                &&& upload.created.handle.bytes == 8 * (args.info@.len() - start)
                &&& bytes_from(upload.bytes@, args.info@, start)
                &&& upload.keeper == captured_keeper(old(command).here(), options)
            }
            &&& prepared.staging is Some <==> options.capture_open && prepared.upload is Some && (
            prepared.upload->0).keeper is Capture
            &&& prepared.staging matches Some(slot) ==> slot
                == old(command).here().capture_staging@.len()
            &&& prepared.resources@.len() == bound.len()
            &&& options.capture_open && options.hold && options.arena ==> prepared.owned@.len()
                == bound.len()
            &&& !(options.capture_open && options.hold && options.arena) ==> prepared.owned@.len()
                == 0
            &&& !options.capture_open || !options.hold ==> prepared.hold@.len() == 0
            &&& options.capture_open && options.hold && !options.arena ==> prepared.hold@ == bound
        }),
{
    let before = old(command).streams@;
    let current = old(command).current as int;
    let cursor = old(command).cursor;
    let after = final(command).streams@;
    let words = crate::cuda::launch::uploaded(
        args.info@,
        args.dynamic_metadata_offset as int,
        options.grid_constants,
    );
    let start = upload_start(args.dynamic_metadata_offset, options.grid_constants);
    let (mid, upload) = choose|
        mid: Seq<Stream<G, C>>,
        upload: Result<Option<InfoUpload<G::Resource, C::Resource>>, IoError>,
    |
        {
            &&& #[trigger] uploads_info(before, current, cursor, words, options, upload, mid)
            &&& match upload {
                Err(error) => {
                    &&& after == mid
                    &&& r matches Err(refusal) && refusal == LaunchRefusal::Upload(error)
                },
                Ok(upload) => crate::cuda::launch::binds_launch(
                    before,
                    current,
                    args,
                    options,
                    upload,
                    mid,
                    r,
                    after,
                ),
            }
        };
    let (bindings, found) = choose|
        bindings: Seq<Binding>,
        found: Result<Vec<G::Resource>, LaunchRefusal>,
    |
        {
            &&& #[trigger] resolutions::<G, C>(mid, bindings, found, after)
            &&& crate::cuda::launch::is_bound(bindings, args, upload->Ok_0)
            &&& match found {
                Err(error) => r matches Err(refusal) && refusal == error,
                Ok(resources) => {
                    &&& r matches Ok(prepared)
                    &&& prepared.upload == upload->Ok_0
                    &&& prepared.bindings@ == bindings
                    &&& prepared.resources == resources
                    &&& prepared.staging == (if options.capture_open
                        && mid[current].capture_staging@.len()
                        > before[current].capture_staging@.len() {
                        Some((mid[current].capture_staging@.len() - 1) as usize)
                    } else {
                        None
                    })
                    &&& prepared.owned@.len() == (if options.asks_arena() {
                        bindings.len()
                    } else {
                        0
                    })
                    &&& prepared.hold@ == (if options.capture_open && options.hold {
                        owed(bindings, prepared.owned@, options.arena)
                    } else {
                        Seq::empty()
                    })
                },
            }
        };
    let prepared = r->Ok_0;
    crate::cuda::launch::law_without_arena_all_is_held(bindings, prepared.owned@);
    if words.len() > 0 {
        lemma_uploaded(before, current, cursor, words, options, upload, mid);
        if !options.grid_constants {
            assert(args.info@.skip(0) =~= args.info@);
        }
        lemma_bytes_from((upload->Ok_0->0).bytes@, args.info@, start);
    }
}

/// Who keeps the next buffer of a stream: a capture that is open and owns its staging, behind
/// those that it has, and else the queue.
pub open spec fn captured_keeper<G: ComputeStorage, C: ComputeStorage>(
    stream: Stream<G, C>,
    options: LaunchOptions,
) -> Keeper {
    if stream.capturing && options.stage_own {
        Keeper::Capture { index: stream.capture_staging.len() }
    } else {
        Keeper::Queue
    }
}

proof fn lemma_uploaded<G: ComputeStorage, C: ComputeStorage>(
    before: Seq<Stream<G, C>>,
    current: int,
    cursor: u64,
    words: Seq<u64>,
    options: LaunchOptions,
    r: Result<Option<InfoUpload<G::Resource, C::Resource>>, IoError>,
    after: Seq<Stream<G, C>>,
)
    requires
        uploads_info(before, current, cursor, words, options, r, after),
        words.len() > 0,
        r is Ok,
    ensures
        r matches Ok(Some(upload)) && upload.keeper == captured_keeper(before[current], options),
        after[current].capture_staging@.len() == before[current].capture_staging@.len() + (if
        captured_keeper(before[current], options) is Capture {
            1int
        } else {
            0
        }),
        r->Ok_0 is Some,
        bytes_of((r->Ok_0->0).bytes@, words),
        (r->Ok_0->0).created.handle.bytes == 8 * words.len(),
{
    let bytes = (r->Ok_0->0).bytes;
    assert(bytes@.len() == bytes.len());
}

/// The arena of a binding's own stream is asked, stream by stream: it owns what it holds and no
/// other pool does, and not what only others hold. What belongs to no stream is owned by none.
pub proof fn law_arenas_own_what_they_hold<G: ComputeStorage, C: ComputeStorage>(
    command: Command<G, C>,
    bindings: Vec<Binding>,
    r: Vec<bool>,
    i: int,
    at: int,
)
    requires
        command.wf(),
        0 <= i < bindings@.len(),
        call_ensures(Command::<G, C>::arena_owned, (&command, &bindings), r),
    ensures
        r@.len() == bindings@.len(),
        no_stream(command.streams@, bindings@[i].stream) ==> !r@[i],
        first_stream(command.streams@, bindings@[i].stream, at) ==> {
            let m = command.streams@[at].memory_management_gpu@;
            let n = m.pools.len() as int;
            let id = bindings@[i].memory.id();
            let here = held_in(m.pools[n - 1].table, id);
            let there = exists|k: int|
                0 <= k < n - 1 && held_in((#[trigger] m.pools[k]).table, id);
            &&& here && !there ==> r@[i]
            &&& !here && there ==> !r@[i]
        },
{
    let streams = command.streams@;
    let id = bindings@[i].memory.id();
    assert(arena_says(streams, bindings@[i], r@[i]));
    let p = |k: int| is_stream(streams, bindings@[i].stream, k);
    lemma_first_from(0, streams.len() as int, p);
    if first_stream(streams, bindings@[i].stream, at) {
        lemma_first_is(streams.len(), p, at);
        let m = streams[at].memory_management_gpu@;
        let n = m.pools.len() as int;
        assert forall|k: int| 0 <= k < n implies #[trigger] m.held_by(k, id) == held_in(
            m.pools[k].table,
            id,
        ) by {}
        assert(m.held_by(n - 1, id) == held_in(m.pools[n - 1].table, id));
        if exists|k: int| 0 <= k < n - 1 && held_in((#[trigger] m.pools[k]).table, id) {
            let k = choose|k: int| 0 <= k < n - 1 && held_in((#[trigger] m.pools[k]).table, id);
            assert(m.held_by(k, id));
            assert(m.held_elsewhere(id));
        }
        if m.held_elsewhere(id) {
            let k = choose|k: int| 0 <= k < m.arena_at() && #[trigger] m.held_by(k, id);
            assert(held_in(m.pools[k].table, id));
        }
    }
}

} // verus!
