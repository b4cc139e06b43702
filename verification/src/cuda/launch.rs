//! What a kernel launch uploads, binds, holds and records.

use vstd::prelude::*;

use crate::cuda::command::{
    binds, creates, finds, only_at, stream_at, CapturedNode, Command, Created,
};
use crate::cuda::gpu_storage::GpuResource;
use crate::cuda::graph::{CapturedLaunch, LaunchView, TensorMapBits};
use crate::cuda::stream::{Keeper, Stream};
use crate::cuda::words::{bytes_of, word_bytes};
use crate::handle::Binding;
use crate::memory::error::IoError;
use crate::memory::handle::MemoryLocation;
use crate::memory::storage::ComputeStorage;

verus! {

/// What a launch binds, besides the kernel.
pub struct LaunchBindings {
    /// The memory of the tensor maps.
    pub tensor_maps: Vec<Binding>,
    pub buffers: Vec<Binding>,
    /// The packed scalars and metadata.
    pub info: Vec<u64>,
    /// Where the dynamic half of `info` starts.
    pub dynamic_metadata_offset: usize,
}

/// How launches are made.
#[derive(Clone, Copy, Debug, PartialEq, Eq)]
pub struct LaunchOptions {
    /// Kernels take the packed scalars by value.
    pub grid_constants: bool,
    /// A graph capture is open.
    pub capture_open: bool,
    /// A capture holds the buffers that its nodes point at.
    pub hold: bool,
    /// A capture allocates from the capture arena.
    pub arena: bool,
    /// A capture owns the pinned buffers that its copies read from.
    pub stage_own: bool,
}

impl LaunchOptions {
    /// Whether it matters which buffers the arena owns.
    pub open spec fn asks_arena(self) -> bool {
        self.capture_open && self.hold && self.arena
    }
}

/// The words of a packed blob that go to device memory: the dynamic half where the rest rides
/// by value, and else all of them.
pub open spec fn uploaded(info: Seq<u64>, offset: int, grid_constants: bool) -> Seq<u64> {
    if !grid_constants {
        info
    } else if offset < info.len() {
        info.skip(offset)
    } else {
        Seq::empty()
    }
}

/// The bytes of a packed blob that go to device memory, if any do.
pub fn info_upload(info: &Vec<u64>, offset: usize, grid_constants: bool) -> (r: Option<Vec<u8>>)
    ensures
        match r {
            Some(bytes) => {
                let words = uploaded(info@, offset as int, grid_constants);
                words.len() > 0 && bytes_of(bytes@, words)
            },
            None => uploaded(info@, offset as int, grid_constants).len() == 0,
        },
{
    let start: usize = if grid_constants {
        offset
    } else {
        0
    };
    if start >= info.len() {
        return None;
    }
    let words: &[u64] = vstd::slice::slice_subrange(info.as_slice(), start, info.len());
    assert(words@ =~= uploaded(info@, offset as int, grid_constants));
    Some(word_bytes(words))
}

/// Which pinned buffer of a capture a launch staged through, if it did: counted rather than
/// inferred, since a capture does not own its staging under every setting.
pub fn staging_index(capture_open: bool, before: usize, now: usize) -> (r: Option<usize>)
    ensures
        r == (if capture_open && now > before {
            Some((now - 1) as usize)
        } else {
            None
        }),
{
    if capture_open && now > before {
        Some(now - 1)
    } else {
        None
    }
}

/// The buffers among these that owe a hold. For a buffer that the arena owns, the arena keeps
/// it allocated and to itself already, and a hold would stop it from being used again.
pub open spec fn owed(bindings: Seq<Binding>, owned: Seq<bool>, arena: bool) -> Seq<Binding>
    decreases bindings.len(),
{
    if bindings.len() == 0 {
        Seq::empty()
    } else {
        let before = owed(bindings.drop_last(), owned, arena);
        if arena && owned[bindings.len() - 1] {
            before
        } else {
            before.push(bindings.last())
        }
    }
}

/// Without the arena every buffer that a launch binds is held, in order.
pub proof fn law_without_arena_all_is_held(bindings: Seq<Binding>, owned: Seq<bool>)
    ensures
        owed(bindings, owned, false) == bindings,
    decreases bindings.len(),
{
    if bindings.len() > 0 {
        law_without_arena_all_is_held(bindings.drop_last(), owned);
        assert(bindings.drop_last().push(bindings.last()) =~= bindings);
    } else {
        assert(bindings =~= Seq::empty());
    }
}

/// A buffer that the arena does not own is held, whatever the settings; and what is held
/// while the arena is in use is such a buffer.
pub proof fn law_foreign_memory_is_held(bindings: Seq<Binding>, owned: Seq<bool>, arena: bool)
    requires
        bindings.len() <= owned.len(),
    ensures
        forall|i: int|
            #![trigger bindings[i]]
            0 <= i < bindings.len() && !owned[i] ==> owed(bindings, owned, arena).contains(
                bindings[i],
            ),
        arena ==> forall|k: int|
            #![trigger owed(bindings, owned, arena)[k]]
            0 <= k < owed(bindings, owned, arena).len() ==> exists|i: int|
                0 <= i < bindings.len() && !owned[i] && bindings[i] == owed(
                    bindings,
                    owned,
                    arena,
                )[k],
    decreases bindings.len(),
{
    if bindings.len() > 0 {
        let rest = bindings.drop_last();
        let n = rest.len() as int;
        law_foreign_memory_is_held(rest, owned, arena);
        let had = owed(rest, owned, arena);
        let has = owed(bindings, owned, arena);
        assert forall|i: int|
            #![trigger bindings[i]]
            0 <= i < bindings.len() && !owned[i] implies has.contains(bindings[i]) by {
            if i < n {
                assert(rest[i] == bindings[i]);
                let k = choose|k: int| 0 <= k < had.len() && had[k] == rest[i];
                assert(has[k] == bindings[i]);
            } else {
                assert(has[had.len() as int] == bindings[i]);
            }
        }
        if arena {
            assert forall|k: int| #![trigger has[k]] 0 <= k < has.len() implies exists|i: int|
                0 <= i < bindings.len() && !owned[i] && bindings[i] == has[k] by {
                if k < had.len() {
                    assert(had[k] == has[k]);
                    let i = choose|i: int| 0 <= i < rest.len() && !owned[i] && rest[i] == had[k];
                    assert(bindings[i] == has[k]);
                } else {
                    assert(bindings[n] == has[k] && !owned[n]);
                }
            }
        }
    }
}

/// The buffers that a launch owes a hold while a capture is open.
pub fn holds(bindings: &Vec<Binding>, owned: &Vec<bool>, options: LaunchOptions) -> (r: Vec<Binding>)
    requires
        options.asks_arena() ==> bindings@.len() == owned@.len(),
    ensures
        r@ == (if options.capture_open && options.hold {
            owed(bindings@, owned@, options.arena)
        } else {
            Seq::empty()
        }),
{
    let mut r: Vec<Binding> = Vec::new();
    if !options.capture_open || !options.hold {
        return r;
    }
    let mut i: usize = 0;
    assert(bindings@.take(0) =~= Seq::<Binding>::empty());
    while i < bindings.len()
        invariant
            i <= bindings.len(),
            options.arena ==> bindings.len() == owned.len(),
            r@ == owed(bindings@.take(i as int), owned@, options.arena),
        decreases bindings.len() - i,
    {
        proof {
            assert(bindings@.take(i + 1).drop_last() =~= bindings@.take(i as int));
            assert(bindings@.take(i + 1).last() == bindings@[i as int]);
        }
        if !options.arena || !owned[i] {
            r.push(bindings[i].clone());
        }
        i += 1;
    }
    assert(bindings@.take(i as int) =~= bindings@);
    r
}

/// Adds copies of bindings to a list.
fn extend_bindings(all: &mut Vec<Binding>, more: &Vec<Binding>)
    ensures
        final(all)@ == old(all)@ + more@,
{
    let ghost before = all@;
    let mut i: usize = 0;
    while i < more.len()
        invariant
            i <= more.len(),
            all@ =~= before + more@.take(i as int),
        decreases more.len() - i,
    {
        all.push(more[i].clone());
        i += 1;
    }
    assert(more@.take(i as int) =~= more@);
}

/// Creating memory leaves what a stream counts alone.
proof fn lemma_created_state<G: ComputeStorage, C: ComputeStorage>(
    before: Seq<Stream<G, C>>,
    current: int,
    cursor: u64,
    len: usize,
    r: Result<Created<G::Resource, C::Resource>, IoError>,
    after: Seq<Stream<G, C>>,
)
    requires
        creates(before, current, cursor, len, r, after),
        0 <= current < before.len(),
    ensures
        after.len() == before.len(),
        after[current].same_state(before[current]),
{
}

/// Whether the pinned buffer of a copy was given away.
pub open spec fn keeps<G: ComputeStorage, C: ComputeStorage>(
    before: Stream<G, C>,
    after: Stream<G, C>,
    len: nat,
    capture_owns: bool,
) -> bool {
    &&& after.memory_management_gpu == before.memory_management_gpu
    &&& after.memory_management_cpu == before.memory_management_cpu
    &&& after.errors == before.errors
    &&& after.capturing == before.capturing
    &&& after.policy == before.policy
    &&& after.id == before.id
    &&& after.ids == before.ids
    &&& if before.capturing && capture_owns {
        &&& after.capture_staging@ == before.capture_staging@.push(len as usize)
        &&& after.staged == before.staged
    } else {
        &&& after.capture_staging == before.capture_staging
        &&& after.staged == before.staged.with_staged(len)
    }
}

/// The upload of a packed blob.
pub struct InfoUpload<R, S> {
    pub bytes: Vec<u8>,
    pub created: Created<R, S>,
    /// Who keeps the pinned memory.
    pub keeper: Keeper,
}

/// What a launch is made of once its memory is found.
pub struct Prepared<R, S> {
    pub upload: Option<InfoUpload<R, S>>,
    /// Which pinned buffer of the capture the dynamic half was uploaded from.
    pub staging: Option<usize>,
    /// What is bound: the memory of the tensor maps, the buffers, and the uploaded blob.
    pub bindings: Vec<Binding>,
    /// Which of it the arena owns.
    pub owned: Vec<bool>,
    /// Which of it owes a hold.
    pub hold: Vec<Binding>,
    /// The memory, in the same order.
    pub resources: Vec<R>,
}

/// Why a launch cannot be made.
#[derive(Clone, Copy, Debug, PartialEq, Eq)]
pub enum LaunchRefusal {
    /// The packed blob cannot be uploaded.
    Upload(IoError),
    /// A binding names no memory.
    Unresolved { index: usize, error: IoError },
}

/// Whether the upload of a packed blob comes to this.
pub open spec fn uploads_info<G: ComputeStorage, C: ComputeStorage>(
    before: Seq<Stream<G, C>>,
    current: int,
    cursor: u64,
    words: Seq<u64>,
    options: LaunchOptions,
    r: Result<Option<InfoUpload<G::Resource, C::Resource>>, IoError>,
    after: Seq<Stream<G, C>>,
) -> bool {
    if words.len() == 0 {
        &&& after == before
        &&& r matches Ok(upload) && upload is None
    } else {
        exists|
            mid: Seq<Stream<G, C>>,
            created: Result<Created<G::Resource, C::Resource>, IoError>,
        |
            {
                &&& #[trigger] creates(
                    before,
                    current,
                    cursor,
                    (8 * words.len()) as usize,
                    created,
                    mid,
                )
                &&& match created {
                    Ok(created) => {
                        &&& only_at(mid, current, after)
                        &&& keeps(mid[current], after[current], 8 * words.len(), options.stage_own)
                        &&& r matches Ok(Some(upload)) && is_info_upload(
                            upload,
                            words,
                            created,
                            mid[current],
                            options,
                        )
                    },
                    Err(error) => {
                        &&& after == mid
                        &&& r matches Err(e) && e == error
                    },
                }
            }
    }
}

/// Whether an upload is that of these words.
pub open spec fn is_info_upload<G: ComputeStorage, C: ComputeStorage>(
    upload: InfoUpload<G::Resource, C::Resource>,
    words: Seq<u64>,
    created: Created<G::Resource, C::Resource>,
    stream: Stream<G, C>,
    options: LaunchOptions,
) -> bool {
    &&& bytes_of(upload.bytes@, words)
    &&& upload.created == created
    &&& upload.keeper == (if stream.capturing && options.stage_own {
        Keeper::Capture { index: stream.capture_staging@.len() as usize }
    } else {
        Keeper::Queue
    })
}

/// Whether the arena of its stream can be said to own a binding, or not to: the pools know it
/// of the handles they hold. Of any other it does where the binding was placed in the arena's
/// pool, which is shared with the other clones of the binding's handle.
pub open spec fn arena_says<G: ComputeStorage, C: ComputeStorage>(
    streams: Seq<Stream<G, C>>,
    binding: Binding,
    owned: bool,
) -> bool {
    match stream_at(streams, binding.stream) {
        Some(i) => exists|location: MemoryLocation|
            #[trigger] location.reported() && owned
                == streams[i].memory_management_gpu@.arena_has(
                binding.memory.id(),
                location,
            ),
        None => !owned,
    }
}

/// Whether bindings resolve one after another, from state to state.
pub open spec fn resolve_all<G: ComputeStorage, C: ComputeStorage>(
    states: Seq<Seq<Stream<G, C>>>,
    bindings: Seq<Binding>,
    resources: Seq<G::Resource>,
) -> bool {
    &&& states.len() == resources.len() + 1
    &&& resources.len() <= bindings.len()
    &&& forall|i: int|
        0 <= i < resources.len() ==> #[trigger] finds_at(states, bindings, resources, i)
}

/// Whether one binding of several resolves.
pub open spec fn finds_at<G: ComputeStorage, C: ComputeStorage>(
    states: Seq<Seq<Stream<G, C>>>,
    bindings: Seq<Binding>,
    resources: Seq<G::Resource>,
    i: int,
) -> bool {
    finds(states[i], bindings[i], Ok(resources[i]), states[i + 1])
}

/// Whether bindings resolve to these resources, or the first that does not is this one.
pub open spec fn resolutions<G: ComputeStorage, C: ComputeStorage>(
    before: Seq<Stream<G, C>>,
    bindings: Seq<Binding>,
    r: Result<Vec<G::Resource>, LaunchRefusal>,
    after: Seq<Stream<G, C>>,
) -> bool {
    exists|states: Seq<Seq<Stream<G, C>>>, found: Seq<G::Resource>|
        {
            &&& #[trigger] resolve_all::<G, C>(states, bindings, found)
            &&& states[0] == before
            &&& match r {
                Ok(resources) => {
                    &&& found.len() == bindings.len()
                    &&& found == resources@
                    &&& states.last() == after
                },
                Err(refusal) => {
                    let n = found.len() as int;
                    &&& n < bindings.len()
                    &&& refusal is Unresolved
                    &&& refusal->index == n
                    &&& finds(states.last(), bindings[n], Err(refusal->error), after)
                },
            }
        }
}

/// Whether a launch that is prepared comes to this.
pub open spec fn prepares<G: ComputeStorage, C: ComputeStorage>(
    before: Seq<Stream<G, C>>,
    current: int,
    cursor: u64,
    args: LaunchBindings,
    options: LaunchOptions,
    r: Result<Prepared<G::Resource, C::Resource>, LaunchRefusal>,
    after: Seq<Stream<G, C>>,
) -> bool {
    let words = uploaded(args.info@, args.dynamic_metadata_offset as int, options.grid_constants);
    exists|
        mid: Seq<Stream<G, C>>,
        upload: Result<Option<InfoUpload<G::Resource, C::Resource>>, IoError>,
    |
        {
            &&& #[trigger] uploads_info(before, current, cursor, words, options, upload, mid)
            &&& match upload {
                Err(error) => {
                    &&& after == mid
                    &&& r matches Err(refusal) && refusal == LaunchRefusal::Upload(error)
                },
                Ok(upload) => binds_launch(before, current, args, options, upload, mid, r, after),
            }
        }
}

/// The bindings of a launch, in the order in which the kernel takes them: the memory of the
/// tensor maps, the buffers, and then the uploaded blob.
pub open spec fn is_bound<R, S>(
    bindings: Seq<Binding>,
    args: LaunchBindings,
    upload: Option<InfoUpload<R, S>>,
) -> bool {
    let own = args.tensor_maps@ + args.buffers@;
    match upload {
        None => bindings == own,
        Some(upload) => {
            &&& bindings == own.push(bindings.last())
            &&& binds(bindings.last(), upload.created.handle)
        },
    }
}

/// Whether a launch comes to this once its packed blob is uploaded.
pub open spec fn binds_launch<G: ComputeStorage, C: ComputeStorage>(
    before: Seq<Stream<G, C>>,
    current: int,
    args: LaunchBindings,
    options: LaunchOptions,
    upload: Option<InfoUpload<G::Resource, C::Resource>>,
    mid: Seq<Stream<G, C>>,
    r: Result<Prepared<G::Resource, C::Resource>, LaunchRefusal>,
    after: Seq<Stream<G, C>>,
) -> bool {
    exists|bindings: Seq<Binding>, found: Result<Vec<G::Resource>, LaunchRefusal>|
        {
            &&& #[trigger] resolutions::<G, C>(mid, bindings, found, after)
            &&& is_bound(bindings, args, upload)
            &&& match found {
                Err(error) => r matches Err(refusal) && refusal == error,
                Ok(resources) => {
                    &&& r matches Ok(prepared)
                    &&& prepared.upload == upload
                    &&& prepared.bindings@ == bindings
                    &&& prepared.resources == resources
                    &&& prepared.staging == (if options.capture_open
                        && mid[current].capture_staging@.len()
                        > before[current].capture_staging@.len() {
                        Some((mid[current].capture_staging@.len() - 1) as usize)
                    } else {
                        None
                    })
                    &&& prepared.owned@.len() == (if options.asks_arena() {
                        bindings.len()
                    } else {
                        0
                    })
                    &&& forall|i: int|
                        #![trigger prepared.owned@[i]]
                        0 <= i < prepared.owned@.len() ==> arena_says(
                            mid,
                            bindings[i],
                            prepared.owned@[i],
                        )
                    &&& prepared.hold@ == (if options.capture_open && options.hold {
                        owed(bindings, prepared.owned@, options.arena)
                    } else {
                        Seq::empty()
                    })
                },
            }
        }
}

impl<G: ComputeStorage, C: ComputeStorage> Command<G, C> {
    /// Uploads the packed blob of a launch to new memory of the current stream.
    fn upload_info(&mut self, args: &LaunchBindings, options: LaunchOptions) -> (r: Result<
        Option<InfoUpload<G::Resource, C::Resource>>,
        IoError,
    >)
        requires
            old(self).wf(),
            old(self).ready(),
        ensures
            final(self).wf(),
            final(self).same_command(*old(self)),
            uploads_info(
                old(self).streams@,
                old(self).current as int,
                old(self).cursor,
                uploaded(args.info@, args.dynamic_metadata_offset as int, options.grid_constants),
                options,
                r,
                final(self).streams@,
            ),
    {
        let ghost before = self.streams@;
        let ghost words = uploaded(
            args.info@,
            args.dynamic_metadata_offset as int,
            options.grid_constants,
        );
        let i: usize = self.current;
        let bytes: Vec<u8> = match info_upload(
            &args.info,
            args.dynamic_metadata_offset,
            options.grid_constants,
        ) {
            Some(bytes) => bytes,
            None => {
                return Ok(None);
            },
        };
        let len: usize = bytes.len();
        let made = self.create_with_data(len);
        let ghost mid = self.streams@;
        assert(len == 8 * words.len());
        proof {
            lemma_created_state(before, i as int, self.cursor, len, made, mid);
        }
        assert(creates(before, i as int, self.cursor, (8 * words.len()) as usize, made, mid));
        match made {
            Ok(created) => {
                let keeper: Keeper = self.streams[i].keep_staged(len, options.stage_own);
                let upload = InfoUpload { bytes, created, keeper };
                let r = Ok(Some(upload));
                proof {
                    assert(self.streams@ =~= mid.update(i as int, self.streams@[i as int]));
                    assert(is_info_upload(upload, words, created, mid[i as int], options));
                    assert(uploads_info(
                        before,
                        i as int,
                        self.cursor,
                        words,
                        options,
                        r,
                        self.streams@,
                    ));
                }
                r
            },
            Err(error) => {
                let r = Err(error);
                assert(uploads_info(before, i as int, self.cursor, words, options, r, mid));
                r
            },
        }
    }

    /// Which of these bindings the capture arena owns. A binding of a stream that is not
    /// here is owned by no arena.
    pub fn arena_owned(&self, bindings: &Vec<Binding>) -> (r: Vec<bool>)
        requires
            self.wf(),
        ensures
            r@.len() == bindings@.len(),
            forall|i: int|
                #![trigger r@[i]]
                0 <= i < r@.len() ==> arena_says(self.streams@, bindings@[i], r@[i]),
    {
        let mut r: Vec<bool> = Vec::new();
        let mut i: usize = 0;
        while i < bindings.len()
            invariant
                self.wf(),
                i <= bindings.len(),
                r@.len() == i,
                forall|k: int|
                    #![trigger r@[k]]
                    0 <= k < r@.len() ==> arena_says(self.streams@, bindings@[k], r@[k]),
            decreases bindings.len() - i,
        {
            let owned: bool = match self.position(bindings[i].stream) {
                Some(k) => {
                    let owned: bool = self.streams[k].memory_management_gpu.arena_owns(
                        &bindings[i].memory,
                    );
                    proof {
                        let m = self.streams@[k as int].memory_management_gpu@;
                        let id = bindings@[i as int].memory.id();
                        let location = choose|location: MemoryLocation|
                            #[trigger] location.reported() && owned == m.arena_has(id, location);
                        assert(location.reported());
                    }
                    owned
                },
                None => false,
            };
            assert(arena_says(self.streams@, bindings@[i as int], owned));
            r.push(owned);
            i += 1;
        }
        r
    }

    /// The device memory at bindings, or the first that names none.
    fn resolve(&mut self, bindings: &Vec<Binding>) -> (r: Result<Vec<G::Resource>, LaunchRefusal>)
        requires
            old(self).wf(),
        ensures
            final(self).wf(),
            final(self).same_command(*old(self)),
            resolutions::<G, C>(old(self).streams@, bindings@, r, final(self).streams@),
    {
        let mut resources: Vec<G::Resource> = Vec::new();
        let ghost mut states: Seq<Seq<Stream<G, C>>> = seq![self.streams@];
        let mut i: usize = 0;
        while i < bindings.len()
            invariant
                self.wf(),
                self.same_command(*old(self)),
                i <= bindings.len(),
                resources@.len() == i,
                states.len() == i + 1,
                states[0] == old(self).streams@,
                states[i as int] == self.streams@,
                forall|k: int|
                    0 <= k < i ==> #[trigger] finds_at::<G, C>(
                        states,
                        bindings@,
                        resources@,
                        k,
                    ),
            decreases bindings.len() - i,
        {
            let ghost was = states;
            let ghost had = resources@;
            match self.resource(bindings[i].clone()) {
                Ok(resource) => {
                    resources.push(resource);
                    proof {
                        states = states.push(self.streams@);
                        assert forall|k: int| 0 <= k < i + 1 implies #[trigger] finds_at::<G, C>(
                            states,
                            bindings@,
                            resources@,
                            k,
                        ) by {
                            if k < i {
                                assert(finds_at::<G, C>(was, bindings@, had, k));
                            }
                        }
                    }
                },
                Err(error) => {
                    let r = Err(LaunchRefusal::Unresolved { index: i, error });
                    proof {
                        assert(resolve_all::<G, C>(states, bindings@, resources@));
                        assert(resolutions::<G, C>(
                            old(self).streams@,
                            bindings@,
                            r,
                            self.streams@,
                        ));
                    }
                    return r;
                },
            }
            i += 1;
        }
        proof {
            assert(resolve_all::<G, C>(states, bindings@, resources@));
        }
        Ok(resources)
    }

    /// Uploads the packed blob of a launch, finds the memory that it binds, and says which of
    /// it a capture has to hold.
    pub fn prepare_launch(&mut self, args: LaunchBindings, options: LaunchOptions) -> (r: Result<
        Prepared<G::Resource, C::Resource>,
        LaunchRefusal,
    >)
        requires
            old(self).wf(),
            old(self).ready(),
        ensures
            final(self).wf(),
            final(self).same_command(*old(self)),
            prepares(
                old(self).streams@,
                old(self).current as int,
                old(self).cursor,
                args,
                options,
                r,
                final(self).streams@,
            ),
    {
        let ghost before = self.streams@;
        let current: usize = self.current;
        let staged_before: usize = self.streams[current].capture_staging.len();
        let uploading = self.upload_info(&args, options);
        let ghost mid = self.streams@;
        let ghost words = uploaded(
            args.info@,
            args.dynamic_metadata_offset as int,
            options.grid_constants,
        );
        assert(uploads_info(
            before,
            current as int,
            self.cursor,
            words,
            options,
            uploading,
            mid,
        ));
        let upload: Option<InfoUpload<G::Resource, C::Resource>> = match uploading {
            Ok(upload) => upload,
            Err(error) => {
                return Err(LaunchRefusal::Upload(error));
            },
        };
        let staging: Option<usize> = staging_index(
            options.capture_open,
            staged_before,
            self.streams[current].capture_staging.len(),
        );
        let mut bindings: Vec<Binding> = Vec::new();
        extend_bindings(&mut bindings, &args.tensor_maps);
        extend_bindings(&mut bindings, &args.buffers);
        assert(bindings@ =~= args.tensor_maps@ + args.buffers@);
        match &upload {
            Some(upload) => {
                bindings.push(upload.created.handle.clone().binding());
            },
            None => {},
        }
        assert(is_bound(bindings@, args, upload));
        let owned: Vec<bool> = if options.capture_open && options.hold && options.arena {
            self.arena_owned(&bindings)
        } else {
            Vec::new()
        };
        let hold: Vec<Binding> = holds(&bindings, &owned, options);
        let found = self.resolve(&bindings);
        let ghost all = bindings@;
        assert(resolutions::<G, C>(mid, all, found, self.streams@));
        match found {
            Ok(resources) => {
                let r = Ok(Prepared { upload, staging, bindings, owned, hold, resources });
                assert(binds_launch(
                    before,
                    current as int,
                    args,
                    options,
                    upload,
                    mid,
                    r,
                    self.streams@,
                ));
                r
            },
            Err(error) => {
                let r = Err(error);
                assert(binds_launch(
                    before,
                    current as int,
                    args,
                    options,
                    upload,
                    mid,
                    r,
                    self.streams@,
                ));
                r
            },
        }
    }

    /// Whether there is room to count what a launch reserves.
    pub open spec fn ready(self) -> bool {
        let stream = self.streams@[self.current as int];
        &&& stream.memory_management_gpu@.can_count()
        &&& stream.memory_management_cpu@.can_count()
    }
}

/// The addresses of device memory.
fn ptrs_of(resources: &Vec<GpuResource>) -> (r: Vec<u64>)
    ensures
        r@ == resources@.map_values(|resource: GpuResource| resource.ptr),
{
    let mut r: Vec<u64> = Vec::new();
    let mut i: usize = 0;
    while i < resources.len()
        invariant
            i <= resources.len(),
            r@ =~= resources@.take(i as int).map_values(|resource: GpuResource| resource.ptr),
        decreases resources.len() - i,
    {
        r.push(resources[i].ptr);
        i += 1;
    }
    assert(resources@.take(i as int) =~= resources@);
    r
}

/// What a capture records of a launch, with everything that is needed to rewrite it.
pub fn captured_launch(
    node: CapturedNode,
    count: (u32, u32, u32),
    tensor_maps: Vec<TensorMapBits>,
    resources: &Vec<GpuResource>,
    info: Vec<u64>,
    dyn_offset: usize,
    staging: Option<usize>,
    grid_constants: bool,
    name: String,
) -> (r: CapturedLaunch)
    ensures
        r@ == (LaunchView {
            node: node.node,
            func: node.shape.func,
            grid: count,
            block: node.shape.block,
            shared: node.shape.shared,
            tensor_maps: tensor_maps@,
            ptrs: resources@.map_values(|resource: GpuResource| resource.ptr),
            info: info@,
            info_is_grid_constant: grid_constants,
            dyn_offset,
            staging,
            name: name@,
        }),
{
    CapturedLaunch {
        node: node.node,
        func: node.shape.func,
        grid: count,
        block: node.shape.block,
        shared: node.shape.shared,
        tensor_maps,
        ptrs: ptrs_of(resources),
        info,
        info_is_grid_constant: grid_constants,
        dyn_offset,
        staging,
        name,
    }
}

} // verus!
