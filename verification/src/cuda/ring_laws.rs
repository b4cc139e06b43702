//! What a CUDA storage hands out, and what it frees.

use vstd::prelude::*;

use crate::cuda::gpu_storage::{
    freed_by, law_freed_as_allocated, law_freed_once, Allocation, AllocationKind, Freed,
    GpuResource, GpuStorage, PtrBindings,
};
use crate::memory::error::IoError;
use crate::memory::storage::StorageHandle;

verus! {

/// A ring begins with its first slot, and every slot is empty.
pub proof fn law_ring_begins_at_the_first_slot(count: usize, r: PtrBindings)
    requires
        0 < count,
        call_ensures(PtrBindings::new, (count,), r),
    ensures
        r.cursor == 0,
        r.slots@.len() == count,
        forall|i: int| 0 <= i < count ==> (#[trigger] r.slots@[i]) == 0,
{
}

/// An address goes into the slot where the cursor is, and into no other. The cursor goes on to
/// the slot behind it, and from the last one to the first.
pub proof fn law_ring_goes_round(ring: &mut PtrBindings, ptr: u64, slot: usize)
    requires
        old(ring).wf(),
        call_ensures(PtrBindings::register, (ring, ptr), slot),
    ensures
        slot == old(ring).cursor,
        final(ring).slots@.len() == old(ring).slots@.len(),
        final(ring).slots@[slot as int] == ptr,
        forall|i: int|
            0 <= i < old(ring).slots@.len() && i != slot ==> (#[trigger] final(ring).slots@[i])
                == old(ring).slots@[i],
        final(ring).cursor == (if slot + 1 == old(ring).slots@.len() {
            0int
        } else {
            slot + 1
        }),
{
    let n = old(ring).slots@.len() as int;
    if slot + 1 < n {
        vstd::arithmetic::div_mod::lemma_small_mod((slot + 1) as nat, n as nat);
    } else {
        vstd::arithmetic::div_mod::lemma_mod_self_0(n);
    }
}

/// Whether a storage has one allocation more than before, and no other change.
pub open spec fn one_more(
    was: GpuStorage,
    now: GpuStorage,
    id: usize,
    ptr: u64,
    kind: AllocationKind,
) -> bool {
    &&& !was.memory@.contains_key(id)
    &&& now.memory@.contains_key(id)
    &&& now.memory@[id].ptr == ptr && now.memory@[id].kind == kind
    &&& forall|other: usize|
        #![trigger now.memory@[other]]
        #![trigger now.memory@.contains_key(other)]
        other != id ==> now.memory@.contains_key(other) == was.memory@.contains_key(other)
            && now.memory@[other] == was.memory@[other]
    &&& now.deallocations@ == was.deallocations@
    &&& now.ptr_bindings == was.ptr_bindings
    &&& now.mem_alignment == was.mem_alignment
    &&& now.next_id > id
}

/// What the allocator of the stream answered is kept as its own, all of it, under an id that
/// was not in use. Where it refused nothing changes.
pub proof fn law_stream_memory_is_kept(
    storage: &mut GpuStorage,
    size: u64,
    answer: Result<u64, i32>,
    r: Option<StorageHandle>,
)
    requires
        old(storage).wf(),
        old(storage).next_id < usize::MAX,
        call_ensures(GpuStorage::alloc_async, (storage, size, answer), r),
    ensures
        r is Some <==> answer is Ok,
        r matches Some(handle) ==> {
            &&& handle.offset == 0 && handle.size == size
            &&& one_more(
                *old(storage),
                *final(storage),
                handle.id,
                answer->Ok_0,
                AllocationKind::Async,
            )
        },
        r is None ==> *final(storage) == *old(storage),
{
}

/// What the allocator of the device answered is kept as its own, all of it, under an id that
/// was not in use. Where it has no memory left the buffer is too big, and any other code is
/// passed on; then nothing changes.
pub proof fn law_device_memory_is_kept(
    storage: &mut GpuStorage,
    size: u64,
    answer: Result<u64, i32>,
    r: Result<StorageHandle, IoError>,
)
    requires
        old(storage).wf(),
        old(storage).next_id < usize::MAX,
        call_ensures(GpuStorage::alloc_sync, (storage, size, answer), r),
    ensures
        r is Ok <==> answer is Ok,
        r matches Ok(handle) ==> {
            &&& handle.offset == 0 && handle.size == size
            &&& one_more(
                *old(storage),
                *final(storage),
                handle.id,
                answer->Ok_0,
                AllocationKind::Sync,
            )
        },
        r is Err ==> *final(storage) == *old(storage),
        answer == Err::<u64, i32>(2) ==> r == Err::<StorageHandle, IoError>(
            IoError::BufferTooBig { size },
        ),
        answer matches Err(code) ==> code != 2 ==> r == Err::<StorageHandle, IoError>(
            IoError::Unknown { code },
        ),
{
}

/// A region of the host is kept as nobody's, at the offset and of the size that it has.
pub proof fn law_host_memory_is_nobodys(
    storage: &mut GpuStorage,
    ptr: u64,
    offset: u64,
    size: u64,
    r: StorageHandle,
)
    requires
        old(storage).wf(),
        old(storage).next_id < usize::MAX,
        call_ensures(GpuStorage::register_external, (storage, ptr, offset, size), r),
    ensures
        r.offset == offset && r.size == size,
        one_more(*old(storage), *final(storage), r.id, ptr, AllocationKind::External),
{
}

/// A mark is put behind the others, and nothing is freed yet.
pub proof fn law_marks_free_nothing(storage: &mut GpuStorage, id: usize, r: ())
    requires
        old(storage).wf(),
        id < old(storage).next_id,
        call_ensures(GpuStorage::dealloc, (storage, id), r),
    ensures
        final(storage).memory == old(storage).memory,
        final(storage).deallocations@.len() == old(storage).deallocations@.len() + 1,
        final(storage).deallocations@.last() == id,
        final(storage).deallocations@.drop_last() =~= old(storage).deallocations@,
        final(storage).next_id == old(storage).next_id,
{
}

/// What was marked is freed once, at the address and in the way it was allocated, and is not
/// there any more. Nothing else is freed, and no marks are left.
pub proof fn law_marked_memory_is_freed(
    storage: &mut GpuStorage,
    r: Vec<Freed>,
    id: usize,
)
    requires
        old(storage).wf(),
        call_ensures(GpuStorage::perform_deallocations, (storage,), r),
    ensures
        (exists|i: int| 0 <= i < r@.len() && (#[trigger] r@[i]).id == id) <==> old(
            storage,
        ).memory@.contains_key(id) && old(storage).deallocations@.contains(id),
        forall|i: int|
            0 <= i < r@.len() ==> (#[trigger] r@[i]).ptr == old(storage).memory@[r@[i].id].ptr
                && r@[i].kind == old(storage).memory@[r@[i].id].kind,
        forall|i: int, j: int|
            0 <= i < j < r@.len() ==> (#[trigger] r@[i]).id != (#[trigger] r@[j]).id,
        final(storage).memory@.contains_key(id) <==> old(storage).memory@.contains_key(id) && !old(
            storage,
        ).deallocations@.contains(id),
        final(storage).memory@.contains_key(id) ==> final(storage).memory@[id]
            == old(storage).memory@[id],
        final(storage).deallocations@.len() == 0,
        final(storage).next_id == old(storage).next_id,
{
    let memory = old(storage).memory@;
    let marks = old(storage).deallocations@;
    assert forall|i: int| 0 <= i < r@.len() implies (#[trigger] r@[i]).ptr == memory[r@[i].id].ptr
        && r@[i].kind == memory[r@[i].id].kind by {
        law_freed_as_allocated(memory, marks, i);
    }
    assert forall|i: int, j: int| 0 <= i < j < r@.len() implies (#[trigger] r@[i]).id != (
    #[trigger] r@[j]).id by {
        law_freed_once(memory, marks, i, j);
    }
    if exists|i: int| 0 <= i < r@.len() && (#[trigger] r@[i]).id == id {
        let i = choose|i: int| 0 <= i < r@.len() && (#[trigger] r@[i]).id == id;
        law_freed_as_allocated(memory, marks, i);
    }
    if memory.contains_key(id) && marks.contains(id) {
        lemma_marked_is_freed(memory, marks, id);
    }
    assert(marks.to_set().contains(id) == marks.contains(id));
}

proof fn lemma_marked_is_freed(memory: Map<usize, Allocation>, marks: Seq<usize>, id: usize)
    requires
        memory.contains_key(id),
        marks.contains(id),
    ensures
        exists|i: int|
            0 <= i < freed_by(memory, marks).len() && (#[trigger] freed_by(memory, marks)[i]).id
                == id,
    decreases marks.len(),
{
    let rest = marks.drop_last();
    let before = freed_by(memory, rest);
    let now = freed_by(memory, marks);
    if rest.contains(id) {
        lemma_marked_is_freed(memory, rest, id);
        let i = choose|i: int| 0 <= i < before.len() && (#[trigger] before[i]).id == id;
        assert(now[i].id == id);
    } else {
        let k = choose|k: int| 0 <= k < marks.len() && marks[k] == id;
        if k < rest.len() {
            assert(rest[k] == id);
        }
        assert(now[before.len() as int].id == id);
    }
}

/// What was marked later is freed later.
pub proof fn law_memory_is_freed_in_order(
    a: &mut GpuStorage,
    b: &mut GpuStorage,
    r: Vec<Freed>,
    s: Vec<Freed>,
)
    requires
        old(a).wf(),
        old(b).wf(),
        old(a).memory@ == old(b).memory@,
        old(b).deallocations@.len() > 0,
        old(b).deallocations@.drop_last() == old(a).deallocations@,
        call_ensures(GpuStorage::perform_deallocations, (a,), r),
        call_ensures(GpuStorage::perform_deallocations, (b,), s),
    ensures
        r@.len() <= s@.len() <= r@.len() + 1,
        forall|i: int| 0 <= i < r@.len() ==> (#[trigger] s@[i]) == r@[i],
        s@.len() > r@.len() ==> s@.last().id == old(b).deallocations@.last(),
{
}

/// The device memory at a range starts as far behind the allocation as the range does, and is
/// as long. Its address is in the slot that it names.
pub proof fn law_ranges_are_addressed(storage: &mut GpuStorage, handle: StorageHandle, r: GpuResource)
    requires
        old(storage).wf(),
        old(storage).memory@.contains_key(handle.id),
        old(storage).memory@[handle.id].ptr + handle.offset <= u64::MAX,
        call_ensures(GpuStorage::get, (storage, &handle), r),
    ensures
        r.ptr - old(storage).memory@[handle.id].ptr == handle.offset,
        r.size == handle.size,
        final(storage).ptr_bindings.slots@[r.slot as int] == r.ptr,
        r.slot == old(storage).ptr_bindings.cursor,
        final(storage).memory == old(storage).memory,
        final(storage).deallocations == old(storage).deallocations,
        final(storage).next_id == old(storage).next_id,
{
}

/// A storage begins without allocations and marks, with as many slots as it is told.
pub proof fn law_storage_begins_empty(mem_alignment: usize, max_bindings: usize, r: GpuStorage, a: usize)
    requires
        0 < max_bindings,
        call_ensures(GpuStorage::new, (mem_alignment, max_bindings), r),
        call_ensures(GpuStorage::alignment, (&r,), a),
    ensures
        forall|id: usize| !(#[trigger] r.memory@.contains_key(id)),
        r.deallocations@.len() == 0,
        r.ptr_bindings.slots@.len() == max_bindings,
        a == mem_alignment,
{
}

} // verus!
