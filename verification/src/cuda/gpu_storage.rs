//! What a CUDA storage keeps track of.

use std::collections::HashMap;

use vstd::prelude::*;

use crate::memory::error::IoError;
use crate::memory::storage::StorageHandle;

verus! {

/// What the driver says when there is no memory left.
pub const OUT_OF_MEMORY: i32 = 2;

/// Who allocated memory, and so how it is freed.
#[derive(Clone, Copy, Debug, PartialEq, Eq, Structural)]
pub enum AllocationKind {
    /// The allocator of a stream.
    Async,
    /// The allocator of the device.
    Sync,
    /// Nobody here: it is a region of the host that the device reads in place, and it must
    /// never be freed. What ends with it is the claim on what backs it.
    External,
}

/// An allocation: where it is, and how it is freed.
#[derive(Clone, Copy, Debug, PartialEq, Eq)]
pub struct Allocation {
    pub ptr: u64,
    pub kind: AllocationKind,
}

/// An allocation that is to be freed.
#[derive(Clone, Copy, Debug, PartialEq, Eq)]
pub struct Freed {
    pub id: usize,
    pub ptr: u64,
    pub kind: AllocationKind,
}

/// A range of device memory.
#[derive(Clone, Copy, Debug, PartialEq, Eq)]
pub struct GpuResource {
    /// The address.
    pub ptr: u64,
    /// The slot of the ring that holds the address while a kernel is launched.
    pub slot: usize,
    /// How many bytes there are.
    pub size: u64,
}

impl GpuResource {
    /// A range of device memory.
    pub fn new(ptr: u64, slot: usize, size: u64) -> (r: Self)
        ensures
            r == (GpuResource { ptr, slot, size }),
    {
        GpuResource { ptr, slot, size }
    }
}

/// The addresses that launches point at, in a ring: an address stays in its slot until as
/// many others were registered as the ring has slots.
pub struct PtrBindings {
    pub slots: Vec<u64>,
    pub cursor: usize,
}

impl PtrBindings {
    /// The cursor is at a slot.
    pub open spec fn wf(self) -> bool {
        self.cursor < self.slots@.len()
    }

    /// A ring of so many slots.
    pub fn new(count: usize) -> (r: Self)
        requires
            0 < count,
        ensures
            r.wf(),
            r.cursor == 0,
            r.slots@ == Seq::new(count as nat, |i: int| 0u64),
    {
        let mut slots: Vec<u64> = Vec::new();
        slots.resize(count, 0);
        PtrBindings { slots, cursor: 0 }
    }

    /// Puts an address into the next slot, and says which that is.
    pub fn register(&mut self, ptr: u64) -> (slot: usize)
        requires
            old(self).wf(),
        ensures
            final(self).wf(),
            slot == old(self).cursor,
            final(self).slots@ == old(self).slots@.update(slot as int, ptr),
            final(self).cursor == (old(self).cursor + 1) % (old(self).slots@.len() as int),
    {
        let slot: usize = self.cursor;
        let count: usize = self.slots.len();
        self.slots.set(slot, ptr);
        proof {
            if slot + 1 < count {
                vstd::arithmetic::div_mod::lemma_small_mod((slot + 1) as nat, count as nat);
            } else {
                vstd::arithmetic::div_mod::lemma_mod_self_0(count as int);
            }
        }
        if slot + 1 >= count {
            self.cursor = 0;
        } else {
            self.cursor = slot + 1;
        }
        slot
    }
}

/// The ring after addresses were registered, one after another.
pub open spec fn registered(slots: Seq<u64>, cursor: int, ptrs: Seq<u64>) -> Seq<u64>
    decreases ptrs.len(),
{
    if ptrs.len() == 0 {
        slots
    } else {
        registered(slots, cursor, ptrs.drop_last()).update(
            (cursor + ptrs.len() - 1) % (slots.len() as int),
            ptrs.last(),
        )
    }
}

/// An address keeps its slot while fewer others are registered than the ring has slots: all
/// the addresses of one launch are there together.
pub proof fn law_addresses_stay(slots: Seq<u64>, cursor: int, ptrs: Seq<u64>, i: int)
    requires
        0 <= cursor < slots.len(),
        ptrs.len() <= slots.len(),
        0 <= i < ptrs.len(),
    ensures
        registered(slots, cursor, ptrs)[(cursor + i) % (slots.len() as int)] == ptrs[i],
    decreases ptrs.len(),
{
    let n = slots.len() as int;
    let last = ptrs.len() - 1;
    lemma_registered_len(slots, cursor, ptrs.drop_last());
    vstd::arithmetic::div_mod::lemma_mod_bound(cursor + i, n);
    vstd::arithmetic::div_mod::lemma_mod_bound(cursor + last, n);
    if i < last {
        law_addresses_stay(slots, cursor, ptrs.drop_last(), i);
        if (cursor + i) % n == (cursor + last) % n {
            vstd::arithmetic::div_mod::lemma_fundamental_div_mod(cursor + i, n);
            vstd::arithmetic::div_mod::lemma_fundamental_div_mod(cursor + last, n);
            let a = (cursor + i) / n;
            let b = (cursor + last) / n;
            assert(last - i == n * b - n * a);
            assert(n * b - n * a == n * (b - a)) by (nonlinear_arith);
            assert(b - a >= 1 ==> n * (b - a) >= n) by (nonlinear_arith)
                requires
                    n > 0,
            ;
            assert(b - a <= 0 ==> n * (b - a) <= 0) by (nonlinear_arith)
                requires
                    n > 0,
            ;
        }
    }
}

proof fn lemma_registered_len(slots: Seq<u64>, cursor: int, ptrs: Seq<u64>)
    requires
        0 <= cursor < slots.len(),
    ensures
        registered(slots, cursor, ptrs).len() == slots.len(),
    decreases ptrs.len(),
{
    if ptrs.len() > 0 {
        lemma_registered_len(slots, cursor, ptrs.drop_last());
        vstd::arithmetic::div_mod::lemma_mod_bound(
            cursor + ptrs.len() - 1,
            slots.len() as int,
        );
    }
}

/// What a CUDA storage keeps track of. An id is never used twice.
pub struct GpuStorage {
    /// The allocations, by id.
    pub memory: HashMap<usize, Allocation>,
    /// The allocations that are to be freed.
    pub deallocations: Vec<usize>,
    /// The addresses that launches point at.
    pub ptr_bindings: PtrBindings,
    /// What addresses are a multiple of.
    pub mem_alignment: usize,
    /// The next id.
    pub next_id: usize,
}

/// The allocations that were marked, in the order of the marks, each once.
pub open spec fn freed_by(memory: Map<usize, Allocation>, marks: Seq<usize>) -> Seq<Freed>
    decreases marks.len(),
{
    if marks.len() == 0 {
        Seq::empty()
    } else {
        let before = freed_by(memory, marks.drop_last());
        let id = marks.last();
        if memory.contains_key(id) && !marks.drop_last().contains(id) {
            before.push(Freed { id, ptr: memory[id].ptr, kind: memory[id].kind })
        } else {
            before
        }
    }
}

impl GpuStorage {
    /// The allocations that were not given back.
    pub open spec fn live(self) -> Set<usize> {
        Set::new(
            |id: usize| self.memory@.contains_key(id) && !self.deallocations@.contains(id),
        )
    }

    /// Ids are given out in order, and the ring has a slot.
    pub open spec fn wf(self) -> bool {
        &&& self.ptr_bindings.wf()
        &&& forall|id: usize| #[trigger] self.memory@.contains_key(id) ==> id < self.next_id
        &&& forall|i: int|
            0 <= i < self.deallocations@.len() ==> (#[trigger] self.deallocations@[i])
                < self.next_id
    }

    /// A storage without allocations.
    pub fn new(mem_alignment: usize, max_bindings: usize) -> (r: Self)
        requires
            0 < max_bindings,
        ensures
            r.wf(),
            r.memory@ == Map::<usize, Allocation>::empty(),
            r.deallocations@ == Seq::<usize>::empty(),
            r.mem_alignment == mem_alignment,
            r.next_id == 0,
            r.ptr_bindings.cursor == 0,
            r.ptr_bindings.slots@ == Seq::new(max_bindings as nat, |i: int| 0u64),
    {
        GpuStorage {
            memory: HashMap::new(),
            deallocations: Vec::new(),
            ptr_bindings: PtrBindings::new(max_bindings),
            mem_alignment,
            next_id: 0,
        }
    }

    /// What addresses are a multiple of.
    pub fn alignment(&self) -> (r: usize)
        ensures
            r == self.mem_alignment,
    {
        self.mem_alignment
    }

    /// Keeps an allocation under a new id.
    fn keep(&mut self, ptr: u64, kind: AllocationKind) -> (id: usize)
        requires
            old(self).wf(),
            old(self).next_id < usize::MAX,
        ensures
            final(self).wf(),
            id == old(self).next_id,
            !old(self).live().contains(id),
            final(self).memory@ == old(self).memory@.insert(id, Allocation { ptr, kind }),
            final(self).deallocations == old(self).deallocations,
            final(self).ptr_bindings == old(self).ptr_bindings,
            final(self).mem_alignment == old(self).mem_alignment,
            final(self).next_id == id + 1,
            final(self).live() == old(self).live().insert(id),
    {
        let ghost before = *self;
        let id: usize = self.next_id;
        self.memory.insert(id, Allocation { ptr, kind });
        self.next_id = id + 1;
        assert(self.live() =~= before.live().insert(id));
        id
    }

    /// Takes what the stream's allocator answered. Where it refused, the device's is asked
    /// next.
    pub fn alloc_async(&mut self, size: u64, answer: Result<u64, i32>) -> (r: Option<
        StorageHandle,
    >)
        requires
            old(self).wf(),
            old(self).next_id < usize::MAX,
        ensures
            final(self).wf(),
            match answer {
                Ok(ptr) => {
                    &&& r == Some(StorageHandle { id: old(self).next_id, offset: 0, size })
                    &&& final(self).memory@ == old(self).memory@.insert(
                        old(self).next_id,
                        Allocation { ptr, kind: AllocationKind::Async },
                    )
                    &&& final(self).live() == old(self).live().insert(old(self).next_id)
                    &&& !old(self).live().contains(old(self).next_id)
                    &&& final(self).deallocations == old(self).deallocations
                    &&& final(self).ptr_bindings == old(self).ptr_bindings
                    &&& final(self).mem_alignment == old(self).mem_alignment
                    &&& final(self).next_id == old(self).next_id + 1
                },
                Err(_) => r is None && *final(self) == *old(self),
            },
    {
        match answer {
            Ok(ptr) => {
                let id: usize = self.keep(ptr, AllocationKind::Async);
                Some(StorageHandle { id, offset: 0, size })
            },
            Err(_) => None,
        }
    }

    /// Takes what the device's allocator answered. Where it has no memory left the buffer
    /// is too big; any other refusal is passed on.
    pub fn alloc_sync(&mut self, size: u64, answer: Result<u64, i32>) -> (r: Result<
        StorageHandle,
        IoError,
    >)
        requires
            old(self).wf(),
            old(self).next_id < usize::MAX,
        ensures
            final(self).wf(),
            match answer {
                Ok(ptr) => {
                    &&& r == Ok::<StorageHandle, IoError>(
                        StorageHandle { id: old(self).next_id, offset: 0, size },
                    )
                    &&& final(self).memory@ == old(self).memory@.insert(
                        old(self).next_id,
                        Allocation { ptr, kind: AllocationKind::Sync },
                    )
                    &&& final(self).live() == old(self).live().insert(old(self).next_id)
                    &&& !old(self).live().contains(old(self).next_id)
                    &&& final(self).deallocations == old(self).deallocations
                    &&& final(self).ptr_bindings == old(self).ptr_bindings
                    &&& final(self).mem_alignment == old(self).mem_alignment
                    &&& final(self).next_id == old(self).next_id + 1
                },
                Err(code) => {
                    &&& *final(self) == *old(self)
                    &&& r == Err::<StorageHandle, IoError>(
                        if code == OUT_OF_MEMORY {
                            IoError::BufferTooBig { size }
                        } else {
                            IoError::Unknown { code }
                        },
                    )
                },
            },
    {
        match answer {
            Ok(ptr) => {
                let id: usize = self.keep(ptr, AllocationKind::Sync);
                Ok(StorageHandle { id, offset: 0, size })
            },
            Err(code) => {
                if code == OUT_OF_MEMORY {
                    Err(IoError::BufferTooBig { size })
                } else {
                    Err(IoError::Unknown { code })
                }
            },
        }
    }

    /// Registers a region of the host that the device can read in place, without allocating
    /// or copying.
    pub fn register_external(&mut self, ptr: u64, offset: u64, size: u64) -> (r: StorageHandle)
        requires
            old(self).wf(),
            old(self).next_id < usize::MAX,
        ensures
            final(self).wf(),
            r == (StorageHandle { id: old(self).next_id, offset, size }),
            final(self).memory@ == old(self).memory@.insert(
                r.id,
                Allocation { ptr, kind: AllocationKind::External },
            ),
            final(self).live() == old(self).live().insert(r.id),
            !old(self).live().contains(r.id),
            final(self).deallocations == old(self).deallocations,
            final(self).ptr_bindings == old(self).ptr_bindings,
            final(self).mem_alignment == old(self).mem_alignment,
            final(self).next_id == old(self).next_id + 1,
    {
        let id: usize = self.keep(ptr, AllocationKind::External);
        StorageHandle { id, offset, size }
    }

    /// Marks an allocation to be freed.
    pub fn dealloc(&mut self, id: usize)
        requires
            old(self).wf(),
            id < old(self).next_id,
        ensures
            final(self).wf(),
            final(self).deallocations@ == old(self).deallocations@.push(id),
            final(self).memory == old(self).memory,
            final(self).ptr_bindings == old(self).ptr_bindings,
            final(self).mem_alignment == old(self).mem_alignment,
            final(self).next_id == old(self).next_id,
            final(self).live() == old(self).live().remove(id),
    {
        let ghost before = *self;
        self.deallocations.push(id);
        proof {
            let after = self.deallocations@;
            assert forall|k: usize| #[trigger] after.contains(k) == (
            before.deallocations@.contains(k) || k == id) by {
                if before.deallocations@.contains(k) {
                    let i = choose|i: int|
                        0 <= i < before.deallocations@.len() && before.deallocations@[i] == k;
                    assert(after[i] == k);
                }
                if k == id {
                    assert(after[after.len() - 1] == k);
                }
            }
            assert(self.live() =~= before.live().remove(id));
        }
    }

    /// Forgets the allocations that were marked, and says how each is freed, in the order of
    /// the marks. A mark of something that is not there, or a second one, changes nothing.
    pub fn perform_deallocations(&mut self) -> (r: Vec<Freed>)
        requires
            old(self).wf(),
        ensures
            final(self).wf(),
            r@ == freed_by(old(self).memory@, old(self).deallocations@),
            final(self).deallocations@ == Seq::<usize>::empty(),
            final(self).memory@ == old(self).memory@.remove_keys(
                old(self).deallocations@.to_set(),
            ),
            final(self).live() == old(self).live(),
            final(self).next_id == old(self).next_id,
            final(self).ptr_bindings == old(self).ptr_bindings,
            final(self).mem_alignment == old(self).mem_alignment,
    {
        let ghost memory = self.memory@;
        let ghost marks = self.deallocations@;
        let ghost before = *self;
        let mut r: Vec<Freed> = Vec::new();
        let mut i: usize = 0;
        proof {
            assert(marks.take(0) =~= Seq::<usize>::empty());
            assert(memory.remove_keys(marks.take(0).to_set()) =~= memory);
        }
        while i < self.deallocations.len()
            invariant
                i <= marks.len(),
                self.deallocations@ == marks,
                self.next_id == before.next_id,
                self.ptr_bindings == before.ptr_bindings,
                self.mem_alignment == before.mem_alignment,
                r@ == freed_by(memory, marks.take(i as int)),
                self.memory@ == memory.remove_keys(marks.take(i as int).to_set()),
            decreases marks.len() - i,
        {
            let id: usize = self.deallocations[i];
            let ghost done = marks.take(i as int);
            let ghost next = marks.take(i + 1);
            proof {
                assert(next.drop_last() =~= done);
                assert(next.last() == id);
                assert(done.to_set().contains(id) == done.contains(id));
            }
            match self.memory.remove(&id) {
                Some(allocation) => {
                    r.push(Freed { id, ptr: allocation.ptr, kind: allocation.kind });
                },
                None => {},
            }
            proof {
                assert(next.to_set() =~= done.to_set().insert(id)) by {
                    assert forall|k: usize| #[trigger] next.to_set().contains(k)
                        == done.to_set().insert(id).contains(k) by {
                        if next.contains(k) {
                            let j = choose|j: int| 0 <= j < next.len() && next[j] == k;
                            if j < i {
                                assert(done[j] == k);
                            }
                        }
                        if done.contains(k) {
                            let j = choose|j: int| 0 <= j < done.len() && done[j] == k;
                            assert(next[j] == k);
                        }
                        assert(next[i as int] == id);
                    }
                }
                assert(self.memory@ =~= memory.remove_keys(next.to_set()));
            }
            i += 1;
        }
        assert(marks.take(i as int) =~= marks);
        self.deallocations.clear();
        proof {
            assert forall|id: usize| #[trigger] self.live().contains(id)
                == before.live().contains(id) by {
                assert(marks.to_set().contains(id) == marks.contains(id));
            }
            assert(self.live() =~= before.live());
        }
        r
    }

    /// The device memory at a range of an allocation. Its address is put into the ring.
    pub fn get(&mut self, handle: &StorageHandle) -> (r: GpuResource)
        requires
            old(self).wf(),
            old(self).memory@.contains_key(handle.id),
            old(self).memory@[handle.id].ptr + handle.offset <= u64::MAX,
        ensures
            final(self).wf(),
            r == (GpuResource {
                ptr: (old(self).memory@[handle.id].ptr + handle.offset) as u64,
                slot: old(self).ptr_bindings.cursor,
                size: handle.size,
            }),
            final(self).ptr_bindings.slots@ == old(self).ptr_bindings.slots@.update(
                r.slot as int,
                r.ptr,
            ),
            final(self).ptr_bindings.cursor == (old(self).ptr_bindings.cursor + 1) % (old(
                self,
            ).ptr_bindings.slots@.len() as int),
            final(self).mem_alignment == old(self).mem_alignment,
            final(self).memory == old(self).memory,
            final(self).deallocations == old(self).deallocations,
            final(self).next_id == old(self).next_id,
            final(self).live() == old(self).live(),
    {
        let base: u64 = match self.memory.get(&handle.id) {
            Some(allocation) => allocation.ptr,
            None => 0,
        };
        let ptr: u64 = base + handle.offset;
        let slot: usize = self.ptr_bindings.register(ptr);
        GpuResource::new(ptr, slot, handle.size)
    }
}

/// Nothing is freed twice.
pub proof fn law_freed_once(memory: Map<usize, Allocation>, marks: Seq<usize>, i: int, j: int)
    requires
        0 <= i < j < freed_by(memory, marks).len(),
    ensures
        freed_by(memory, marks)[i].id != freed_by(memory, marks)[j].id,
    decreases marks.len(),
{
    let before = freed_by(memory, marks.drop_last());
    if j < before.len() {
        law_freed_once(memory, marks.drop_last(), i, j);
    } else {
        lemma_freed_marked(memory, marks.drop_last(), i);
    }
}

proof fn lemma_freed_marked(memory: Map<usize, Allocation>, marks: Seq<usize>, i: int)
    requires
        0 <= i < freed_by(memory, marks).len(),
    ensures
        marks.contains(freed_by(memory, marks)[i].id),
        memory.contains_key(freed_by(memory, marks)[i].id),
        freed_by(memory, marks)[i].ptr == memory[freed_by(memory, marks)[i].id].ptr,
        freed_by(memory, marks)[i].kind == memory[freed_by(memory, marks)[i].id].kind,
    decreases marks.len(),
{
    let before = freed_by(memory, marks.drop_last());
    if i < before.len() {
        lemma_freed_marked(memory, marks.drop_last(), i);
        let id = freed_by(memory, marks)[i].id;
        let k = choose|k: int| 0 <= k < marks.len() - 1 && marks.drop_last()[k] == id;
        assert(marks[k] == id);
    } else {
        assert(marks[marks.len() - 1] == freed_by(memory, marks)[i].id);
    }
}

/// What is freed was marked, and is freed the way it was allocated.
pub proof fn law_freed_as_allocated(memory: Map<usize, Allocation>, marks: Seq<usize>, i: int)
    requires
        0 <= i < freed_by(memory, marks).len(),
    ensures
        marks.contains(freed_by(memory, marks)[i].id),
        memory.contains_key(freed_by(memory, marks)[i].id),
        freed_by(memory, marks)[i].ptr == memory[freed_by(memory, marks)[i].id].ptr,
        freed_by(memory, marks)[i].kind == memory[freed_by(memory, marks)[i].id].kind,
{
    lemma_freed_marked(memory, marks, i);
}

} // verus!
