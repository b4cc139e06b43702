//! What the calls of a stream are to its memory.

use vstd::prelude::*;

use crate::cuda::stream::{empties, reserved_for, Stream};
use crate::first::lemma_first_from;
use crate::handle::Handle;
use crate::memory::error::IoError;
use crate::memory::handle::ManagedMemoryHandle;
use crate::memory::history::{
    comes_to, filled, given_bytes, gives, lemma_fill_orderly, makes_handle, orderly, Call,
};
use crate::memory::manage::refused_by;
use crate::memory::model::{Liveness, MemoryView};
use crate::memory::page::shaped;
use crate::memory::storage::ComputeStorage;

verus! {

/// A handle to new memory that a stream gives out is given memory of the size that was asked
/// for, by one call on the stream's memory. So it is one of the handles whose memory is apart
/// as long as they are held: its id was not known, and ids stay apart. It can be written.
pub proof fn law_new_memory_is_given<G: ComputeStorage, C: ComputeStorage>(
    before: Stream<G, C>,
    after: Stream<G, C>,
    size: u64,
    cursor: u64,
    handle: Handle,
)
    requires
        before.wf(),
        empties(before, after, size, cursor, Ok(handle)),
    ensures
        exists|call: Call|
            {
                &&& #[trigger] comes_to(
                    before.memory_management_gpu@,
                    call,
                    after.memory_management_gpu@,
                )
                &&& gives(before.memory_management_gpu@, call, handle.memory)
                &&& given_bytes(before.memory_management_gpu@, call) == size
                &&& call is Fill
            },
        before.memory_management_gpu@.next_id <= handle.memory.id(),
        !handle.memory.read_only(),
        handle.bytes == size,
        orderly(before.memory_management_gpu@) && after.memory_management_gpu@.ids_left()
            ==> orderly(after.memory_management_gpu@),
{
    let m = before.memory_management_gpu@;
    let end = after.memory_management_gpu@;
    let (memory, reserved) = choose|
        memory: ManagedMemoryHandle,
        reserved: Result<ManagedMemoryHandle, IoError>,
    |
        {
            &&& m.next_id <= memory.id()
            &&& !memory.read_only()
            &&& #[trigger] reserved_for(
                before.memory_management_gpu.held(),
                m.naming(memory.id()),
                size,
                memory,
                cursor,
                reserved,
                end,
            )
            &&& match reserved {
                Ok(_) => Ok::<Handle, IoError>(handle) == Ok::<Handle, IoError>(
                    Handle {
                        memory,
                        stream: before.id,
                        offset_start: None,
                        offset_end: None,
                        bytes: size,
                    },
                ),
                Err(error) => false,
            }
        };
    let named = m.naming(memory.id());
    let (live, mid) = choose|live: Liveness, mid: MemoryView|
        {
            &&& named.shaped(live)
            &&& #[trigger] named.reserved(size, live, reserved, mid)
            &&& refused_by(before.memory_management_gpu.held(), named, size, live, reserved)
            &&& match reserved {
                Ok(slice) => {
                    let location = named.planned(size, live);
                    &&& mid.placed(size, slice, location)
                    &&& end == mid.bound(slice.id(), location, memory, cursor)
                },
                Err(_) => end == mid,
            }
        };
    assert(filled(named, size, live, reserved, memory, cursor, mid, end));
    let call = Call::Fill { size, live, reserved, memory, cursor };
    assert forall|k: int| 0 <= k < m.pools.len() implies shaped(
        #[trigger] m.pools[k].table,
        live[k],
    ) by {
        assert(named.pools[k].table == m.pools[k].table);
    }
    assert(makes_handle(m, size, live, reserved, memory, cursor, end));
    assert(comes_to(m, call, end));
    if orderly(m) && end.ids_left() {
        lemma_fill_orderly(m, call, end);
    }
}

/// A handle that a stream reserves memory for is given it: memory is reserved, and what was
/// reserved is given to the handle.
pub proof fn law_initialized_memory_is_given<G: ComputeStorage>(
    storage: G,
    m: MemoryView,
    size: u64,
    memory: ManagedMemoryHandle,
    cursor: u64,
    slice: ManagedMemoryHandle,
    after: MemoryView,
)
    requires
        m.wf(),
        reserved_for(storage, m, size, memory, cursor, Ok(slice), after),
    ensures
        exists|reserve: Call, mid: MemoryView, bind: Call|
            {
                &&& #[trigger] comes_to(m, reserve, mid)
                &&& #[trigger] comes_to(mid, bind, after)
                &&& gives(m, reserve, slice)
                &&& gives(mid, bind, memory)
                &&& bind is Bind
            },
{
    let (live, mid) = choose|live: Liveness, mid: MemoryView|
        {
            &&& m.shaped(live)
            &&& #[trigger] m.reserved(size, live, Ok(slice), mid)
            &&& mid.placed(size, slice, m.planned(size, live))
            &&& after == mid.bound(slice.id(), m.planned(size, live), memory, cursor)
        };
    let location = m.planned(size, live);
    let reserve = Call::Reserve { size, live, r: Ok(slice) };
    let bind = Call::Bind { id: slice.id(), location, assigned: memory, cursor };
    let slices = mid.pools[mid.pool_of(location.pool)].table[location.page as int]->0.slices;
    let i = choose|i: int|
        0 <= i < slices.len() && (#[trigger] slices[i]).handle == slice
            && slices[i].storage.size == size;
    let held = |n: int| slices[n].handle.id() == slice.id();
    assert(held(i));
    lemma_first_from(0, slices.len() as int, held);
    assert(comes_to(m, reserve, mid));
    assert(comes_to(mid, bind, after));
}

} // verus!
