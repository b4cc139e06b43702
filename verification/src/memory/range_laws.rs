//! Which bytes a handle stands for, and which of them are handed out.

use vstd::prelude::*;

use crate::first::lemma_first_from;
use crate::memory::error::{IoError, Missing};
use crate::memory::handle::MemoryLocation;
use crate::memory::manage::MemoryManagement;
use crate::memory::model::MemoryView;
use crate::memory::page::{slice_of, PageView, Slice};
use crate::memory::storage::{narrow, ComputeStorage, StorageHandle};

verus! {

/// How many bytes are left out, which is none where nothing is said.
pub open spec fn left_out(bytes: Option<u64>) -> int {
    match bytes {
        Some(bytes) => bytes as int,
        None => 0,
    }
}

/// Whether a range is what is left of another one without so many bytes at its start and so
/// many at its end.
pub open spec fn inner_range(
    outer: StorageHandle,
    start: Option<u64>,
    end: Option<u64>,
    range: StorageHandle,
) -> bool {
    &&& range.id == outer.id
    &&& range.offset == outer.offset + left_out(start)
    &&& range.offset + range.size + left_out(end) == outer.offset + outer.size
}

/// Whether there is something left of a range.
pub open spec fn leaves_a_range(
    outer: StorageHandle,
    start: Option<u64>,
    end: Option<u64>,
) -> bool {
    &&& left_out(start) + left_out(end) <= outer.size
    &&& outer.offset + left_out(start) <= u64::MAX
}

/// A range starts as many bytes later as are left out at the start, and stops as many bytes
/// earlier as are left out at the end, whether one of them, both or none are. There is no
/// range exactly if there are not as many bytes, or none where it would start.
pub proof fn law_range_is_cut_at_both_ends(
    handle: StorageHandle,
    start: Option<u64>,
    end: Option<u64>,
    r: Option<StorageHandle>,
)
    requires
        call_ensures(narrow, (handle, start, end), r),
    ensures
        r is Some <==> leaves_a_range(handle, start, end),
        r matches Some(range) ==> inner_range(handle, start, end, range),
{
}

/// Leaving out at the start keeps the end, and leaving out at the end keeps the start.
pub proof fn law_one_end_is_kept(
    handle: StorageHandle,
    bytes: u64,
    later: StorageHandle,
    shorter: StorageHandle,
)
    requires
        bytes <= handle.size,
        handle.offset + bytes <= u64::MAX,
        call_ensures(StorageHandle::offset_start, (&handle, bytes), later),
        call_ensures(StorageHandle::offset_end, (&handle, bytes), shorter),
    ensures
        later.id == handle.id && shorter.id == handle.id,
        later.offset == handle.offset + bytes,
        later.offset + later.size == handle.offset + handle.size,
        shorter.offset == handle.offset,
        shorter.offset + shorter.size + bytes == handle.offset + handle.size,
{
}

/// Whether slice `k` of a page is the first that a handle holds.
pub open spec fn first_slice(page: PageView, id: usize, k: int) -> bool {
    &&& 0 <= k < page.slices.len()
    &&& page.slices[k].handle.id() == id
    &&& forall|j: int| 0 <= j < k ==> (#[trigger] page.slices[j]).handle.id() != id
}

/// Which pool a byte of a location means: the pool of that number, and the persistent one for
/// numbers that there are none of.
pub open spec fn pool_meant(m: MemoryView, byte: u8) -> int {
    if byte < m.pools.len() {
        byte as int
    } else {
        m.pools.len() - 2
    }
}

proof fn lemma_first_slice(page: PageView, id: usize)
    ensures
        match slice_of(page.slices, id) {
            Some(k) => first_slice(page, id, k),
            None => forall|j: int|
                0 <= j < page.slices.len() ==> (#[trigger] page.slices[j]).handle.id() != id,
        },
{
    let p = |k: int| page.slices[k].handle.id() == id;
    lemma_first_from(0, page.slices.len() as int, p);
    match slice_of(page.slices, id) {
        Some(k) => {
            assert(p(k));
            assert forall|j: int| 0 <= j < k implies (#[trigger] page.slices[j]).handle.id() != id by {
                assert(!p(j));
            }
        },
        None => {
            assert forall|j: int| 0 <= j < page.slices.len() implies (
            #[trigger] page.slices[j]).handle.id() != id by {
                assert(!p(j));
            }
        },
    }
}

/// What a handle stands for: what was registered for it, wherever it was placed; else the bytes
/// and the cursor of the first slice that it holds on the page that it was placed on. It is an
/// error if there is no such page, and another one if the handle holds nothing there.
/// Registered memory is never written, so there is nothing to wait for.
pub proof fn law_handle_stands_for_its_slice<Storage: ComputeStorage>(
    memory: MemoryManagement<Storage>,
    id: usize,
    location: MemoryLocation,
    storage: Result<StorageHandle, IoError>,
    cursor: Result<u64, IoError>,
    k: int,
)
    requires
        memory@.wf(),
        call_ensures(
            MemoryManagement::<Storage>::get_storage_at,
            (&memory, id, location),
            storage,
        ),
        call_ensures(MemoryManagement::<Storage>::get_cursor_at, (&memory, id, location), cursor),
    ensures
        memory@.external.contains_key(id) ==> {
            &&& storage == Ok::<StorageHandle, IoError>(memory@.external[id])
            &&& cursor == Ok::<u64, IoError>(0)
        },
        !memory@.external.contains_key(id) ==> {
            let table = memory@.pools[pool_meant(memory@, location.pool)].table;
            let p = location.page as int;
            &&& p >= table.len() || table[p] is None ==> {
                let missing = IoError::NotFound { reason: Missing::Page { index: location.page } };
                &&& storage == Err::<StorageHandle, IoError>(missing)
                &&& cursor == Err::<u64, IoError>(missing)
            }
            &&& p < table.len() && table[p] is Some && first_slice(table[p]->0, id, k) ==> {
                &&& storage == Ok::<StorageHandle, IoError>(table[p]->0.slices[k].storage)
                &&& cursor == Ok::<u64, IoError>(table[p]->0.slices[k].cursor)
            }
            &&& p < table.len() && table[p] is Some && (forall|j: int|
                0 <= j < table[p]->0.slices.len() ==> (
                #[trigger] table[p]->0.slices[j]).handle.id() != id) ==> {
                &&& storage == Err::<StorageHandle, IoError>(IoError::InvalidHandle)
                &&& cursor == Err::<u64, IoError>(IoError::InvalidHandle)
            }
        },
{
    let table = memory@.pools[pool_meant(memory@, location.pool)].table;
    let p = location.page as int;
    if !memory@.external.contains_key(id) && p < table.len() && table[p] is Some {
        lemma_first_slice(table[p]->0, id);
    }
}

/// The resource that is handed out is exactly the range that is left of what the handle stands
/// for, cut at both ends. Nothing is changed by asking for it.
pub proof fn law_resource_is_the_range_asked_for<Storage: ComputeStorage>(
    memory: &mut MemoryManagement<Storage>,
    id: usize,
    location: MemoryLocation,
    start: Option<u64>,
    end: Option<u64>,
    found: Result<StorageHandle, IoError>,
    r: Result<Storage::Resource, IoError>,
    range: StorageHandle,
)
    requires
        old(memory)@.wf(),
        old(memory)@.external_lives(id),
        call_ensures(
            MemoryManagement::<Storage>::get_storage_at,
            (&*old(memory), id, location),
            found,
        ),
        call_ensures(
            MemoryManagement::<Storage>::get_resource_at,
            (memory, id, location, start, end),
            r,
        ),
    ensures
        final(memory)@ == old(memory)@,
        found matches Err(error) ==> r == Err::<Storage::Resource, IoError>(error),
        found matches Ok(outer) ==> {
            &&& r is Ok <==> leaves_a_range(outer, start, end)
            &&& r matches Err(error) ==> error == IoError::InvalidHandle
            &&& r matches Ok(resource) ==> inner_range(outer, start, end, range)
                ==> old(memory).held().resolves(range, resource) && final(memory).held().resolves(
                range,
                resource,
            )
        },
{
}

/// Whether memory is what a handle stands for: what was registered for it, or else a slice that
/// it holds.
pub open spec fn is_memory_of(m: MemoryView, id: usize, memory: StorageHandle) -> bool {
    if m.external.contains_key(id) {
        memory == m.external[id]
    } else {
        exists|k: int, p: int, i: int|
            0 <= k < m.pools.len() && 0 <= p < m.pools[k].table.len() && m.pools[k].table[p] is Some
                && 0 <= i < m.pools[k].table[p]->0.slices.len() && (
            #[trigger] m.pools[k].table[p]->0.slices[i]).handle.id() == id
                && m.pools[k].table[p]->0.slices[i].storage == memory
    }
}

/// Whether a resource is what a range of memory looks like, cut at both ends.
pub open spec fn is_range_of<Storage: ComputeStorage>(
    storage: Storage,
    memory: StorageHandle,
    start: Option<u64>,
    end: Option<u64>,
    resource: Storage::Resource,
) -> bool {
    &&& leaves_a_range(memory, start, end)
    &&& forall|range: StorageHandle|
        inner_range(memory, start, end, range) ==> #[trigger] storage.resolves(range, resource)
}

pub proof fn lemma_resolved<Storage: ComputeStorage>(
    m: MemoryView,
    storage: Storage,
    id: usize,
    start: Option<u64>,
    end: Option<u64>,
    r: Result<Storage::Resource, IoError>,
)
    requires
        crate::memory::manage::resolves_from(m, storage, id, start, end, r),
    ensures
        r matches Ok(resource) ==> exists|memory: StorageHandle|
            #[trigger] is_memory_of(m, id, memory) && is_range_of(
                storage,
                memory,
                start,
                end,
                resource,
            ),
        r is Err ==> {
            ||| forall|memory: StorageHandle| !(#[trigger] is_memory_of(m, id, memory))
            ||| r->Err_0 == IoError::InvalidHandle && exists|memory: StorageHandle|
                #[trigger] is_memory_of(m, id, memory) && !leaves_a_range(memory, start, end)
        },
{
    let found = choose|found: Result<StorageHandle, IoError>|
        {
            &&& #[trigger] crate::memory::manage::sought_storage(m, id, found)
            &&& match found {
                Ok(handle) => match crate::memory::storage::narrowed(handle, start, end) {
                    Some(range) => r matches Ok(resource) && storage.resolves(range, resource),
                    None => r == Err::<Storage::Resource, IoError>(IoError::InvalidHandle),
                },
                Err(error) => r == Err::<Storage::Resource, IoError>(error),
            }
        };
    assert(m.stored(id, found));
    match found {
        Ok(memory) => {
            if !m.external.contains_key(id) {
                let slice = choose|slice: Slice| #[trigger]
                    m.slice_of(id, slice) && slice.storage == memory;
                let (k, p, i) = choose|k: int, p: int, i: int|
                    crate::memory::model::has_slice(m, k, p, i) && (
                    #[trigger] m.pools[k].table[p]->0.slices[i]) == slice;
                assert(m.pools[k].table[p]->0.slices[i].handle.id() == id);
            }
            assert(is_memory_of(m, id, memory));
            if let Ok(resource) = r {
                let range = crate::memory::storage::narrowed(memory, start, end)->0;
                assert(is_range_of(storage, memory, start, end, resource));
            }
        },
        Err(_) => {
            assert forall|memory: StorageHandle| !(#[trigger] is_memory_of(m, id, memory)) by {
                if is_memory_of(m, id, memory) {
                    let (k, p, i) = choose|k: int, p: int, i: int|
                        0 <= k < m.pools.len() && 0 <= p < m.pools[k].table.len()
                            && m.pools[k].table[p] is Some && 0 <= i
                            < m.pools[k].table[p]->0.slices.len() && (
                        #[trigger] m.pools[k].table[p]->0.slices[i]).handle.id() == id
                            && m.pools[k].table[p]->0.slices[i].storage == memory;
                    assert(m.pools[k].table[p]->0.slices[i].handle.id() == id);
                    assert(m.held_by(k, id));
                    assert(m.holds(id));
                }
            }
        },
    }
}

/// A binding is handed the range that is left of memory that its handle stands for, cut at both
/// ends. It is refused exactly if the handle stands for nothing, or if there are not as many
/// bytes.
pub proof fn law_binding_is_handed_its_range<Storage: ComputeStorage>(
    memory: &mut MemoryManagement<Storage>,
    binding: crate::memory::handle::ManagedMemoryBinding,
    start: Option<u64>,
    end: Option<u64>,
    r: Result<Storage::Resource, IoError>,
)
    requires
        old(memory)@.wf(),
        old(memory)@.external_lives(binding.id()),
        call_ensures(
            MemoryManagement::<Storage>::get_resource,
            (memory, binding, start, end),
            r,
        ),
    ensures
        final(memory)@ == old(memory)@,
        r matches Ok(resource) ==> exists|found: StorageHandle|
            #[trigger] is_memory_of(old(memory)@, binding.id(), found) && is_range_of(
                old(memory).held(),
                found,
                start,
                end,
                resource,
            ),
        r is Err ==> {
            ||| forall|found: StorageHandle|
                !(#[trigger] is_memory_of(old(memory)@, binding.id(), found))
            ||| r->Err_0 == IoError::InvalidHandle && exists|found: StorageHandle|
                #[trigger] is_memory_of(old(memory)@, binding.id(), found) && !leaves_a_range(
                    found,
                    start,
                    end,
                )
        },
{
    lemma_resolved(old(memory)@, old(memory).held(), binding.id(), start, end, r);
}

} // verus!
