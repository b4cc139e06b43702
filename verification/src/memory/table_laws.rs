//! What calls on a table of pages find, change and leave alone.

use vstd::prelude::*;

use crate::first::lemma_first_from;
use crate::memory::error::{IoError, Missing};
use crate::memory::handle::ManagedMemoryHandle;
use crate::memory::memory_pool::MemoryPool;
use crate::memory::page::{flags, position_of, shaped, slice_of, Page, PageTable, PageView, Slice};
use crate::memory::storage::ComputeStorage;

verus! {

/// Whether slice `k` is the first that a handle holds.
pub open spec fn first_held(slices: Seq<Slice>, id: usize, k: int) -> bool {
    &&& 0 <= k < slices.len()
    &&& slices[k].handle.id() == id
    &&& forall|n: int| 0 <= n < k ==> (#[trigger] slices[n]).handle.id() != id
}

/// Whether a handle holds no slice.
pub open spec fn none_held(slices: Seq<Slice>, id: usize) -> bool {
    forall|n: int| 0 <= n < slices.len() ==> (#[trigger] slices[n]).handle.id() != id
}

/// Whether there is a page at an index.
pub open spec fn page_at(table: Seq<Option<PageView>>, page: int) -> bool {
    0 <= page < table.len() && table[page] is Some
}

/// The first slice that a handle holds, if there is one.
pub proof fn lemma_first_held(slices: Seq<Slice>, id: usize)
    ensures
        match slice_of(slices, id) {
            Some(k) => first_held(slices, id, k),
            None => none_held(slices, id),
        },
{
    let p = |k: int| slices[k].handle.id() == id;
    lemma_first_from(0, slices.len() as int, p);
    if slice_of(slices, id) is None {
        assert forall|n: int| 0 <= n < slices.len() implies (#[trigger] slices[n]).handle.id()
            != id by {
            assert(!p(n));
        }
    } else {
        let k = slice_of(slices, id)->0;
        assert(p(k));
        assert forall|n: int| 0 <= n < k implies (#[trigger] slices[n]).handle.id() != id by {
            assert(!p(n));
        }
    }
}

/// The position of a handle among slices is that of the first slice it holds.
pub proof fn law_first_slice_of_a_handle(slices: Vec<Slice>, id: usize, r: Option<usize>)
    requires
        call_ensures(position_of, (&slices, id), r),
    ensures
        r matches Some(k) ==> first_held(slices@, id, k as int),
        r is None ==> none_held(slices@, id),
{
    lemma_first_held(slices@, id);
}

/// A slice is found on the page that is asked for, and it is the first that the handle holds
/// there. Without that page, the page is missing; without such a slice, the handle is invalid.
pub proof fn law_slices_are_found_on_their_page(
    table: PageTable,
    page: usize,
    id: usize,
    r: Result<&Slice, IoError>,
)
    requires
        call_ensures(PageTable::find, (&table, page, id), r),
    ensures
        r matches Ok(slice) ==> {
            &&& page_at(table@, page as int)
            &&& exists|k: int|
                first_held(table@[page as int]->0.slices, id, k)
                    && #[trigger] table@[page as int]->0.slices[k] == *slice
        },
        r matches Err(error) ==> {
            &&& !page_at(table@, page as int) ==> error == (IoError::NotFound {
                reason: Missing::Page { index: page },
            })
            &&& page_at(table@, page as int) ==> error == IoError::InvalidHandle && none_held(
                table@[page as int]->0.slices,
                id,
            )
        },
{
    if page_at(table@, page as int) {
        let slices = table@[page as int]->0.slices;
        lemma_first_held(slices, id);
        if r is Ok {
            let k = slice_of(slices, id)->0;
            assert(slices[k] == *(r->Ok_0));
        }
    }
}

/// Whether one slice has another handle and cursor, and nothing else changed.
pub open spec fn one_rebound(
    was: Seq<Option<PageView>>,
    now: Seq<Option<PageView>>,
    page: int,
    k: int,
    assigned: ManagedMemoryHandle,
    cursor: u64,
) -> bool {
    &&& now.len() == was.len()
    &&& page_at(now, page) && page_at(was, page)
    &&& forall|q: int| 0 <= q < was.len() && q != page ==> #[trigger] now[q] == was[q]
    &&& now[page]->0.storage == was[page]->0.storage
    &&& now[page]->0.slices.len() == was[page]->0.slices.len()
    &&& forall|n: int|
        0 <= n < was[page]->0.slices.len() && n != k ==> (#[trigger] now[page]->0.slices[n])
            == was[page]->0.slices[n]
    &&& now[page]->0.slices[k].handle == assigned
    &&& now[page]->0.slices[k].cursor == cursor
    &&& now[page]->0.slices[k].storage == was[page]->0.slices[k].storage
    &&& now[page]->0.slices[k].padding == was[page]->0.slices[k].padding
}

/// A slice that changes hands keeps its memory: the first that the handle holds on the page is
/// the other's from then on, at its cursor. Nothing else changes, and nothing does where there
/// is no such slice.
pub proof fn law_one_slice_changes_hands(
    table: &mut PageTable,
    page: usize,
    id: usize,
    assigned: ManagedMemoryHandle,
    cursor: u64,
    r: Result<(), IoError>,
)
    requires
        call_ensures(PageTable::bind, (table, page, id, assigned, cursor), r),
    ensures
        r is Ok ==> page_at(old(table)@, page as int) && exists|k: int|
            #[trigger] first_held(old(table)@[page as int]->0.slices, id, k) && one_rebound(
                old(table)@,
                final(table)@,
                page as int,
                k,
                assigned,
                cursor,
            ),
        r matches Err(error) ==> {
            &&& final(table)@ == old(table)@
            &&& error == IoError::InvalidHandle <==> page_at(old(table)@, page as int)
            &&& page_at(old(table)@, page as int) ==> none_held(
                old(table)@[page as int]->0.slices,
                id,
            )
        },
{
    if page_at(old(table)@, page as int) {
        let slices = old(table)@[page as int]->0.slices;
        lemma_first_held(slices, id);
        if r is Ok {
            let k = slice_of(slices, id)->0;
            assert(first_held(slices, id, k));
        }
    }
}

/// A slice of a pool that changes hands keeps its memory, and the pool keeps its rules.
pub proof fn law_pools_keep_what_changes_hands(
    pool: &mut MemoryPool,
    page: usize,
    id: usize,
    assigned: ManagedMemoryHandle,
    cursor: u64,
    r: Result<(), IoError>,
)
    requires
        old(pool)@.wf(),
        call_ensures(MemoryPool::bind, (pool, page, id, assigned, cursor), r),
    ensures
        final(pool)@.rules == old(pool)@.rules,
        final(pool)@.alignment == old(pool)@.alignment,
        r is Ok ==> page_at(old(pool)@.table, page as int) && exists|k: int|
            #[trigger] first_held(old(pool)@.table[page as int]->0.slices, id, k) && one_rebound(
                old(pool)@.table,
                final(pool)@.table,
                page as int,
                k,
                assigned,
                cursor,
            ),
        r is Err ==> final(pool)@ == old(pool)@,
        r is Err && page_at(old(pool)@.table, page as int) ==> none_held(
            old(pool)@.table[page as int]->0.slices,
            id,
        ),
{
    if page_at(old(pool)@.table, page as int) {
        let slices = old(pool)@.table[page as int]->0.slices;
        lemma_first_held(slices, id);
        if r is Ok {
            let k = slice_of(slices, id)->0;
            assert(first_held(slices, id, k));
        }
    }
}

/// A pool finds a slice on the page that is asked for, if the handle holds one there.
pub proof fn law_pools_find_on_the_page(
    pool: MemoryPool,
    page: usize,
    id: usize,
    r: Result<&Slice, IoError>,
)
    requires
        call_ensures(MemoryPool::find, (&pool, page, id), r),
    ensures
        r is Ok <==> page_at(pool@.table, page as int) && !none_held(
            pool@.table[page as int]->0.slices,
            id,
        ),
        r matches Ok(slice) ==> slice.handle.id() == id && exists|k: int|
            first_held(pool@.table[page as int]->0.slices, id, k)
                && #[trigger] pool@.table[page as int]->0.slices[k] == *slice,
{
    if page_at(pool@.table, page as int) {
        let slices = pool@.table[page as int]->0.slices;
        lemma_first_held(slices, id);
        if r is Ok {
            let k = slice_of(slices, id)->0;
            assert(slices[k] == *(r->Ok_0));
        }
    }
}

/// A page is idle exactly if it is there and all of its slices are free.
pub proof fn law_idle_pages_are_all_free(
    table: PageTable,
    free: Vec<Vec<bool>>,
    r: Vec<bool>,
    p: int,
)
    requires
        shaped(table@, flags(free@)),
        0 <= p < table@.len(),
        call_ensures(PageTable::idle_pages, (&table, &free), r),
    ensures
        r@.len() == table@.len(),
        r@[p] <==> page_at(table@, p) && (forall|k: int|
            0 <= k < free@[p]@.len() ==> #[trigger] free@[p]@[k]),
{
    assert(flags(free@)[p] == free@[p]@);
}

/// The pages that are taken leave a table, and the others stay where they are.
pub proof fn law_taken_pages_leave<S: ComputeStorage>(
    table: &mut PageTable,
    storage: &mut S,
    take: Vec<bool>,
    r: (),
    p: int,
)
    requires
        take.len() == old(table)@.len(),
        0 <= p < old(table)@.len(),
        call_ensures(PageTable::release::<S>, (table, storage, &take), r),
    ensures
        final(table)@.len() == old(table)@.len(),
        take@[p] ==> final(table)@[p] is None,
        !take@[p] ==> final(table)@[p] == old(table)@[p],
{
}

/// A new page goes to the first place without one, and behind all pages if there is none. The
/// other pages stay where they are.
pub proof fn law_new_pages_fill_the_first_gap(table: &mut PageTable, page: Page, at: usize)
    requires
        call_ensures(PageTable::add, (table, page), at),
    ensures
        page_at(final(table)@, at as int),
        final(table)@[at as int] == Some(page@),
        at <= old(table)@.len(),
        !page_at(old(table)@, at as int),
        forall|p: int| 0 <= p < at ==> #[trigger] page_at(old(table)@, p),
        forall|p: int|
            0 <= p < old(table)@.len() && p != at ==> #[trigger] final(table)@[p]
                == old(table)@[p],
        final(table)@.len() == if at == old(table)@.len() {
            old(table)@.len() + 1
        } else {
            old(table)@.len()
        },
{
    let t = old(table)@;
    let p = |i: int| t[i] is None;
    lemma_first_from(0, t.len() as int, p);
    assert forall|i: int| 0 <= i < at implies #[trigger] page_at(t, i) by {
        assert(!p(i));
    }
}

/// How many of the first `n` places have a page.
pub open spec fn pages_there(table: Seq<Option<PageView>>, n: nat) -> int
    decreases n,
{
    if n == 0 {
        0
    } else {
        pages_there(table, (n - 1) as nat) + if table[n - 1] is Some {
            1int
        } else {
            0int
        }
    }
}

proof fn lemma_pages_there(pool: crate::memory::pool::PoolView, n: nat)
    requires
        pool.wf(),
        pool.rules !is Sliced,
        n <= pool.table.len(),
    ensures
        crate::memory::usage::slices_in(pool.table, n) == pages_there(pool.table, n),
    decreases n,
{
    if n > 0 {
        lemma_pages_there(pool, (n - 1) as nat);
        if pool.table[n - 1] is Some {
            assert(pool.page_follows(pool.table[n - 1]->0));
        }
    }
}

/// A pool without sliced pages counts its pages, gaps left out.
pub proof fn law_pages_are_counted(pool: MemoryPool, r: u64)
    requires
        pool@.wf(),
        pool@.rules !is Sliced,
        call_ensures(MemoryPool::page_count, (&pool,), r),
    ensures
        r == pages_there(pool@.table, pool@.table.len()),
{
    lemma_pages_there(pool@, pool@.table.len());
}

} // verus!
