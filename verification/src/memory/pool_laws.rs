//! What pools take, where they place it, and what they give back.

use vstd::prelude::*;

use crate::first::lemma_first_from;
use crate::memory::align::{aligned_up, lemma_aligned_up, next_multiple_of, padding};
use crate::memory::handle::ManagedMemoryHandle;
use crate::memory::memory_pool::MemoryPool;
use crate::memory::page::{flags, shaped, table_owns, PageView, Slice};
use crate::memory::pool::{lemma_spot, run_fits, run_starts, PoolRules, PoolView};
use crate::memory::storage::{ComputeStorage, StorageHandle};

verus! {

/// Whether a number is the least multiple of an alignment that is no smaller than a size.
pub open spec fn least_multiple(size: int, alignment: int, n: int) -> bool {
    &&& n % alignment == 0
    &&& size <= n < size + alignment
}

/// There is one least multiple.
pub proof fn lemma_least_multiple(size: int, alignment: int, n: int)
    requires
        0 <= size,
        0 < alignment,
        least_multiple(size, alignment, n),
    ensures
        n == aligned_up(size, alignment),
{
    lemma_aligned_up(size, alignment);
    let m = aligned_up(size, alignment);
    vstd::arithmetic::div_mod::lemma_fundamental_div_mod(n, alignment);
    vstd::arithmetic::div_mod::lemma_fundamental_div_mod(m, alignment);
    let a = n / alignment;
    let b = m / alignment;
    assert(a == b) by (nonlinear_arith)
        requires
            n == alignment * a,
            m == alignment * b,
            -alignment < n - m < alignment,
            0 < alignment,
    ;
}

/// A size is rounded up to the least multiple of the alignment.
pub proof fn law_sizes_are_rounded_up(size: u64, alignment: u64, r: u64)
    requires
        0 < alignment,
        aligned_up(size as int, alignment as int) <= u64::MAX,
        call_ensures(next_multiple_of, (size, alignment), r),
    ensures
        least_multiple(size as int, alignment as int, r as int),
{
    lemma_aligned_up(size as int, alignment as int);
}

/// What a size is padded with makes it the least multiple of the alignment. It is not padded
/// exactly if that is no number there is.
pub proof fn law_padding_makes_a_multiple(size: u64, alignment: u64, r: Option<u64>, n: int)
    requires
        0 < alignment,
        call_ensures(padding, (size, alignment), r),
        least_multiple(size as int, alignment as int, n),
    ensures
        r matches Some(extra) ==> size + extra == n,
        r is None <==> n > u64::MAX,
{
    lemma_least_multiple(size as int, alignment as int, n);
}

/// A pool of sliced pages takes what is no larger than a slice may be and fits on a page once
/// it is aligned. One of exclusive pages takes what fits on a page, and anything below the
/// alignment; a persistent one takes what is no larger than it may be.
pub proof fn law_pools_take_what_fits(
    pool: MemoryPool,
    size: u64,
    r: bool,
    need: int,
    page: int,
)
    requires
        pool@.rules_wf(),
        call_ensures(MemoryPool::accept, (&pool, size), r),
        least_multiple(size as int, pool@.alignment as int, need),
        pool@.rules matches PoolRules::Sliced { page_size, .. } ==> least_multiple(
            page_size as int,
            pool@.alignment as int,
            page,
        ),
    ensures
        r <==> match pool@.rules {
            PoolRules::Sliced { max_slice_size, .. } => size <= max_slice_size && need <= page,
            PoolRules::Exclusive { max_alloc_size, .. } => size <= max_alloc_size || size
                < pool@.alignment,
            PoolRules::Persistent { max_alloc_size } => size <= max_alloc_size,
        },
{
    lemma_least_multiple(size as int, pool@.alignment as int, need);
    if let PoolRules::Sliced { page_size, .. } = pool@.rules {
        lemma_least_multiple(page_size as int, pool@.alignment as int, page);
    }
}

/// A new page of a sliced or exclusive pool is as large as all its pages, and no smaller than
/// the alignment where it is exclusive; one of a persistent pool is as large as what it is for.
/// There is none exactly if the aligned size does not fit, or is no number there is.
pub proof fn law_pages_are_as_large_as_the_rules_say(
    pool: MemoryPool,
    size: u64,
    r: Option<u64>,
    need: int,
    page: int,
)
    requires
        pool@.rules_wf(),
        call_ensures(MemoryPool::bytes_for, (&pool, size), r),
        least_multiple(size as int, pool@.alignment as int, need),
        match pool@.rules {
            PoolRules::Sliced { page_size, .. } => least_multiple(
                page_size as int,
                pool@.alignment as int,
                page,
            ),
            PoolRules::Exclusive { max_alloc_size, .. } => if max_alloc_size == 0 {
                page == pool@.alignment
            } else {
                least_multiple(max_alloc_size as int, pool@.alignment as int, page)
            },
            PoolRules::Persistent { .. } => page == need,
        },
    ensures
        r is Some <==> need <= u64::MAX && need <= page,
        r matches Some(bytes) ==> bytes == page,
{
    let alignment = pool@.alignment as int;
    lemma_least_multiple(size as int, alignment, need);
    match pool@.rules {
        PoolRules::Sliced { page_size, .. } => {
            lemma_least_multiple(page_size as int, alignment, page);
        },
        PoolRules::Exclusive { max_alloc_size, .. } => {
            lemma_aligned_up(max_alloc_size as int, alignment);
            if max_alloc_size == 0 {
                assert(0int % alignment == 0) by (nonlinear_arith)
                    requires
                        0 < alignment,
                ;
            } else {
                lemma_least_multiple(max_alloc_size as int, alignment, page);
                if page < alignment {
                    assert(page % alignment == page) by {
                        vstd::arithmetic::div_mod::lemma_small_mod(page as nat, alignment as nat);
                    }
                }
            }
        },
        PoolRules::Persistent { .. } => {},
    }
}

/// Where a slice starts on its page, and where it ends with its padding.
pub open spec fn bounds(slice: Slice) -> (int, int) {
    (
        slice.storage.offset as int,
        slice.storage.offset + slice.storage.size + slice.padding,
    )
}

/// Whether slices `a` to `b` of page `p` are free and hold so many bytes: on a sliced page
/// together, on an exclusive one the whole page, and on a persistent one exactly.
pub open spec fn room(
    pool: PoolView,
    free: Seq<Seq<bool>>,
    p: int,
    a: int,
    b: int,
    need: int,
) -> bool {
    &&& 0 <= p < pool.table.len()
    &&& pool.table[p] is Some
    &&& 0 <= a <= b < pool.table[p]->0.slices.len()
    &&& forall|k: int| a <= k <= b ==> #[trigger] free[p][k]
    &&& match pool.rules {
        PoolRules::Sliced { .. } => bounds(pool.table[p]->0.slices[b]).1 - bounds(
            pool.table[p]->0.slices[a],
        ).0 >= need,
        PoolRules::Exclusive { .. } => pool.table[p]->0.bytes >= need,
        PoolRules::Persistent { .. } => bounds(pool.table[p]->0.slices[0]).1 - bounds(
            pool.table[p]->0.slices[0],
        ).0 == need,
    }
}

/// Whether a spot is the first with room: no page before has any, no slice before on the page
/// starts one, and none that starts there is shorter.
pub open spec fn first_room(
    pool: PoolView,
    free: Seq<Seq<bool>>,
    p: int,
    a: int,
    b: int,
    need: int,
) -> bool {
    &&& room(pool, free, p, a, b, need)
    &&& forall|q: int, c: int, d: int| #[trigger]
        room(pool, free, q, c, d, need) ==> p < q || (p == q && (a < c || (a == c && b <= d)))
}

proof fn lemma_room_is_spot(pool: PoolView, free: Seq<Seq<bool>>, size: u64, p: int, a: int, b: int)
    requires
        pool.wf(),
        shaped(pool.table, free),
        pool.need(size) <= u64::MAX,
        room(pool, free, p, a, b, pool.need(size)),
    ensures
        pool.has_room(free, p, size),
        pool.rules is Sliced ==> {
            let found = pool.spot_in(pool.table[p]->0, free[p], pool.need(size))->0;
            found.0 < a || (found.0 == a && found.1 <= b)
        },
{
    let page = pool.table[p]->0;
    let need = pool.need(size);
    assert(pool.page_follows(page));
    assert(free[p].len() == page.slices.len());
    match pool.rules {
        PoolRules::Sliced { .. } => {
            let fits = |e: int| run_fits(page.slices, free[p], a, e, need);
            lemma_first_from(a, page.slices.len() as int, fits);
            assert(fits(b));
            let starts = |c: int| run_starts(page.slices, free[p], c, need);
            assert(starts(a));
            lemma_first_from(0, page.slices.len() as int, starts);
        },
        _ => {
            assert(free[p][0]);
        },
    }
}

proof fn lemma_spot_is_room(pool: PoolView, free: Seq<Seq<bool>>, size: u64)
    requires
        pool.wf(),
        shaped(pool.table, free),
    ensures
        pool.spot(free, size) matches Some(spot) ==> first_room(
            pool,
            free,
            spot.page,
            spot.first,
            spot.last,
            pool.need(size),
        ),
        pool.spot(free, size) is None && pool.need(size) <= u64::MAX ==> forall|
            q: int,
            c: int,
            d: int,
        |
            !(#[trigger] room(pool, free, q, c, d, pool.need(size))),
{
    let need = pool.need(size);
    lemma_aligned_up(size as int, pool.alignment as int);
    lemma_spot(pool, free, size);
    let roomy = |p: int| pool.has_room(free, p, size);
    lemma_first_from(0, pool.table.len() as int, roomy);
    match pool.spot(free, size) {
        Some(spot) => {
            let p = spot.page;
            let page = pool.table[p]->0;
            assert(pool.page_follows(page));
            assert(free[p].len() == page.slices.len());
            crate::memory::pool::lemma_spot_in(pool, page, free[p], need);
            assert(room(pool, free, p, spot.first, spot.last, need));
            assert forall|q: int, c: int, d: int| #[trigger]
                room(pool, free, q, c, d, need) implies p < q || (p == q && (spot.first < c || (
            spot.first == c && spot.last <= d))) by {
                lemma_room_is_spot(pool, free, size, q, c, d);
                assert(roomy(q));
                if q < p {
                    assert(!roomy(q));
                }
            }
        },
        None => {
            if need <= u64::MAX {
                assert forall|q: int, c: int, d: int| !(#[trigger] room(
                    pool,
                    free,
                    q,
                    c,
                    d,
                    need,
                )) by {
                    if room(pool, free, q, c, d, need) {
                        lemma_room_is_spot(pool, free, size, q, c, d);
                        assert(roomy(q));
                    }
                }
            }
        },
    }
}

/// A pool serves a reservation exactly if there is room for its aligned size, and from the
/// first spot with room. What is handed out is the handle of the first slice there.
pub proof fn law_first_room_is_taken(
    pool: &mut MemoryPool,
    size: u64,
    free: Vec<Vec<bool>>,
    now: u64,
    spare: ManagedMemoryHandle,
    r: Option<(ManagedMemoryHandle, usize)>,
    spotted: bool,
    need: int,
)
    requires
        old(pool)@.wf(),
        shaped(old(pool)@.table, flags(free@)),
        call_ensures(MemoryPool::has_spot, (&*old(pool), &free, size), spotted),
        call_ensures(MemoryPool::try_reserve, (pool, size, &free, now, spare), r),
        least_multiple(size as int, old(pool)@.alignment as int, need),
    ensures
        spotted <==> r is Some,
        r is None ==> final(pool)@ == old(pool)@ && (need > u64::MAX || forall|
            p: int,
            a: int,
            b: int,
        |
            !(#[trigger] room(old(pool)@, flags(free@), p, a, b, need))),
        r matches Some((handle, page)) ==> need <= u64::MAX && exists|a: int, b: int|
            #[trigger] first_room(old(pool)@, flags(free@), page as int, a, b, need) && handle
                == old(pool)@.table[page as int]->0.slices[a].handle,
{
    lemma_least_multiple(size as int, old(pool)@.alignment as int, need);
    lemma_spot_is_room(old(pool)@, flags(free@), size);
    lemma_spot(old(pool)@, flags(free@), size);
    if let Some((handle, page)) = r {
        let spot = old(pool)@.spot(flags(free@), size)->0;
        assert(first_room(
            old(pool)@,
            flags(free@),
            page as int,
            spot.first,
            spot.last,
            need,
        ));
    }
}

/// Whether a page is what a reservation leaves of it that took slices `a` to `b`: a slice of
/// the size asked for starts where they did, padded to the alignment; what is left of them on
/// a sliced page is one slice behind it; and the others are as they were.
pub open spec fn taken(
    rules: PoolRules,
    was: PageView,
    is_now: PageView,
    a: int,
    b: int,
    size: u64,
    need: int,
    spare: ManagedMemoryHandle,
) -> bool {
    let start = bounds(was.slices[a]).0;
    let over = bounds(was.slices[b]).1 - start - need;
    let cut = rules is Sliced && over > 0;
    let shift = b - a - (if cut {
        1int
    } else {
        0
    });
    let slice = is_now.slices[a];
    &&& is_now.storage == was.storage && is_now.bytes == was.bytes
    &&& is_now.slices.len() == was.slices.len() - shift
    &&& forall|k: int| 0 <= k < a ==> (#[trigger] is_now.slices[k]) == was.slices[k]
    &&& forall|k: int|
        b < k < was.slices.len() ==> is_now.slices[k - shift] == #[trigger] was.slices[k]
    &&& slice.handle == was.slices[a].handle
    &&& slice.storage.id == was.storage && slice.storage.offset == start
    &&& slice.storage.size == size && size + slice.padding == need && slice.cursor == 0
    &&& cut ==> {
        let rest = is_now.slices[a + 1];
        &&& rest.handle == (if a < b {
            was.slices[b].handle
        } else {
            spare
        })
        &&& rest.storage.id == was.storage
        &&& rest.storage.offset == start + need && rest.storage.size == over
        &&& rest.padding == 0 && rest.cursor == 0
    }
}

/// A reservation takes the slices that it was given and no others: bytes before and behind
/// them, other pages and the rules of the pool are as they were. The page was used now.
pub proof fn law_only_the_room_is_taken(
    pool: &mut MemoryPool,
    size: u64,
    free: Vec<Vec<bool>>,
    now: u64,
    spare: ManagedMemoryHandle,
    r: Option<(ManagedMemoryHandle, usize)>,
    need: int,
)
    requires
        old(pool)@.wf(),
        shaped(old(pool)@.table, flags(free@)),
        call_ensures(MemoryPool::try_reserve, (pool, size, &free, now, spare), r),
        least_multiple(size as int, old(pool)@.alignment as int, need),
        r is Some,
    ensures
        ({
            let p = (r->0).1 as int;
            let was = old(pool)@;
            let after = final(pool)@;
            &&& after.rules == was.rules && after.alignment == was.alignment
            &&& after.position == was.position
            &&& after.table.len() == was.table.len()
            &&& forall|q: int|
                0 <= q < was.table.len() && q != p ==> (#[trigger] after.table[q]) == was.table[q]
            &&& after.table[p] is Some && after.table[p]->0.last_used == now
            &&& exists|a: int, b: int|
                #[trigger] first_room(was, flags(free@), p, a, b, need) && taken(
                    was.rules,
                    was.table[p]->0,
                    after.table[p]->0,
                    a,
                    b,
                    size,
                    need,
                    spare,
                )
        }),
{
    let was = old(pool)@;
    let f = flags(free@);
    lemma_least_multiple(size as int, was.alignment as int, need);
    lemma_aligned_up(size as int, was.alignment as int);
    lemma_spot_is_room(was, f, size);
    lemma_spot(was, f, size);
    let spot = was.spot(f, size)->0;
    let page = was.table[spot.page]->0;
    assert(was.page_follows(page));
    assert(first_room(was, f, spot.page, spot.first, spot.last, need));
    lemma_carved(was, page, spot.first, spot.last, size, now, spare);
}

proof fn lemma_carved(
    pool: PoolView,
    page: PageView,
    a: int,
    b: int,
    size: u64,
    now: u64,
    spare: ManagedMemoryHandle,
)
    requires
        0 < pool.alignment,
        crate::memory::page::page_wf(page),
        0 <= a <= b < page.slices.len(),
        pool.need(size) <= u64::MAX,
        pool.rules is Sliced ==> bounds(page.slices[b]).1 - bounds(page.slices[a]).0 >= pool.need(
            size,
        ),
    ensures
        taken(
            pool.rules,
            page,
            pool.carved(page, a, b, size, now, spare),
            a,
            b,
            size,
            pool.need(size),
            spare,
        ),
{
    lemma_aligned_up(size as int, pool.alignment as int);
    let after = pool.carved(page, a, b, size, now, spare);
    assert(page.slices[b].end() <= page.bytes);
    assert(page.slices[a].end() <= page.bytes);
}

/// A new page is put where the first one is missing, or behind the others, and its first bytes
/// are the reservation. The pages that were there are as they were.
pub proof fn law_new_page_begins_with_the_reservation(
    pool: &mut MemoryPool,
    storage: StorageHandle,
    size: u64,
    now: u64,
    handle: ManagedMemoryHandle,
    spare: ManagedMemoryHandle,
    at: usize,
    need: int,
)
    requires
        old(pool)@.wf(),
        old(pool)@.can_hold(size),
        storage.size == old(pool)@.page_bytes(size),
        storage.offset == 0,
        !table_owns(old(pool)@.table, storage.id),
        call_ensures(MemoryPool::grow, (pool, storage, size, now, handle, spare), at),
        least_multiple(size as int, old(pool)@.alignment as int, need),
    ensures
        ({
            let was = old(pool)@.table;
            let after = final(pool)@.table;
            let page = after[at as int]->0;
            &&& at <= was.len() && at < after.len() && after[at as int] is Some
            &&& at < was.len() ==> was[at as int] is None && after.len() == was.len()
            &&& at == was.len() ==> after.len() == was.len() + 1
            &&& forall|q: int| 0 <= q < at ==> (#[trigger] was[q]) is Some
            &&& forall|q: int| 0 <= q < was.len() && q != at ==> (#[trigger] after[q]) == was[q]
            &&& page.storage == storage.id && page.bytes == storage.size && page.last_used == now
            &&& page.slices[0].handle == handle
            &&& bounds(page.slices[0]).0 == 0 && bounds(page.slices[0]).1 == need
            &&& page.slices[0].storage.size == size && page.slices[0].storage.id == storage.id
            &&& page.slices.len() == (if old(pool)@.rules is Sliced && need < storage.size {
                2int
            } else {
                1
            })
            &&& page.slices.len() == 2 ==> page.slices[1].handle == spare && bounds(
                page.slices[1],
            ).0 == need && bounds(page.slices[1]).1 == storage.size
        }),
{
    let was = old(pool)@;
    lemma_least_multiple(size as int, was.alignment as int, need);
    lemma_aligned_up(size as int, was.alignment as int);
    let empty = |i: int| was.table[i] is None;
    lemma_first_from(0, was.table.len() as int, empty);
    assert forall|q: int| 0 <= q < at implies (#[trigger] was.table[q]) is Some by {
        assert(!empty(q));
    }
}

/// A pool is asked for a size that it has exactly if some slice takes as many bytes as the
/// aligned size, padding included.
pub proof fn law_size_is_there_if_a_slice_has_it(
    pool: MemoryPool,
    size: u64,
    r: bool,
    need: int,
    p: int,
    k: int,
)
    requires
        pool@.wf(),
        call_ensures(MemoryPool::has_size, (&pool, size), r),
        least_multiple(size as int, pool@.alignment as int, need),
    ensures
        0 <= p < pool@.table.len() && pool@.table[p] is Some && 0 <= k
            < pool@.table[p]->0.slices.len() && bounds(pool@.table[p]->0.slices[k]).1 - bounds(
            pool@.table[p]->0.slices[k],
        ).0 == need ==> r,
        r ==> exists|q: int, j: int|
            0 <= q < pool@.table.len() && pool@.table[q] is Some && 0 <= j
                < pool@.table[q]->0.slices.len() && bounds(
                #[trigger] pool@.table[q]->0.slices[j],
            ).1 - bounds(pool@.table[q]->0.slices[j]).0 == need,
{
    lemma_least_multiple(size as int, pool@.alignment as int, need);
    if 0 <= p < pool@.table.len() && pool@.table[p] is Some && 0 <= k
        < pool@.table[p]->0.slices.len() && bounds(pool@.table[p]->0.slices[k]).1 - bounds(
        pool@.table[p]->0.slices[k],
    ).0 == need {
        assert(pool@.table[p]->0.slices[k].effective_size() == pool@.need(size));
    }
    if r {
        let (q, j) = choose|q: int, j: int|
            0 <= q < pool@.table.len() && pool@.table[q] is Some && 0 <= j
                < pool@.table[q]->0.slices.len() && (
            #[trigger] pool@.table[q]->0.slices[j]).effective_size() == pool@.need(size);
        let slice = pool@.table[q]->0.slices[j];
        assert(bounds(slice).1 - bounds(slice).0 == need);
    }
}

/// A cleanup gives a page back exactly if no slice of it is in use, and either it is asked for
/// or the page is exclusive and has not been used for longer than its period. A page that is in
/// use was used now; nothing else of the pages that stay changes.
pub proof fn law_cleanup_gives_idle_pages_back<S: ComputeStorage>(
    pool: &mut MemoryPool,
    storage: &mut S,
    free: Vec<Vec<bool>>,
    now: u64,
    explicit: bool,
    r: (),
    p: int,
)
    requires
        old(pool)@.wf(),
        shaped(old(pool)@.table, flags(free@)),
        call_ensures(MemoryPool::cleanup::<S>, (pool, storage, &free, now, explicit), r),
        0 <= p < old(pool)@.table.len(),
        old(pool)@.table[p] is Some,
    ensures
        final(pool)@.table.len() == old(pool)@.table.len(),
        ({
            let was = old(pool)@.table[p]->0;
            let after = final(pool)@.table[p];
            let row = flags(free@)[p];
            let unused = forall|k: int| 0 <= k < row.len() ==> #[trigger] row[k];
            let overdue = old(pool)@.rules matches PoolRules::Exclusive { dealloc_period, .. }
                && now > was.last_used + dealloc_period;
            &&& after is None <==> unused && (explicit || overdue)
            &&& after matches Some(page) ==> {
                &&& page.slices == was.slices && page.storage == was.storage
                &&& page.bytes == was.bytes
                &&& page.last_used == (if unused {
                    was.last_used
                } else {
                    now
                })
            }
        }),
        final(pool)@.rules == old(pool)@.rules,
        final(pool)@.alignment == old(pool)@.alignment,
{
}

} // verus!
