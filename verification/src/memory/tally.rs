//! What reservations add to the usage.

use vstd::prelude::*;

use crate::first::lemma_first_from;
use crate::memory::align::lemma_aligned_up;
use crate::memory::handle::ManagedMemoryHandle;
use crate::memory::history::{comes_to, History};
use crate::memory::model::{Liveness, MemoryView, Plan};
use crate::memory::page::{page_wf, shaped, slice_count, vacant, PageView, Slice};
use crate::memory::pool::{lemma_spot, PoolView};
use crate::memory::refill::{
    all_free_in, carried, fills, law_reserving_again_takes_no_storage, new_row, ordinary,
    taken_row,
};
use crate::memory::storage::StorageHandle;
use crate::memory::usage::{
    no_usage, slice_usage, slices_usage, slot_usage, slots_usage, table_usage, Usage,
};

verus! {

/// What slices count for is what their parts count for.
proof fn lemma_concat(a: Seq<Slice>, x: Seq<bool>, b: Seq<Slice>, y: Seq<bool>)
    requires
        a.len() == x.len(),
        b.len() == y.len(),
    ensures
        slices_usage(a + b, x + y, (a + b).len()) == slices_usage(a, x, a.len()).plus(
            slices_usage(b, y, b.len()),
        ),
    decreases b.len(),
{
    if b.len() == 0 {
        assert(a + b =~= a);
        assert(x + y =~= x);
    } else {
        let n = (a + b).len();
        lemma_concat(a, x, b.drop_last(), y.drop_last());
        lemma_same_slices(
            a + b,
            x + y,
            a + b.drop_last(),
            x + y.drop_last(),
            (n - 1) as nat,
        );
        lemma_same_slices(b, y, b.drop_last(), y.drop_last(), (b.len() - 1) as nat);
        assert((a + b)[n - 1] == b.last());
        assert((x + y)[n - 1] == y.last());
    }
}

proof fn lemma_same_slices(a: Seq<Slice>, x: Seq<bool>, b: Seq<Slice>, y: Seq<bool>, n: nat)
    requires
        n <= a.len(),
        n <= b.len(),
        n <= x.len(),
        n <= y.len(),
        forall|i: int| 0 <= i < n ==> #[trigger] a[i] == b[i] && x[i] == y[i],
    ensures
        slices_usage(a, x, n) == slices_usage(b, y, n),
    decreases n,
{
    if n > 0 {
        assert(a[n - 1] == b[n - 1]);
        lemma_same_slices(a, x, b, y, (n - 1) as nat);
    }
}

/// Free slices count for nothing.
proof fn lemma_free_slices(a: Seq<Slice>, x: Seq<bool>, n: nat)
    requires
        n <= x.len(),
        forall|i: int| 0 <= i < n ==> #[trigger] x[i],
    ensures
        slices_usage(a, x, n) == no_usage(),
    decreases n,
{
    if n > 0 {
        assert(x[n - 1]);
        lemma_free_slices(a, x, (n - 1) as nat);
    }
}

/// What a reservation of a size adds, besides a page.
pub open spec fn request(pool: PoolView, size: u64) -> Usage {
    Usage {
        number_allocs: 1,
        bytes_in_use: size as int,
        bytes_padding: pool.need(size) - size,
        bytes_reserved: 0,
    }
}

/// A page counts for one more request when one takes up free slices of it.
proof fn lemma_carved_usage(
    pool: PoolView,
    page: PageView,
    row: Seq<bool>,
    first: int,
    last: int,
    size: u64,
    now: u64,
    spare: ManagedMemoryHandle,
)
    requires
        row.len() == page.slices.len(),
        0 <= first <= last < page.slices.len(),
        forall|i: int| first <= i <= last ==> #[trigger] row[i],
        0 < pool.alignment,
        pool.need(size) <= u64::MAX,
    ensures
        slot_usage(
            Some(pool.carved(page, first, last, size, now, spare)),
            taken_row(pool, page, row, first, last, size),
        ) == slot_usage(Some(page), row).plus(request(pool, size)),
{
    lemma_aligned_up(size as int, pool.alignment as int);
    let cut = pool.carved(page, first, last, size, now, spare);
    let flags = taken_row(pool, page, row, first, last, size);
    let head = page.slices.take(first);
    let gone = page.slices.subrange(first, last + 1);
    let tail = page.slices.skip(last + 1);
    let hr = row.take(first);
    let gr = row.subrange(first, last + 1);
    let tr = row.skip(last + 1);
    assert(page.slices =~= (head + gone) + tail);
    assert(row =~= (hr + gr) + tr);
    lemma_concat(head + gone, hr + gr, tail, tr);
    lemma_concat(head, hr, gone, gr);
    assert forall|i: int| 0 <= i < gr.len() implies #[trigger] gr[i] by {
        assert(gr[i] == row[first + i]);
    }
    lemma_free_slices(gone, gr, gone.len());
    let n = cut.slices.len() - head.len() - tail.len();
    let middle = cut.slices.subrange(first, first + n);
    let mr = flags.subrange(first, first + n);
    assert(1 <= n <= 2 && flags.len() == cut.slices.len());
    assert(cut.slices =~= (head + middle) + tail);
    assert(flags =~= (hr + mr) + tr);
    lemma_concat(head + middle, hr + mr, tail, tr);
    lemma_concat(head, hr, middle, mr);
    assert(middle[0] == cut.slices[first] && mr[0] == flags[first]);
    if n == 2 {
        assert(mr[1] == flags[first + 1]);
    }
    lemma_middle(middle, mr);
}

/// Of a slice in use and perhaps a free one behind it only the first counts.
proof fn lemma_middle(slices: Seq<Slice>, row: Seq<bool>)
    requires
        1 <= slices.len() <= 2,
        row.len() == slices.len(),
        !row[0],
        row.len() == 2 ==> row[1],
    ensures
        slices_usage(slices, row, slices.len()) == slice_usage(slices[0], false),
{
    reveal_with_fuel(slices_usage, 3);
}

/// A table with another slot counts for what it counted for, with the difference of the slot.
proof fn lemma_slots_update(
    table: Seq<Option<PageView>>,
    free: Seq<Seq<bool>>,
    p: int,
    slot: Option<PageView>,
    row: Seq<bool>,
    more: Usage,
    n: nat,
)
    requires
        0 <= p < table.len(),
        free.len() == table.len(),
        n <= table.len(),
        slot_usage(slot, row) == slot_usage(table[p], free[p]).plus(more),
    ensures
        slots_usage(table.update(p, slot), free.update(p, row), n) == (if p < n {
            slots_usage(table, free, n).plus(more)
        } else {
            slots_usage(table, free, n)
        }),
    decreases n,
{
    if n > 0 {
        lemma_slots_update(table, free, p, slot, row, more, (n - 1) as nat);
    }
}

proof fn lemma_slots_push(
    table: Seq<Option<PageView>>,
    free: Seq<Seq<bool>>,
    slot: Option<PageView>,
    row: Seq<bool>,
    n: nat,
)
    requires
        free.len() == table.len(),
        n <= table.len(),
    ensures
        slots_usage(table.push(slot), free.push(row), n) == slots_usage(table, free, n),
    decreases n,
{
    if n > 0 {
        lemma_slots_push(table, free, slot, row, (n - 1) as nat);
    }
}

/// Pools of which one counts for more count for more by as much.
proof fn lemma_pools_update(
    m: MemoryView,
    live: Liveness,
    after: MemoryView,
    next: Liveness,
    k: int,
    more: Usage,
    n: nat,
)
    requires
        0 <= k < m.pools.len(),
        live.len() == m.pools.len(),
        next.len() == live.len(),
        after.pools.len() == m.pools.len(),
        n <= m.pools.len(),
        forall|j: int|
            0 <= j < m.pools.len() && j != k ==> (#[trigger] after.pools[j]) == m.pools[j]
                && next[j] == live[j],
        table_usage(after.pools[k].table, next[k]) == table_usage(
            m.pools[k].table,
            live[k],
        ).plus(more),
    ensures
        after.usage_upto(next, n) == (if k < n {
            m.usage_upto(live, n).plus(more)
        } else {
            m.usage_upto(live, n)
        }),
    decreases n,
{
    if n > 0 {
        lemma_pools_update(m, live, after, next, k, more, (n - 1) as nat);
        if n - 1 != k {
            assert(after.pools[n - 1] == m.pools[n - 1]);
        }
    }
}

/// What a reservation adds to the usage of all pools: its page, if it needs one, and what was
/// asked for.
pub open spec fn added(m: MemoryView, size: u64, live: Liveness) -> Usage {
    match m.plan(size, live) {
        Plan::Serve { pool, .. } => request(m.pools[pool], size),
        Plan::Grow { pool } => Usage {
            bytes_reserved: m.pools[pool].page_bytes(size),
            ..request(m.pools[pool], size)
        },
        Plan::TooBig => no_usage(),
    }
}

/// A reservation that succeeds and is held adds to the usage exactly what was asked for, with
/// its padding, and the page that it needed if it needed one.
pub proof fn law_reservation_adds_what_it_asks_for(
    m: MemoryView,
    size: u64,
    live: Liveness,
    handle: ManagedMemoryHandle,
    after: MemoryView,
    next: Liveness,
)
    requires
        m.wf(),
        m.shaped(live),
        m.reserved(size, live, Ok(handle), after),
        carried(m, size, live, next),
    ensures
        after.usage(next) == m.usage(live).plus(added(m, size, live)),
{
    lemma_first_from(0, m.dynamic(), |n: int| m.pools[n].accepts(size));
    match m.plan(size, live) {
        Plan::Serve { pool: k, spot } => {
            let pool = m.pools[k];
            assert(shaped(pool.table, live[k]));
            lemma_spot(pool, live[k], size);
            let page = pool.table[spot.page]->0;
            let row = live[k][spot.page];
            assert(pool.wf() && page_wf(page));
            assert(row.len() == slice_count(pool.table[spot.page]));
            let spare = choose|spare: ManagedMemoryHandle|
                after == #[trigger] m.with_served(k, spot, size, spare);
            let now = m.counted(size).reserve_count;
            lemma_carved_usage(pool, page, row, spot.first, spot.last, size, now, spare);
            lemma_slots_update(
                pool.table,
                live[k],
                spot.page,
                Some(pool.carved(page, spot.first, spot.last, size, now, spare)),
                taken_row(pool, page, row, spot.first, spot.last, size),
                request(pool, size),
                pool.table.len(),
            );
            lemma_pools_update(m, live, after, next, k, added(m, size, live), m.pools.len());
        },
        Plan::Grow { pool: k } => {
            let pool = m.pools[k];
            assert(pool.wf());
            assert(shaped(pool.table, live[k]));
            let table = pool.table;
            let v = vacant(table);
            lemma_first_from(0, table.len() as int, |i: int| table[i] is None);
            let (storage, spare) = choose|storage: StorageHandle, spare: ManagedMemoryHandle|
                {
                    &&& storage.offset == 0
                    &&& storage.size == pool.page_bytes(size)
                    &&& !m.allocated.contains(storage.id)
                    &&& after == (MemoryView {
                        allocated: m.allocated.insert(storage.id),
                        ..(#[trigger] m.with_miss(size).with_grown(
                            k,
                            storage,
                            size,
                            handle,
                            spare,
                        ))
                    })
                };
            let now = m.with_miss(size).reserve_count;
            let blank = pool.blank(storage, handle, now);
            let page = pool.carved(blank, 0, 0, size, now, spare);
            let row = new_row(pool, size);
            lemma_carved_usage(pool, blank, seq![true], 0, 0, size, now, spare);
            assert(taken_row(pool, blank, seq![true], 0, 0, size) =~= row);
            assert(slices_usage(blank.slices, seq![true], 1) == no_usage()) by {
                reveal_with_fuel(slices_usage, 2);
            }
            let more = added(m, size, live);
            assert(slot_usage(Some(blank), seq![true]) == Usage {
                bytes_reserved: pool.page_bytes(size),
                ..no_usage()
            });
            assert(slot_usage(Some(page), row) == no_usage().plus(more));
            if v < table.len() {
                assert(table[v] is None);
                lemma_slots_update(table, live[k], v, Some(page), row, more, table.len());
            } else {
                lemma_slots_push(table, live[k], Some(page), row, table.len());
            }
            lemma_pools_update(m, live, after, next, k, more, m.pools.len());
        },
        Plan::TooBig => {},
    }
}

/// The sum of sizes.
pub open spec fn total(sizes: Seq<u64>) -> int
    decreases sizes.len(),
{
    if sizes.len() == 0 {
        0
    } else {
        total(sizes.drop_last()) + sizes.last()
    }
}

/// Held reservations add up.
proof fn lemma_filled_usage(history: History, sizes: Seq<u64>, lives: Seq<Liveness>, t: int)
    requires
        fills(history, sizes, lives),
        0 <= t <= sizes.len(),
    ensures
        ({
            let before = history.states[0].usage(lives[0]);
            let after = history.states[t].usage(lives[t]);
            &&& after.number_allocs == before.number_allocs + t
            &&& after.bytes_in_use == before.bytes_in_use + total(sizes.take(t))
        }),
    decreases t,
{
    if t > 0 {
        lemma_filled_usage(history, sizes, lives, t - 1);
        lemma_fills_at(history, sizes, lives, t - 1);
        assert(sizes.take(t).drop_last() =~= sizes.take(t - 1));
        assert(sizes.take(t).last() == sizes[t - 1]);
    } else {
        assert(sizes.take(0) =~= Seq::<u64>::empty());
    }
}

/// One reservation of several that are held.
proof fn lemma_fills_at(history: History, sizes: Seq<u64>, lives: Seq<Liveness>, t: int)
    requires
        fills(history, sizes, lives),
        0 <= t < sizes.len(),
    ensures
        history.states[t].plan(sizes[t], lives[t]) !is TooBig,
        history.states[t + 1].usage(lives[t + 1]) == history.states[t].usage(lives[t]).plus(
            added(history.states[t], sizes[t], lives[t]),
        ),
{
    let m = history.states[t];
    let after = history.states[t + 1];
    assert(comes_to(m, history.calls[t], after));
    let handle = history.calls[t]->r->Ok_0;
    law_reservation_adds_what_it_asks_for(m, sizes[t], lives[t], handle, after, lives[t + 1]);
}

/// The pages of a table count for the same, whatever is free.
proof fn lemma_slots_reserved(
    table: Seq<Option<PageView>>,
    free: Seq<Seq<bool>>,
    other: Seq<Seq<bool>>,
    n: nat,
)
    requires
        n <= table.len(),
    ensures
        slots_usage(table, free, n).bytes_reserved == slots_usage(table, other, n).bytes_reserved,
    decreases n,
{
    if n > 0 {
        lemma_slots_reserved(table, free, other, (n - 1) as nat);
        if let Some(page) = table[n - 1] {
            lemma_slices_reserved(page.slices, free[n - 1], page.slices.len());
            lemma_slices_reserved(page.slices, other[n - 1], page.slices.len());
        }
    }
}

proof fn lemma_slices_reserved(slices: Seq<Slice>, row: Seq<bool>, n: nat)
    ensures
        slices_usage(slices, row, n).bytes_reserved == 0,
    decreases n,
{
    if n > 0 {
        lemma_slices_reserved(slices, row, (n - 1) as nat);
    }
}

proof fn lemma_pools_reserved(m: MemoryView, live: Liveness, other: Liveness, n: nat)
    requires
        n <= m.pools.len(),
    ensures
        m.usage_upto(live, n).bytes_reserved == m.usage_upto(other, n).bytes_reserved,
    decreases n,
{
    if n > 0 {
        lemma_pools_reserved(m, live, other, (n - 1) as nat);
        let table = m.pools[n - 1].table;
        lemma_slots_reserved(table, live[n - 1], other[n - 1], table.len());
    }
}

/// With every slice free nothing is in use.
proof fn lemma_none_in_use(m: MemoryView, live: Liveness, n: nat)
    requires
        all_free_in(m, live),
        n <= m.pools.len(),
    ensures
        m.usage_upto(live, n).number_allocs == 0,
        m.usage_upto(live, n).bytes_in_use == 0,
    decreases n,
{
    if n > 0 {
        lemma_none_in_use(m, live, (n - 1) as nat);
        let table = m.pools[n - 1].table;
        assert(shaped(table, live[n - 1]));
        assert forall|p: int, i: int|
            #![trigger live[n - 1][p][i]]
            0 <= p < table.len() && 0 <= i < live[n - 1][p].len() implies live[n - 1][p][i] by {}
        lemma_slots_free(table, live[n - 1], table.len());
    }
}

proof fn lemma_slots_free(table: Seq<Option<PageView>>, free: Seq<Seq<bool>>, n: nat)
    requires
        shaped(table, free),
        n <= table.len(),
        forall|p: int, i: int|
            #![trigger free[p][i]]
            0 <= p < table.len() && 0 <= i < free[p].len() ==> free[p][i],
    ensures
        slots_usage(table, free, n).number_allocs == 0,
        slots_usage(table, free, n).bytes_in_use == 0,
    decreases n,
{
    if n > 0 {
        lemma_slots_free(table, free, (n - 1) as nat);
        if let Some(page) = table[n - 1] {
            let row = free[n - 1];
            assert(row.len() == slice_count(table[n - 1]));
            assert forall|i: int| 0 <= i < row.len() implies #[trigger] row[i] by {
                assert(free[n - 1][i]);
            }
            lemma_free_slices(page.slices, row, page.slices.len());
        }
    }
}

/// Reserving the same sizes again, after everything was dropped, comes to the same usage: as
/// many reservations, as many bytes in use, and no more storage.
pub proof fn law_reserving_again_uses_the_same(
    one: History,
    first: Seq<Liveness>,
    two: History,
    second: Seq<Liveness>,
    sizes: Seq<u64>,
)
    requires
        fills(one, sizes, first),
        fills(two, sizes, second),
        forall|i: int| 0 <= i < sizes.len() ==> 0 < #[trigger] sizes[i],
        ordinary(one.states[0]),
        forall|k: int|
            0 <= k < one.states[0].pools.len() ==> (#[trigger] one.states[0].pools[k]).table.len()
                == 0,
        one.states[0].shaped(first[0]),
        two.states[0] == one.end(),
        all_free_in(two.states[0], second[0]),
    ensures
        ({
            let u1 = one.end().usage(first.last());
            let u2 = two.end().usage(second.last());
            &&& u2.number_allocs == u1.number_allocs
            &&& u2.bytes_in_use == u1.bytes_in_use
            &&& u2.bytes_reserved == u1.bytes_reserved
        }),
{
    let n = sizes.len() as int;
    let start = one.states[0];
    assert forall|k: int, p: int, i: int|
        #![trigger first[0][k][p][i]]
        0 <= k < first[0].len() && 0 <= p < first[0][k].len() && 0 <= i
            < first[0][k][p].len() implies first[0][k][p][i] by {
        assert(shaped(start.pools[k].table, first[0][k]));
        assert(start.pools[k].table.len() == 0);
    }
    lemma_none_in_use(start, first[0], start.pools.len());
    lemma_none_in_use(two.states[0], second[0], two.states[0].pools.len());
    lemma_filled_usage(one, sizes, first, n);
    lemma_filled_usage(two, sizes, second, n);
    lemma_pools_reserved(one.end(), first[n], second[0], one.end().pools.len());
    lemma_reserved_stays(one, first, two, second, sizes, n);
}

proof fn lemma_reserved_stays(
    one: History,
    first: Seq<Liveness>,
    two: History,
    second: Seq<Liveness>,
    sizes: Seq<u64>,
    t: int,
)
    requires
        fills(one, sizes, first),
        fills(two, sizes, second),
        forall|i: int| 0 <= i < sizes.len() ==> 0 < #[trigger] sizes[i],
        ordinary(one.states[0]),
        forall|k: int|
            0 <= k < one.states[0].pools.len() ==> (#[trigger] one.states[0].pools[k]).table.len()
                == 0,
        one.states[0].shaped(first[0]),
        two.states[0] == one.end(),
        all_free_in(two.states[0], second[0]),
        0 <= t <= sizes.len(),
    ensures
        two.states[t].usage(second[t]).bytes_reserved == two.states[0].usage(
            second[0],
        ).bytes_reserved,
    decreases t,
{
    if t > 0 {
        lemma_reserved_stays(one, first, two, second, sizes, t - 1);
        law_reserving_again_takes_no_storage(one, first, two, second, sizes, t - 1);
        lemma_fills_at(two, sizes, second, t - 1);
    }
}

} // verus!
