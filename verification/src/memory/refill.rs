//! What becomes of reservations that are all dropped and made again.

use vstd::prelude::*;

use crate::first::{first_where, lemma_first_from, lemma_first_is, lemma_first_none};
use crate::memory::align::lemma_aligned_up;
use crate::memory::handle::ManagedMemoryHandle;
use crate::memory::history::{comes_to, Call, History};
use crate::memory::model::{Liveness, MemoryView, Plan};
use crate::memory::options::MemoryAllocationMode;
use crate::memory::page::{page_wf, shaped, slice_count, vacant, PageView};
use crate::memory::pool::{abuts, lemma_spot, lemma_spot_in, run_fits, run_starts, PoolView};
use crate::memory::storage::StorageHandle;

verus! {

/// The flags of a page after a reservation took up slices `first` to `last` of it: what it
/// took is in use, and what is left over is free.
pub open spec fn taken_row(
    pool: PoolView,
    page: PageView,
    row: Seq<bool>,
    first: int,
    last: int,
    size: u64,
) -> Seq<bool> {
    let over = page.slices[last].end() - page.slices[first].start() - pool.need(size);
    let middle = if pool.rules is Sliced && over > 0 {
        seq![false, true]
    } else {
        seq![false]
    };
    row.take(first) + middle + row.skip(last + 1)
}

/// The flags of a new page.
pub open spec fn new_row(pool: PoolView, size: u64) -> Seq<bool> {
    if pool.rules is Sliced && pool.page_bytes(size) - pool.need(size) > 0 {
        seq![false, true]
    } else {
        seq![false]
    }
}

/// Whether flags are what they were before a reservation, with what it handed out in use and
/// nothing else changed.
pub open spec fn carried(m: MemoryView, size: u64, live: Liveness, next: Liveness) -> bool {
    match m.plan(size, live) {
        Plan::Serve { pool, spot } => next == live.update(
            pool,
            live[pool].update(
                spot.page,
                taken_row(
                    m.pools[pool],
                    m.pools[pool].table[spot.page]->0,
                    live[pool][spot.page],
                    spot.first,
                    spot.last,
                    size,
                ),
            ),
        ),
        Plan::Grow { pool } => {
            let v = vacant(m.pools[pool].table);
            let row = new_row(m.pools[pool], size);
            next == live.update(
                pool,
                if v < live[pool].len() {
                    live[pool].update(v, row)
                } else {
                    live[pool].push(row)
                },
            )
        },
        Plan::TooBig => next == live,
    }
}

/// Reservations of these sizes, one after another, each of which succeeds and is held: what
/// is free is what was free at first, without what was handed out since.
pub open spec fn fills(history: History, sizes: Seq<u64>, lives: Seq<Liveness>) -> bool {
    &&& history.happens()
    &&& history.calls.len() == sizes.len()
    &&& lives.len() == sizes.len() + 1
    &&& forall|t: int|
        #![trigger history.calls[t]]
        0 <= t < sizes.len() ==> {
            &&& history.calls[t] matches Call::Reserve { size, live, r }
            &&& size == sizes[t]
            &&& live == lives[t]
            &&& r is Ok
            &&& carried(history.states[t], size, live, lives[t + 1])
        }
}

/// Whether ordinary reservations go to the pools that serve them: the arena is closed, and
/// persistent memory is neither asked for nor there.
pub open spec fn ordinary(m: MemoryView) -> bool {
    &&& !m.arena_active
    &&& m.mode == MemoryAllocationMode::Auto
    &&& m.pools[m.persistent_at()].table.len() == 0
}

/// Whether every slice is free.
pub open spec fn all_free_in(m: MemoryView, live: Liveness) -> bool {
    &&& m.shaped(live)
    &&& forall|k: int, p: int, i: int|
        #![trigger live[k][p][i]]
        0 <= k < live.len() && 0 <= p < live[k].len() && 0 <= i < live[k][p].len()
            ==> live[k][p][i]
}

/// Whether a pool fills its pages from the left: every slot has a page, and on a page that is
/// cut up nothing in use lies behind something free.
pub open spec fn stacked(pool: PoolView, free: Seq<Seq<bool>>) -> bool {
    &&& pool.wf()
    &&& pool.rules !is Persistent
    &&& shaped(pool.table, free)
    &&& forall|p: int| 0 <= p < pool.table.len() ==> (#[trigger] pool.table[p]) is Some
    &&& forall|p: int, i: int, j: int|
        #![trigger free[p][i], free[p][j]]
        0 <= p < free.len() && 0 <= i < j < free[p].len() && free[p][i] ==> free[p][j]
}

/// How far a page is filled.
pub open spec fn level(pool: PoolView, page: PageView, row: Seq<bool>) -> int {
    match first_where(row.len(), |i: int| row[i]) {
        Some(i) => page.slices[i].start(),
        None => pool.page_bytes(0),
    }
}

/// How far every page is filled.
pub open spec fn levels(pool: PoolView, free: Seq<Seq<bool>>) -> Seq<int> {
    Seq::new(pool.table.len(), |p: int| level(pool, pool.table[p]->0, free[p]))
}

/// How far a page is filled after a reservation.
pub open spec fn raised(pool: PoolView, was: int, size: u64) -> int {
    if pool.rules is Sliced {
        was + pool.need(size)
    } else {
        pool.page_bytes(0)
    }
}

/// Whether a page that is filled so far has room.
pub open spec fn leaves_room(pool: PoolView, filled: Seq<int>, size: u64, p: int) -> bool {
    filled[p] + pool.need(size) <= pool.page_bytes(0)
}

/// The first page with room.
pub open spec fn first_fit(pool: PoolView, filled: Seq<int>, size: u64) -> Option<int> {
    first_where(filled.len(), |p: int| leaves_room(pool, filled, size, p))
}

proof fn lemma_row(row: Seq<bool>)
    ensures
        match first_where(row.len(), |i: int| row[i]) {
            Some(i) => 0 <= i < row.len() && row[i] && forall|j: int| 0 <= j < i ==> !row[j],
            None => forall|j: int| 0 <= j < row.len() ==> !row[j],
        },
{
    let free = |i: int| row[i];
    lemma_first_from(0, row.len() as int, free);
    match first_where(row.len(), free) {
        Some(i) => {
            assert forall|j: int| 0 <= j < i implies !row[j] by {
                assert(!free(j));
            }
        },
        None => {
            assert forall|j: int| 0 <= j < row.len() implies !row[j] by {
                assert(!free(j));
            }
        },
    }
}

/// A page has room exactly when it is not filled too far; and then a reservation begins where
/// the page is filled to.
proof fn lemma_page_room(pool: PoolView, free: Seq<Seq<bool>>, size: u64, p: int)
    requires
        stacked(pool, free),
        0 < size,
        pool.can_hold(size),
        0 <= p < pool.table.len(),
    ensures
        pool.has_room(free, p, size) == leaves_room(pool, levels(pool, free), size, p),
        pool.has_room(free, p, size) ==> {
            let (first, last) = pool.spot_in(pool.table[p]->0, free[p], pool.need(size))->0;
            &&& first_where(free[p].len(), |i: int| free[p][i]) == Some(first)
            &&& 0 <= first <= last < free[p].len()
        },
{
    let page = pool.table[p]->0;
    let row = free[p];
    let need = pool.need(size);
    assert(pool.page_follows(page) && page_wf(page));
    assert(row.len() == slice_count(pool.table[p]));
    lemma_aligned_up(size as int, pool.alignment as int);
    lemma_row(row);
    lemma_spot_in(pool, page, row, need);
    let n = page.slices.len() as int;
    let starts = |a: int| run_starts(page.slices, row, a, need);
    match pool.rules {
        crate::memory::pool::PoolRules::Sliced { .. } => {
            lemma_first_from(0, n, starts);
            match first_where(row.len(), |i: int| row[i]) {
                Some(f) => {
                    assert forall|a: int| 0 <= a < f implies !(#[trigger] starts(a)) by {
                        lemma_first_from(a, n, |b: int| run_fits(page.slices, row, a, b, need));
                        assert(!row[a]);
                    }
                    let fits = |b: int| run_fits(page.slices, row, f, b, need);
                    lemma_first_from(f, n, fits);
                    assert forall|k: int| f <= k < n implies #[trigger] row[k] by {
                        if k > f {
                            assert(free[p][f] ==> free[p][k]);
                        }
                    }
                    if page.slices[f].start() + need <= page.bytes {
                        assert(fits(n - 1));
                        assert(starts(f));
                        lemma_first_is(page.slices.len(), starts, f);
                    } else {
                        assert forall|a: int| 0 <= a < n implies !(#[trigger] starts(a)) by {
                            lemma_first_from(a, n, |b: int| run_fits(page.slices, row, a, b, need));
                            if a >= f {
                                if a > f {
                                    assert(page.slices[f].end() <= page.slices[a].start());
                                }
                                assert forall|b: int| a <= b < n implies !run_fits(
                                    page.slices,
                                    row,
                                    a,
                                    b,
                                    need,
                                ) by {
                                    assert(page.slices[b].end() <= page.bytes);
                                }
                            }
                        }
                        lemma_first_none(page.slices.len(), starts);
                    }
                },
                None => {
                    assert forall|a: int| 0 <= a < n implies !(#[trigger] starts(a)) by {
                        lemma_first_from(a, n, |b: int| run_fits(page.slices, row, a, b, need));
                        assert(!row[a]);
                    }
                    lemma_first_none(page.slices.len(), starts);
                },
            }
        },
        _ => {
            assert(row.len() == 1);
            assert(pool.page_bytes(size) == pool.page_bytes(0));
        },
    }
}

/// The first page with room is the first that is not filled too far.
proof fn lemma_first_fit(pool: PoolView, free: Seq<Seq<bool>>, size: u64)
    requires
        stacked(pool, free),
        0 < size,
        pool.can_hold(size),
    ensures
        match pool.spot(free, size) {
            Some(spot) => first_fit(pool, levels(pool, free), size) == Some(spot.page),
            None => first_fit(pool, levels(pool, free), size) is None,
        },
{
    let filled = levels(pool, free);
    let room = |p: int| pool.has_room(free, p, size);
    let fits = |p: int| leaves_room(pool, filled, size, p);
    lemma_first_from(0, pool.table.len() as int, room);
    assert forall|p: int| 0 <= p < pool.table.len() implies #[trigger] room(p) == fits(p) by {
        lemma_page_room(pool, free, size, p);
    }
    match first_where(pool.table.len(), room) {
        Some(p) => {
            assert forall|q: int| 0 <= q < p implies !(#[trigger] fits(q)) by {
                assert(!room(q));
            }
            assert(room(p) == fits(p));
            lemma_first_is(filled.len(), fits, p);
        },
        None => {
            assert forall|q: int| 0 <= q < filled.len() implies !(#[trigger] fits(q)) by {
                assert(!room(q));
            }
            lemma_first_none(filled.len(), fits);
        },
    }
}

/// Taking up a spot raises the level of its page, and of no other.
proof fn lemma_served_levels(
    pool: PoolView,
    free: Seq<Seq<bool>>,
    size: u64,
    now: u64,
    spare: ManagedMemoryHandle,
)
    requires
        stacked(pool, free),
        0 < size,
        pool.can_hold(size),
        pool.spot(free, size) is Some,
    ensures
        ({
            let spot = pool.spot(free, size)->0;
            let after = pool.with_taken(spot, size, now, spare);
            let page = pool.table[spot.page]->0;
            let next = free.update(
                spot.page,
                taken_row(pool, page, free[spot.page], spot.first, spot.last, size),
            );
            &&& after.wf() ==> stacked(after, next)
            &&& after.wf() ==> levels(after, next) == levels(pool, free).update(
                spot.page,
                raised(pool, levels(pool, free)[spot.page], size),
            )
        }),
{
    let spot = pool.spot(free, size)->0;
    let p = spot.page;
    let after = pool.with_taken(spot, size, now, spare);
    lemma_spot(pool, free, size);
    lemma_page_room(pool, free, size, p);
    lemma_aligned_up(size as int, pool.alignment as int);
    let page = pool.table[p]->0;
    let row = free[p];
    let f = spot.first;
    let last = spot.last;
    let flags = taken_row(pool, page, row, f, last, size);
    let next = free.update(p, flags);
    if after.wf() {
        let cut = after.table[p]->0;
        assert(pool.page_follows(page) && after.page_follows(cut));
        assert(page_wf(page) && page_wf(cut));
        assert(row.len() == slice_count(pool.table[p]));
        lemma_row(row);
        lemma_row(flags);
        lemma_spot_in(pool, page, row, pool.need(size));
        assert(flags.len() == cut.slices.len());
        assert forall|i: int| 0 <= i < f implies !flags[i] by {
            assert(flags[i] == row[i]);
        }
        assert(!flags[f]);
        let shift = flags.len() - row.len();
        assert forall|i: int| f < i < flags.len() implies flags[i] by {
            if pool.rules is Sliced {
                let middle = flags.len() - (row.len() - last - 1);
                if i >= middle {
                    assert(flags[i] == row[i - shift]);
                    assert(row[f] ==> row[i - shift]);
                }
            }
        }
        assert forall|q: int, i: int, j: int|
            #![trigger next[q][i], next[q][j]]
            0 <= q < next.len() && 0 <= i < j < next[q].len() && next[q][i] implies next[q][j] by {
            if q != p {
                assert(free[q][i] ==> free[q][j]);
            }
        }
        assert(shaped(after.table, next)) by {
            assert forall|q: int| 0 <= q < after.table.len() implies (#[trigger] next[q]).len()
                == slice_count(after.table[q]) by {
                if q != p {
                    assert(free[q].len() == slice_count(pool.table[q]));
                }
            }
        }
        let was = levels(pool, free);
        let now_at = level(after, cut, flags);
        assert(now_at == raised(pool, was[p], size)) by {
            if pool.rules is Sliced {
                if f + 1 < flags.len() {
                    let open = |i: int| flags[i];
                    assert forall|i: int| 0 <= i < f + 1 implies !(#[trigger] open(i)) by {}
                    assert(open(f + 1));
                    lemma_first_is(flags.len(), open, f + 1);
                    assert(abuts(cut.slices, f + 1));
                    assert(cut.slices[f].start() == page.slices[f].start());
                    assert(cut.slices[f].effective_size() == pool.need(size));
                } else {
                    let open = |i: int| flags[i];
                    assert forall|i: int| 0 <= i < flags.len() implies !(#[trigger] open(i)) by {}
                    lemma_first_none(flags.len(), open);
                    assert(cut.slices.last().end() == cut.bytes);
                    assert(cut.slices[f].effective_size() == pool.need(size));
                }
            } else {
                assert(flags.len() == 1);
                let open = |i: int| flags[i];
                assert forall|i: int| 0 <= i < flags.len() implies !(#[trigger] open(i)) by {}
                lemma_first_none(flags.len(), open);
            }
        }
        assert(levels(after, next) =~= was.update(p, raised(pool, was[p], size)));
    }
}

/// A new page is filled as far as the reservation goes that it was allocated for.
proof fn lemma_grown_levels(
    pool: PoolView,
    free: Seq<Seq<bool>>,
    storage: StorageHandle,
    size: u64,
    now: u64,
    handle: ManagedMemoryHandle,
    spare: ManagedMemoryHandle,
)
    requires
        stacked(pool, free),
        0 < size,
        pool.can_hold(size),
        storage.offset == 0,
        storage.size == pool.page_bytes(size),
    ensures
        vacant(pool.table) == pool.table.len(),
        ({
            let after = pool.with_grown(storage, size, now, handle, spare);
            let next = free.push(new_row(pool, size));
            &&& after.wf() ==> stacked(after, next)
            &&& after.wf() ==> levels(after, next) == levels(pool, free).push(
                raised(pool, 0, size),
            )
        }),
{
    let table = pool.table;
    let gone = |i: int| table[i] is None;
    assert forall|i: int| 0 <= i < table.len() implies !(#[trigger] gone(i)) by {
        assert(table[i] is Some);
    }
    lemma_first_none(table.len(), gone);
    let n = table.len() as int;
    let after = pool.with_grown(storage, size, now, handle, spare);
    let row = new_row(pool, size);
    let next = free.push(row);
    lemma_aligned_up(size as int, pool.alignment as int);
    if after.wf() {
        let page = after.table[n]->0;
        assert(after.table[n] is Some);
        assert(after.page_follows(page));
        assert(pool.page_bytes(size) == pool.page_bytes(0));
        assert(page.slices.len() == row.len());
        assert(shaped(after.table, next)) by {
            assert forall|q: int| 0 <= q < after.table.len() implies (#[trigger] next[q]).len()
                == slice_count(after.table[q]) by {
                if q < n {
                    assert(free[q].len() == slice_count(pool.table[q]));
                }
            }
        }
        assert forall|p: int| 0 <= p < after.table.len() implies (
        #[trigger] after.table[p]) is Some by {
            if p < n {
                assert(table[p] is Some);
            }
        }
        assert forall|q: int, i: int, j: int|
            #![trigger next[q][i], next[q][j]]
            0 <= q < next.len() && 0 <= i < j < next[q].len() && next[q][i] implies next[q][j] by {
            if q < n {
                assert(free[q][i] ==> free[q][j]);
            }
        }
        let open = |i: int| row[i];
        if row.len() == 2 {
            assert forall|i: int| 0 <= i < 1 implies !(#[trigger] open(i)) by {}
            assert(open(1));
            lemma_first_is(row.len(), open, 1);
        } else {
            assert forall|i: int| 0 <= i < row.len() implies !(#[trigger] open(i)) by {}
            lemma_first_none(row.len(), open);
        }
        assert(level(after, page, row) == raised(pool, 0, size));
        assert(levels(after, next) =~= levels(pool, free).push(raised(pool, 0, size)));
    }
}

/// Whether every pool that serves ordinary reservations fills its pages from the left.
pub open spec fn all_stacked(m: MemoryView, live: Liveness) -> bool {
    forall|k: int| 0 <= k < m.dynamic() ==> stacked(#[trigger] m.pools[k], live[k])
}

/// The levels of a pool after a reservation goes to it.
pub open spec fn filled_by(pool: PoolView, filled: Seq<int>, size: u64) -> Seq<int> {
    match first_fit(pool, filled, size) {
        Some(p) => filled.update(p, raised(pool, filled[p], size)),
        None => filled.push(raised(pool, 0, size)),
    }
}

/// Which pool an ordinary reservation goes to.
pub open spec fn taker(m: MemoryView, size: u64) -> Option<int> {
    first_where(m.dynamic() as nat, |k: int| m.pools[k].accepts(size))
}

/// What an ordinary reservation does to the levels.
proof fn lemma_fill_step(
    m: MemoryView,
    size: u64,
    live: Liveness,
    handle: ManagedMemoryHandle,
    after: MemoryView,
    next: Liveness,
)
    requires
        m.wf(),
        after.wf(),
        ordinary(m),
        m.shaped(live),
        all_stacked(m, live),
        0 < size,
        m.reserved(size, live, Ok(handle), after),
        carried(m, size, live, next),
    ensures
        taker(m, size) matches Some(k) && {
            &&& 0 <= k < m.dynamic()
            &&& m.pools[k].can_hold(size)
            &&& ordinary(after)
            &&& all_stacked(after, next)
            &&& after.pools.len() == m.pools.len()
            &&& next.len() == live.len()
            &&& forall|j: int|
                0 <= j < m.pools.len() && j != k ==> (#[trigger] after.pools[j]) == m.pools[j]
                    && next[j] == live[j]
            &&& after.pools[k].rules == m.pools[k].rules
            &&& after.pools[k].alignment == m.pools[k].alignment
            &&& levels(after.pools[k], next[k]) == filled_by(
                m.pools[k],
                levels(m.pools[k], live[k]),
                size,
            )
            &&& m.plan(size, live) is Serve <==> first_fit(
                m.pools[k],
                levels(m.pools[k], live[k]),
                size,
            ) is Some
        },
{
    let persistent = m.pools[m.persistent_at()];
    lemma_first_none(
        persistent.table.len(),
        |p: int| persistent.has_room(live[m.persistent_at()], p, size),
    );
    assert(m.route(size, live) == taker(m, size));
    lemma_first_from(0, m.dynamic(), |k: int| m.pools[k].accepts(size));
    let k = taker(m, size)->0;
    let pool = m.pools[k];
    assert(stacked(pool, live[k]));
    assert(m.plan(size, live) !is TooBig);
    match m.plan(size, live) {
        Plan::Serve { spot, .. } => {
            lemma_spot(pool, live[k], size);
            let page = pool.table[spot.page]->0;
            assert(pool.page_follows(page));
            lemma_aligned_up(size as int, pool.alignment as int);
            assert(live[k][spot.page].len() == slice_count(pool.table[spot.page]));
            lemma_spot_in(pool, page, live[k][spot.page], pool.need(size));
            assert(pool.page_bytes(size) == pool.page_bytes(0));
            lemma_first_fit(pool, live[k], size);
            let spare = choose|spare: ManagedMemoryHandle|
                after == #[trigger] m.with_served(k, spot, size, spare);
            let now = m.counted(size).reserve_count;
            lemma_served_levels(pool, live[k], size, now, spare);
            assert(after.pools[k] == pool.with_taken(spot, size, now, spare));
            assert(after.pools[k].wf());
        },
        Plan::Grow { .. } => {
            lemma_first_fit(pool, live[k], size);
            let (storage, spare) = choose|storage: StorageHandle, spare: ManagedMemoryHandle|
                {
                    &&& storage.offset == 0
                    &&& storage.size == pool.page_bytes(size)
                    &&& !m.allocated.contains(storage.id)
                    &&& after == (MemoryView {
                        allocated: m.allocated.insert(storage.id),
                        ..(#[trigger] m.with_miss(size).with_grown(
                            k,
                            storage,
                            size,
                            handle,
                            spare,
                        ))
                    })
                };
            let now = m.with_miss(size).reserve_count;
            lemma_grown_levels(pool, live[k], storage, size, now, handle, spare);
            assert(after.pools[k] == pool.with_grown(storage, size, now, handle, spare));
            assert(after.pools[k].wf());
        },
        Plan::TooBig => {},
    }
    assert forall|j: int| 0 <= j < after.dynamic() implies stacked(
        #[trigger] after.pools[j],
        next[j],
    ) by {
        if j != k {
            assert(after.pools[j] == m.pools[j]);
            assert(stacked(m.pools[j], live[j]));
        }
    }
}

/// Whether a memory is filled as far as another one, and no further, with further empty pages.
pub open spec fn as_full(one: MemoryView, live: Liveness, two: MemoryView, other: Liveness, k: int)
    -> bool {
    let a = levels(one.pools[k], live[k]);
    let b = levels(two.pools[k], other[k]);
    &&& one.pools[k].rules == two.pools[k].rules
    &&& one.pools[k].alignment == two.pools[k].alignment
    &&& a.len() <= b.len()
    &&& forall|j: int| 0 <= j < a.len() ==> #[trigger] a[j] == b[j]
    &&& forall|j: int| a.len() <= j < b.len() ==> #[trigger] b[j] == 0
}

/// One step of the two fillings, in the pool that it goes to.
proof fn lemma_as_full_step(
    pool: PoolView,
    other: PoolView,
    a: Seq<int>,
    b: Seq<int>,
    size: u64,
)
    requires
        pool.rules == other.rules,
        pool.alignment == other.alignment,
        pool.rules !is Persistent,
        pool.can_hold(size),
        a.len() <= b.len(),
        forall|j: int| 0 <= j < a.len() ==> #[trigger] a[j] == b[j],
        forall|j: int| a.len() <= j < b.len() ==> #[trigger] b[j] == 0,
        first_fit(pool, a, size) is None ==> a.len() < b.len(),
    ensures
        first_fit(other, b, size) is Some,
        ({
            let x = filled_by(pool, a, size);
            let y = filled_by(other, b, size);
            &&& y.len() == b.len()
            &&& x.len() <= y.len()
            &&& forall|j: int| 0 <= j < x.len() ==> #[trigger] x[j] == y[j]
            &&& forall|j: int| x.len() <= j < y.len() ==> #[trigger] y[j] == 0
        }),
{
    let p = |j: int| leaves_room(pool, a, size, j);
    let q = |j: int| leaves_room(other, b, size, j);
    lemma_first_from(0, a.len() as int, p);
    assert(pool.page_bytes(size) == pool.page_bytes(0));
    assert(other.page_bytes(0) == pool.page_bytes(0) && other.need(size) == pool.need(size));
    let at = match first_fit(pool, a, size) {
        Some(j) => j,
        None => a.len() as int,
    };
    assert forall|j: int| 0 <= j < at implies !(#[trigger] q(j)) by {
        assert(!p(j));
        assert(a[j] == b[j]);
    }
    if at < a.len() {
        assert(p(at));
        assert(a[at] == b[at]);
    } else {
        assert(b[at] == 0);
    }
    assert(q(at));
    lemma_first_is(b.len(), q, at);
    let x = filled_by(pool, a, size);
    let y = filled_by(other, b, size);
    assert forall|j: int| 0 <= j < x.len() implies #[trigger] x[j] == y[j] by {
        if j < a.len() {
            assert(a[j] == b[j]);
        }
    }
    assert forall|j: int| x.len() <= j < y.len() implies #[trigger] y[j] == 0 by {
        assert(b[j] == 0);
    }
}

/// What a filling has come to after some reservations.
proof fn lemma_filled(history: History, sizes: Seq<u64>, lives: Seq<Liveness>, t: int)
    requires
        fills(history, sizes, lives),
        ordinary(history.states[0]),
        history.states[0].shaped(lives[0]),
        all_stacked(history.states[0], lives[0]),
        forall|i: int| 0 <= i < sizes.len() ==> 0 < #[trigger] sizes[i],
        0 <= t <= sizes.len(),
    ensures
        ordinary(history.states[t]),
        all_stacked(history.states[t], lives[t]),
        history.states[t].pools.len() == history.states[0].pools.len(),
        forall|k: int|
            0 <= k < history.states[0].pools.len() ==> {
                &&& (#[trigger] history.states[t].pools[k]).rules
                    == history.states[0].pools[k].rules
                &&& history.states[t].pools[k].alignment == history.states[0].pools[k].alignment
            },
    decreases t,
{
    if t > 0 {
        lemma_filled(history, sizes, lives, t - 1);
        lemma_fill_at(history, sizes, lives, t - 1);
        let m = history.states[t - 1];
        let after = history.states[t];
        let k = taker(m, sizes[t - 1])->0;
        assert forall|j: int| 0 <= j < history.states[0].pools.len() implies {
            &&& (#[trigger] after.pools[j]).rules == history.states[0].pools[j].rules
            &&& after.pools[j].alignment == history.states[0].pools[j].alignment
        } by {
            assert(m.pools[j].rules == history.states[0].pools[j].rules);
            if j != k {
                assert(after.pools[j] == m.pools[j]);
            }
        }
    }
}

/// One reservation of a filling.
proof fn lemma_fill_at(history: History, sizes: Seq<u64>, lives: Seq<Liveness>, t: int)
    requires
        fills(history, sizes, lives),
        0 <= t < sizes.len(),
        0 < sizes[t],
        ordinary(history.states[t]),
        all_stacked(history.states[t], lives[t]),
    ensures
        ({
            let m = history.states[t];
            let after = history.states[t + 1];
            let size = sizes[t];
            taker(m, size) matches Some(k) && {
                &&& 0 <= k < m.dynamic()
                &&& m.pools[k].can_hold(size)
                &&& ordinary(after)
                &&& all_stacked(after, lives[t + 1])
                &&& after.pools.len() == m.pools.len()
                &&& forall|j: int|
                    0 <= j < m.pools.len() && j != k ==> (#[trigger] after.pools[j]) == m.pools[j]
                        && lives[t + 1][j] == lives[t][j]
                &&& after.pools[k].rules == m.pools[k].rules
                &&& after.pools[k].alignment == m.pools[k].alignment
                &&& levels(after.pools[k], lives[t + 1][k]) == filled_by(
                    m.pools[k],
                    levels(m.pools[k], lives[t][k]),
                    size,
                )
                &&& m.plan(size, lives[t]) is Serve <==> first_fit(
                    m.pools[k],
                    levels(m.pools[k], lives[t][k]),
                    size,
                ) is Some
            }
        }),
{
    let m = history.states[t];
    let after = history.states[t + 1];
    assert(comes_to(m, history.calls[t], after));
    lemma_fill_step(m, sizes[t], lives[t], history.calls[t]->r->Ok_0, after, lives[t + 1]);
}

/// Pools never lose a page while they are filled.
proof fn lemma_pages_grow(
    history: History,
    sizes: Seq<u64>,
    lives: Seq<Liveness>,
    t: int,
    n: int,
    k: int,
)
    requires
        fills(history, sizes, lives),
        ordinary(history.states[0]),
        history.states[0].shaped(lives[0]),
        all_stacked(history.states[0], lives[0]),
        forall|i: int| 0 <= i < sizes.len() ==> 0 < #[trigger] sizes[i],
        0 <= t <= n <= sizes.len(),
        0 <= k < history.states[0].dynamic(),
    ensures
        history.states[t].pools[k].table.len() <= history.states[n].pools[k].table.len(),
    decreases n - t,
{
    if t < n {
        lemma_pages_grow(history, sizes, lives, t, n - 1, k);
        lemma_filled(history, sizes, lives, n - 1);
        lemma_fill_at(history, sizes, lives, n - 1);
        let m = history.states[n - 1];
        let after = history.states[n];
        let size = sizes[n - 1];
        let filled = levels(m.pools[k], lives[n - 1][k]);
        if taker(m, size) == Some(k) {
            assert(levels(after.pools[k], lives[n][k]).len() == after.pools[k].table.len());
            let pool = m.pools[k];
            lemma_first_from(
                0,
                filled.len() as int,
                |p: int| leaves_room(pool, filled, size, p),
            );
            assert(filled_by(m.pools[k], filled, size).len() >= filled.len());
        } else {
            assert(after.pools[k] == m.pools[k]);
        }
    }
}

/// Where ordinary reservations go does not depend on anything but the rules.
proof fn lemma_same_taker(one: MemoryView, two: MemoryView, size: u64)
    requires
        one.pools.len() == two.pools.len(),
        2 <= one.pools.len(),
        forall|k: int|
            0 <= k < one.pools.len() ==> {
                &&& (#[trigger] one.pools[k]).rules == two.pools[k].rules
                &&& one.pools[k].alignment == two.pools[k].alignment
            },
    ensures
        taker(one, size) == taker(two, size),
{
    let n = one.dynamic();
    let p = |k: int| one.pools[k].accepts(size);
    let q = |k: int| two.pools[k].accepts(size);
    lemma_first_from(0, n, p);
    assert forall|k: int| 0 <= k < n implies #[trigger] p(k) == q(k) by {
        assert(one.pools[k].rules == two.pools[k].rules);
    }
    match first_where(n as nat, p) {
        Some(k) => {
            assert forall|j: int| 0 <= j < k implies !(#[trigger] q(j)) by {
                assert(!p(j));
            }
            assert(p(k) == q(k));
            lemma_first_is(n as nat, q, k);
        },
        None => {
            assert forall|j: int| 0 <= j < n implies !(#[trigger] q(j)) by {
                assert(!p(j));
            }
            lemma_first_none(n as nat, q);
        },
    }
}

/// With every slice free, every page is empty.
proof fn lemma_all_free(m: MemoryView, live: Liveness, k: int)
    requires
        m.wf(),
        all_free_in(m, live),
        0 <= k < m.dynamic(),
        forall|p: int| 0 <= p < m.pools[k].table.len() ==> (#[trigger] m.pools[k].table[p]) is Some,
    ensures
        stacked(m.pools[k], live[k]),
        forall|j: int|
            0 <= j < m.pools[k].table.len() ==> #[trigger] levels(m.pools[k], live[k])[j] == 0,
{
    let pool = m.pools[k];
    assert(pool.wf());
    assert(shaped(pool.table, live[k]));
    assert forall|j: int| 0 <= j < pool.table.len() implies #[trigger] levels(
        pool,
        live[k],
    )[j] == 0 by {
        let row = live[k][j];
        assert(pool.table[j] is Some);
        assert(page_wf(pool.table[j]->0) && pool.page_follows(pool.table[j]->0));
        assert(row.len() == slice_count(pool.table[j]));
        assert(live[k][j][0]);
        lemma_first_is(row.len(), |i: int| row[i], 0);
    }
    assert forall|p: int, i: int, j: int|
        #![trigger live[k][p][i], live[k][p][j]]
        0 <= p < live[k].len() && 0 <= i < j < live[k][p].len() && live[k][p][i] implies live[k][p][j] by {}
}

/// Reserving the same sizes again, after everything was dropped, takes no further storage:
/// every reservation is served from the pages that there are.
pub proof fn law_reserving_again_takes_no_storage(
    one: History,
    first: Seq<Liveness>,
    two: History,
    second: Seq<Liveness>,
    sizes: Seq<u64>,
    t: int,
)
    requires
        fills(one, sizes, first),
        fills(two, sizes, second),
        forall|i: int| 0 <= i < sizes.len() ==> 0 < #[trigger] sizes[i],
        ordinary(one.states[0]),
        forall|k: int|
            0 <= k < one.states[0].pools.len() ==> (#[trigger] one.states[0].pools[k]).table.len()
                == 0,
        one.states[0].shaped(first[0]),
        two.states[0] == one.end(),
        all_free_in(two.states[0], second[0]),
        0 <= t < sizes.len(),
    ensures
        two.states[t].plan(sizes[t], second[t]) is Serve,
{
    lemma_refill(one, first, two, second, sizes, t + 1);
}

proof fn lemma_refill(
    one: History,
    first: Seq<Liveness>,
    two: History,
    second: Seq<Liveness>,
    sizes: Seq<u64>,
    t: int,
)
    requires
        fills(one, sizes, first),
        fills(two, sizes, second),
        forall|i: int| 0 <= i < sizes.len() ==> 0 < #[trigger] sizes[i],
        ordinary(one.states[0]),
        forall|k: int|
            0 <= k < one.states[0].pools.len() ==> (#[trigger] one.states[0].pools[k]).table.len()
                == 0,
        one.states[0].shaped(first[0]),
        two.states[0] == one.end(),
        all_free_in(two.states[0], second[0]),
        0 <= t <= sizes.len(),
    ensures
        all_stacked(one.states[0], first[0]),
        all_stacked(two.states[0], second[0]),
        ordinary(two.states[0]),
        two.states[0].pools.len() == one.states[0].pools.len(),
        forall|k: int|
            0 <= k < one.states[0].dynamic() ==> {
                &&& #[trigger] as_full(one.states[t], first[t], two.states[t], second[t], k)
                &&& two.states[t].pools[k].table.len() == one.end().pools[k].table.len()
            },
        t > 0 ==> two.states[t - 1].plan(sizes[t - 1], second[t - 1]) is Serve,
    decreases t,
{
    let n = sizes.len() as int;
    let start = one.states[0];
    assert(start.wf());
    assert forall|k: int| 0 <= k < start.dynamic() implies stacked(
        #[trigger] start.pools[k],
        first[0][k],
    ) by {
        assert(start.pools[k].wf() && start.pools[k].table.len() == 0);
    }
    lemma_filled(one, sizes, first, n);
    let end = one.end();
    assert(end == one.states[n]);
    assert forall|k: int| 0 <= k < end.dynamic() implies stacked(
        #[trigger] two.states[0].pools[k],
        second[0][k],
    ) by {
        assert(stacked(end.pools[k], first[n][k]));
        lemma_all_free(two.states[0], second[0], k);
    }
    if t == 0 {
        assert forall|k: int| 0 <= k < start.dynamic() implies {
            &&& #[trigger] as_full(one.states[t], first[t], two.states[t], second[t], k)
            &&& two.states[t].pools[k].table.len() == one.end().pools[k].table.len()
        } by {
            assert(start.pools[k].table.len() == 0);
            assert(stacked(end.pools[k], first[n][k]));
            lemma_all_free(two.states[0], second[0], k);
        }
    } else {
        lemma_refill(one, first, two, second, sizes, t - 1);
        lemma_filled(one, sizes, first, t - 1);
        assert(two.states[0].shaped(second[0]));
        lemma_filled(two, sizes, second, t - 1);
        lemma_fill_at(one, sizes, first, t - 1);
        lemma_fill_at(two, sizes, second, t - 1);
        let a = one.states[t - 1];
        let b = two.states[t - 1];
        let size = sizes[t - 1];
        assert forall|k: int| 0 <= k < a.pools.len() implies {
            &&& (#[trigger] a.pools[k]).rules == b.pools[k].rules
            &&& a.pools[k].alignment == b.pools[k].alignment
        } by {
            assert(a.pools[k].rules == start.pools[k].rules);
            assert(b.pools[k].rules == end.pools[k].rules);
            assert(end.pools[k].rules == start.pools[k].rules);
        }
        assert(a.wf());
        lemma_same_taker(a, b, size);
        let k = taker(a, size)->0;
        assert(as_full(a, first[t - 1], b, second[t - 1], k));
        let x = levels(a.pools[k], first[t - 1][k]);
        let y = levels(b.pools[k], second[t - 1][k]);
        if first_fit(a.pools[k], x, size) is None {
            assert(levels(one.states[t].pools[k], first[t][k]).len() == x.len() + 1);
            lemma_pages_grow(one, sizes, first, t, n, k);
        }
        assert(stacked(a.pools[k], first[t - 1][k]));
        lemma_as_full_step(a.pools[k], b.pools[k], x, y, size);
        assert forall|j: int| 0 <= j < start.dynamic() implies {
            &&& #[trigger] as_full(one.states[t], first[t], two.states[t], second[t], j)
            &&& two.states[t].pools[j].table.len() == one.end().pools[j].table.len()
        } by {
            assert(as_full(a, first[t - 1], b, second[t - 1], j));
            if j != k {
                assert(one.states[t].pools[j] == a.pools[j]);
                assert(two.states[t].pools[j] == b.pools[j]);
            } else {
                assert(levels(two.states[t].pools[k], second[t][k]).len()
                    == two.states[t].pools[k].table.len());
            }
        }
    }
}

} // verus!
