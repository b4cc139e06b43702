//! Pools: tables of pages, and the rules by which memory is found on them.

use vstd::prelude::*;

use crate::first::{first_from, first_where, lemma_first_from};
use crate::memory::align::{aligned_up, lemma_aligned_up};
use crate::memory::handle::ManagedMemoryHandle;
use crate::memory::page::{
    all_free, find_slice, idle, page_wf, rebound, released, shaped, slice_count, table_wf, vacant,
    with_page, PageView, Slice,
};
use crate::memory::storage::StorageHandle;

verus! {

/// How a pool uses its pages.
#[derive(Clone, Copy, Debug, PartialEq, Eq)]
pub enum PoolRules {
    /// Pages of one size, cut into slices.
    Sliced { page_size: u64, max_slice_size: u64 },
    /// Pages of one size, each for one reservation at a time. A page that no
    /// reservation needed for `dealloc_period` reservations goes back.
    Exclusive { max_alloc_size: u64, dealloc_period: u64 },
    /// Pages of the size asked for, each used again only for that size.
    Persistent { max_alloc_size: u64 },
}

/// What a pool is, for contracts.
#[verifier::ext_equal]
pub struct PoolView {
    pub rules: PoolRules,
    pub alignment: u64,
    pub position: u8,
    pub table: Seq<Option<PageView>>,
}

/// Where a reservation goes: a page, and the slices of it from the first to the
/// last that it takes up.
pub struct Spot {
    pub page: int,
    pub first: int,
    pub last: int,
}

impl PoolView {
    /// The bytes a reservation takes, with what alignment adds.
    pub open spec fn need(self, size: u64) -> int {
        aligned_up(size as int, self.alignment as int)
    }

    /// The bytes of a new page for a reservation.
    pub open spec fn page_bytes(self, size: u64) -> int {
        let alignment = self.alignment as int;
        match self.rules {
            PoolRules::Sliced { page_size, .. } => aligned_up(page_size as int, alignment),
            PoolRules::Exclusive { max_alloc_size, .. } => {
                let bytes = aligned_up(max_alloc_size as int, alignment);
                if bytes < alignment {
                    alignment
                } else {
                    bytes
                }
            },
            PoolRules::Persistent { .. } => self.need(size),
        }
    }

    /// Whether the pool takes reservations of this size. A page never is smaller
    /// than the alignment, so an exclusive pool takes anything below that too.
    pub open spec fn accepts(self, size: u64) -> bool {
        match self.rules {
            PoolRules::Sliced { max_slice_size, .. } => size <= max_slice_size && self.need(size)
                <= self.page_bytes(size),
            PoolRules::Exclusive { max_alloc_size, .. } => size <= max_alloc_size || size
                < self.alignment,
            PoolRules::Persistent { max_alloc_size } => size <= max_alloc_size,
        }
    }

    /// Whether a reservation of this size can lie on a new page of the pool.
    pub open spec fn can_hold(self, size: u64) -> bool {
        self.need(size) <= u64::MAX && self.need(size) <= self.page_bytes(size)
    }

    /// The rules make sense: the size of a page is a number there is.
    pub open spec fn rules_wf(self) -> bool {
        &&& 0 < self.alignment
        &&& self.rules !is Persistent ==> self.page_bytes(0) <= u64::MAX
    }

    /// What holds of every page, by the rules. The slices of a sliced pool tile
    /// their page, and start at multiples of the alignment; on any other page
    /// there is one slice.
    pub open spec fn page_follows(self, page: PageView) -> bool {
        match self.rules {
            PoolRules::Sliced { .. } => {
                &&& page.bytes == self.page_bytes(0)
                &&& page.slices[0].start() == 0
                &&& page.slices.last().end() == page.bytes
                &&& tiles(page.slices)
                &&& forall|k: int|
                    0 <= k < page.slices.len() ==> (#[trigger] page.slices[k]).start()
                        % (self.alignment as int) == 0
            },
            PoolRules::Exclusive { .. } => {
                &&& page.bytes == self.page_bytes(0)
                &&& page.slices.len() == 1
                &&& page.slices[0].start() == 0
            },
            PoolRules::Persistent { .. } => {
                &&& page.slices.len() == 1
                &&& page.slices[0].start() == 0
                &&& page.slices[0].effective_size() == page.bytes
            },
        }
    }

    /// The invariant of a pool.
    pub open spec fn wf(self) -> bool {
        &&& self.rules_wf()
        &&& table_wf(self.table)
        &&& forall|i: int|
            0 <= i < self.table.len() && (#[trigger] self.table[i]) is Some ==> self.page_follows(
                self.table[i]->0,
            )
    }

    /// Where on a page a reservation that needs `need` bytes can go: on a sliced
    /// page the leftmost run of free slices that is long enough, and no longer than
    /// it has to be.
    pub open spec fn spot_in(self, page: PageView, row: Seq<bool>, need: int) -> Option<
        (int, int),
    > {
        match self.rules {
            PoolRules::Sliced { .. } => match first_where(
                page.slices.len(),
                |a: int| run_starts(page.slices, row, a, need),
            ) {
                Some(a) => Some((a, run_end(page.slices, row, a, need)->0)),
                None => None,
            },
            PoolRules::Exclusive { .. } => if row[0] && need <= page.bytes {
                Some((0, 0))
            } else {
                None
            },
            PoolRules::Persistent { .. } => if row[0] && page.slices[0].effective_size() == need {
                Some((0, 0))
            } else {
                None
            },
        }
    }

    /// Where a reservation can go, without a new page: on the first page with room.
    pub open spec fn spot(self, free: Seq<Seq<bool>>, size: u64) -> Option<Spot> {
        if self.need(size) > u64::MAX {
            None
        } else {
            match first_where(self.table.len(), |p: int| self.has_room(free, p, size)) {
                Some(p) => {
                    let found = self.spot_in(self.table[p]->0, free[p], self.need(size))->0;
                    Some(Spot { page: p, first: found.0, last: found.1 })
                },
                None => None,
            }
        }
    }

    /// Whether page `p` has room for a reservation.
    pub open spec fn has_room(self, free: Seq<Seq<bool>>, p: int, size: u64) -> bool {
        self.table[p] is Some && self.spot_in(self.table[p]->0, free[p], self.need(size)) is Some
    }

    /// A page after a reservation took up slices `first` to `last` of it. What is
    /// left over on a sliced page becomes a free slice of its own, under the handle
    /// of the last slice taken up, or under `spare` if there was only one.
    pub open spec fn carved(
        self,
        page: PageView,
        first: int,
        last: int,
        size: u64,
        now: u64,
        spare: ManagedMemoryHandle,
    ) -> PageView {
        let need = self.need(size);
        let taken = Slice {
            handle: page.slices[first].handle,
            storage: StorageHandle {
                id: page.storage,
                offset: page.slices[first].storage.offset,
                size,
            },
            padding: (need - size) as u64,
            cursor: 0,
        };
        let over = page.slices[last].end() - page.slices[first].start() - need;
        let rest = Slice {
            handle: if last > first {
                page.slices[last].handle
            } else {
                spare
            },
            storage: StorageHandle {
                id: page.storage,
                offset: (page.slices[first].start() + need) as u64,
                size: over as u64,
            },
            padding: 0,
            cursor: 0,
        };
        let middle = if self.rules is Sliced && over > 0 {
            seq![taken, rest]
        } else {
            seq![taken]
        };
        PageView {
            last_used: now,
            slices: page.slices.take(first) + middle + page.slices.skip(last + 1),
            ..page
        }
    }

    /// The pool after a reservation took up a spot.
    pub open spec fn with_taken(
        self,
        spot: Spot,
        size: u64,
        now: u64,
        spare: ManagedMemoryHandle,
    ) -> PoolView {
        PoolView {
            table: self.table.update(
                spot.page,
                Some(
                    self.carved(
                        self.table[spot.page]->0,
                        spot.first,
                        spot.last,
                        size,
                        now,
                        spare,
                    ),
                ),
            ),
            ..self
        }
    }

    /// Whether some slice takes up exactly what a reservation of this size needs.
    pub open spec fn owns_size(self, size: u64) -> bool {
        exists|p: int, k: int|
            0 <= p < self.table.len() && self.table[p] is Some && 0 <= k
                < self.table[p]->0.slices.len() && (
            #[trigger] self.table[p]->0.slices[k]).effective_size() == self.need(size)
    }

    /// The pool after its pages in use were seen to be in use.
    pub open spec fn touched(self, free: Seq<Seq<bool>>, now: u64) -> PoolView {
        PoolView {
            table: Seq::new(
                self.table.len(),
                |i: int|
                    if self.table[i] is Some && !all_free(free[i]) {
                        Some(PageView { last_used: now, ..self.table[i]->0 })
                    } else {
                        self.table[i]
                    },
            ),
            ..self
        }
    }

    /// Which pages a cleanup gives back: those with no slice in use, all of them
    /// if it is asked for, and otherwise those of an exclusive pool that were last in
    /// use too long ago.
    pub open spec fn expired(self, free: Seq<Seq<bool>>, now: u64, explicit: bool) -> Seq<bool> {
        Seq::new(
            self.table.len(),
            |i: int|
                {
                    &&& idle(self.table, free)[i]
                    &&& explicit || match self.rules {
                        PoolRules::Exclusive { dealloc_period, .. } => now
                            - self.table[i]->0.last_used > dealloc_period,
                        _ => false,
                    }
                },
        )
    }

    /// The pool after a cleanup.
    pub open spec fn cleaned(self, free: Seq<Seq<bool>>, now: u64, explicit: bool) -> PoolView {
        PoolView {
            table: released(self.touched(free, now).table, self.expired(free, now, explicit)),
            ..self
        }
    }

    /// A page that is one free slice.
    pub open spec fn blank(
        self,
        storage: StorageHandle,
        handle: ManagedMemoryHandle,
        now: u64,
    ) -> PageView {
        PageView {
            storage: storage.id,
            bytes: storage.size,
            last_used: now,
            slices: seq![
                Slice { handle, storage: StorageHandle { offset: 0, ..storage }, padding: 0, cursor: 0 },
            ],
        }
    }

    /// The pool after a new page was allocated for a reservation.
    pub open spec fn with_grown(
        self,
        storage: StorageHandle,
        size: u64,
        now: u64,
        handle: ManagedMemoryHandle,
        spare: ManagedMemoryHandle,
    ) -> PoolView {
        let page = self.carved(self.blank(storage, handle, now), 0, 0, size, now, spare);
        PoolView { table: with_page(self.table, page), ..self }
    }
}

/// Whether slice `k` starts where the one before it ends.
pub open spec fn abuts(slices: Seq<Slice>, k: int) -> bool {
    slices[k].start() == slices[k - 1].end()
}

/// Whether there are no gaps between the slices.
pub open spec fn tiles(slices: Seq<Slice>) -> bool {
    forall|k: int| 0 < k < slices.len() ==> #[trigger] abuts(slices, k)
}

/// Whether slices `a` to `b` are free and together long enough.
pub open spec fn run_fits(
    slices: Seq<Slice>,
    row: Seq<bool>,
    a: int,
    b: int,
    need: int,
) -> bool {
    &&& 0 <= a <= b < slices.len()
    &&& forall|k: int| a <= k <= b ==> #[trigger] row[k]
    &&& slices[b].end() - slices[a].start() >= need
}

/// Where the shortest free run from slice `a` that is long enough ends.
pub open spec fn run_end(slices: Seq<Slice>, row: Seq<bool>, a: int, need: int) -> Option<int> {
    first_from(a, slices.len() as int, |b: int| run_fits(slices, row, a, b, need))
}

/// Whether a free run that is long enough starts at slice `a`.
pub open spec fn run_starts(slices: Seq<Slice>, row: Seq<bool>, a: int, need: int) -> bool {
    run_end(slices, row, a, need) is Some
}

/// What a spot on a page is: a run of free slices with enough bytes.
pub proof fn lemma_spot_in(pool: PoolView, page: PageView, row: Seq<bool>, need: int)
    requires
        page_wf(page),
        pool.page_follows(page),
        row.len() == page.slices.len(),
        0 <= need,
    ensures
        pool.spot_in(page, row, need) matches Some((a, b)) ==> {
            &&& 0 <= a <= b < page.slices.len()
            &&& forall|k: int| a <= k <= b ==> #[trigger] row[k]
            &&& pool.rules is Sliced ==> need <= page.slices[b].end() - page.slices[a].start()
            &&& need <= page.bytes
            &&& pool.rules is Persistent ==> need == page.slices[0].effective_size()
        },
{
    match pool.rules {
        PoolRules::Sliced { .. } => {
            let starts = |a: int| run_starts(page.slices, row, a, need);
            lemma_first_from(0, page.slices.len() as int, starts);
            match first_where(page.slices.len(), starts) {
                Some(a) => {
                    lemma_first_from(
                        a,
                        page.slices.len() as int,
                        |b: int| run_fits(page.slices, row, a, b, need),
                    );
                },
                None => {},
            }
        },
        _ => {},
    }
}

/// What a spot in a pool is.
pub proof fn lemma_spot(pool: PoolView, free: Seq<Seq<bool>>, size: u64)
    requires
        pool.wf(),
        shaped(pool.table, free),
    ensures
        pool.spot(free, size) matches Some(spot) ==> {
            &&& 0 <= spot.page < pool.table.len()
            &&& pool.table[spot.page] is Some
            &&& pool.spot_in(pool.table[spot.page]->0, free[spot.page], pool.need(size)) == Some(
                (spot.first, spot.last),
            )
            &&& 0 <= spot.first <= spot.last < pool.table[spot.page]->0.slices.len()
            &&& forall|k: int| spot.first <= k <= spot.last ==> #[trigger] free[spot.page][k]
            &&& pool.need(size) <= u64::MAX
        },
{
    let room = |p: int| pool.has_room(free, p, size);
    lemma_first_from(0, pool.table.len() as int, room);
    lemma_aligned_up(size as int, pool.alignment as int);
    match first_where(pool.table.len(), room) {
        Some(p) => {
            assert(pool.has_room(free, p, size));
            assert(free[p].len() == slice_count(pool.table[p]));
            lemma_spot_in(pool, pool.table[p]->0, free[p], pool.need(size));
        },
        None => {},
    }
}

proof fn lemma_multiple_sum(a: int, b: int, m: int)
    requires
        0 < m,
        a % m == 0,
        b % m == 0,
    ensures
        (a + b) % m == 0,
{
    vstd::arithmetic::div_mod::lemma_mod_adds(a, b, m);
    vstd::arithmetic::div_mod::lemma_mod_bound(a + b, m);
    vstd::arithmetic::div_mod::lemma_add_mod_noop(a, b, m);
    vstd::arithmetic::div_mod::lemma_small_mod(0, m as nat);
}

/// A page keeps to the rules when a reservation takes up a run of its slices.
pub proof fn lemma_carved(
    pool: PoolView,
    page: PageView,
    first: int,
    last: int,
    size: u64,
    now: u64,
    spare: ManagedMemoryHandle,
)
    requires
        pool.rules_wf(),
        page_wf(page),
        pool.page_follows(page),
        0 <= first <= last < page.slices.len(),
        pool.need(size) <= u64::MAX,
        pool.rules is Sliced ==> pool.need(size) <= page.slices[last].end()
            - page.slices[first].start(),
        pool.need(size) <= page.bytes,
        pool.rules is Persistent ==> pool.need(size) == page.bytes,
    ensures
        page_wf(pool.carved(page, first, last, size, now, spare)),
        pool.page_follows(pool.carved(page, first, last, size, now, spare)),
        pool.carved(page, first, last, size, now, spare).slices[first].effective_size()
            == pool.need(size),
{
    let need = pool.need(size);
    let alignment = pool.alignment as int;
    lemma_aligned_up(size as int, alignment);
    let carved = pool.carved(page, first, last, size, now, spare);
    let over = page.slices[last].end() - page.slices[first].start() - need;
    assert(page.slices[last].end() <= page.bytes);
    if pool.rules is Sliced {
        let taken = carved.slices[first];
        assert(taken.effective_size() == need);
        if over > 0 {
            let rest = carved.slices[first + 1];
            let middle = seq![taken, rest];
            assert(carved.slices =~= page.slices.take(first) + middle + page.slices.skip(
                last + 1,
            ));
            lemma_multiple_sum(page.slices[first].start(), need, alignment);
            assert(abuts(middle, 1));
            lemma_splice(page.slices, first, last, middle, alignment, page.storage);
        } else {
            let middle = seq![taken];
            assert(carved.slices =~= page.slices.take(first) + middle + page.slices.skip(
                last + 1,
            ));
            lemma_splice(page.slices, first, last, middle, alignment, page.storage);
        }
        lemma_tiles_ordered(carved.slices);
        assert forall|k: int| 0 <= k < carved.slices.len() implies (
        #[trigger] carved.slices[k]).end() <= page.bytes by {
            if k < carved.slices.len() - 1 {
                let m = carved.slices.len() - 1;
                assert(carved.slices[k].end() <= carved.slices[m].start());
            }
        }
    }
}

/// Replacing a run of slices by others that take up the same bytes keeps the
/// slices tiled and aligned.
proof fn lemma_splice(
    slices: Seq<Slice>,
    first: int,
    last: int,
    middle: Seq<Slice>,
    alignment: int,
    id: usize,
)
    requires
        0 < alignment,
        0 <= first <= last < slices.len(),
        tiles(slices),
        tiles(middle),
        middle.len() > 0,
        middle[0].start() == slices[first].start(),
        middle.last().end() == slices[last].end(),
        forall|k: int|
            0 <= k < slices.len() ==> (#[trigger] slices[k]).start() % alignment == 0
                && slices[k].storage.id == id,
        forall|k: int|
            0 <= k < middle.len() ==> (#[trigger] middle[k]).start() % alignment == 0
                && middle[k].storage.id == id,
    ensures
        ({
            let after = slices.take(first) + middle + slices.skip(last + 1);
            &&& tiles(after)
            &&& after[0].start() == slices[0].start()
            &&& after.last().end() == slices.last().end()
            &&& forall|k: int|
                0 <= k < after.len() ==> (#[trigger] after[k]).start() % alignment == 0
                    && after[k].storage.id == id
        }),
{
    let after = slices.take(first) + middle + slices.skip(last + 1);
    let m = middle.len() as int;
    let shift = last + 1 - first - m;
    assert forall|k: int| 0 < k < after.len() implies #[trigger] abuts(after, k) by {
        if k < first {
            assert(abuts(slices, k));
        } else if k == first {
            assert(abuts(slices, first));
        } else if k < first + m {
            assert(abuts(middle, k - first));
        } else if k == first + m {
            assert(abuts(slices, last + 1));
        } else {
            assert(abuts(slices, k + shift));
        }
    }
    assert forall|k: int| 0 <= k < after.len() implies (#[trigger] after[k]).start() % alignment
        == 0 && after[k].storage.id == id by {
        if k < first {
            assert(after[k] == slices[k]);
        } else if k < first + m {
            assert(after[k] == middle[k - first]);
        } else {
            assert(after[k] == slices[k + shift]);
        }
    }
}

proof fn lemma_tiles_reach(slices: Seq<Slice>, i: int, j: int)
    requires
        0 <= i < j < slices.len(),
        tiles(slices),
    ensures
        slices[i].end() <= slices[j].start(),
    decreases j - i,
{
    assert(abuts(slices, j));
    if i < j - 1 {
        lemma_tiles_reach(slices, i, j - 1);
    }
}

proof fn lemma_tiles_ordered(slices: Seq<Slice>)
    requires
        tiles(slices),
    ensures
        forall|i: int, j: int|
            0 <= i < j < slices.len() ==> (#[trigger] slices[i]).end() <= (
            #[trigger] slices[j]).start(),
{
    assert forall|i: int, j: int| 0 <= i < j < slices.len() implies (#[trigger] slices[i]).end()
        <= (#[trigger] slices[j]).start() by {
        lemma_tiles_reach(slices, i, j);
    }
}

/// A pool stays well formed when a reservation takes up the spot found for it.
pub proof fn lemma_with_taken(
    pool: PoolView,
    free: Seq<Seq<bool>>,
    size: u64,
    now: u64,
    spare: ManagedMemoryHandle,
)
    requires
        pool.wf(),
        shaped(pool.table, free),
        pool.spot(free, size) is Some,
    ensures
        pool.with_taken(pool.spot(free, size)->0, size, now, spare).wf(),
{
    let spot = pool.spot(free, size)->0;
    lemma_spot(pool, free, size);
    lemma_aligned_up(size as int, pool.alignment as int);
    let page = pool.table[spot.page]->0;
    assert(free[spot.page].len() == slice_count(pool.table[spot.page]));
    lemma_spot_in(pool, page, free[spot.page], pool.need(size));
    lemma_carved(pool, page, spot.first, spot.last, size, now, spare);
    let after = pool.with_taken(spot, size, now, spare);
    assert forall|i: int| 0 <= i < after.table.len() && (#[trigger] after.table[i]) is Some implies
        page_wf(after.table[i]->0) && after.page_follows(after.table[i]->0) by {
        if i != spot.page {
            assert(after.table[i] == pool.table[i]);
            assert(pool.page_follows(pool.table[i]->0));
        } else {
            assert(pool.page_follows(after.table[i]->0));
        }
    }
}

/// A pool stays well formed when it gets a page for a reservation that it can
/// hold, from an allocation that no page of it is.
pub proof fn lemma_with_grown(
    pool: PoolView,
    storage: StorageHandle,
    size: u64,
    now: u64,
    handle: ManagedMemoryHandle,
    spare: ManagedMemoryHandle,
)
    requires
        pool.wf(),
        pool.can_hold(size),
        storage.size == pool.page_bytes(size),
        storage.offset == 0,
        !crate::memory::page::table_owns(pool.table, storage.id),
    ensures
        pool.with_grown(storage, size, now, handle, spare).wf(),
{
    lemma_aligned_up(size as int, pool.alignment as int);
    let blank = pool.blank(storage, handle, now);
    lemma_aligned_up(0, pool.alignment as int);
    assert(pool.page_follows(blank)) by {
        vstd::arithmetic::div_mod::lemma_small_mod(0, pool.alignment as nat);
    }
    lemma_carved(pool, blank, 0, 0, size, now, spare);
    let page = pool.carved(blank, 0, 0, size, now, spare);
    let after = pool.with_grown(storage, size, now, handle, spare);
    lemma_first_from(0, pool.table.len() as int, |i: int| pool.table[i] is None);
    let v = vacant(pool.table);
    assert(0 <= v <= pool.table.len());
    assert forall|i: int| 0 <= i < after.table.len() && i != v implies (#[trigger] after.table[i])
        == pool.table[i] by {}
    assert(after.table[v] == Some(page));
    assert forall|i: int| 0 <= i < after.table.len() && (#[trigger] after.table[i]) is Some implies
        page_wf(after.table[i]->0) && after.page_follows(after.table[i]->0) by {
        if i != v {
            assert(pool.page_follows(pool.table[i]->0));
        } else {
            assert(pool.page_follows(page));
        }
    }
}

/// A pool stays well formed when a slice of it is given to another handle.
pub proof fn lemma_rebound(
    pool: PoolView,
    page: int,
    id: usize,
    assigned: ManagedMemoryHandle,
    cursor: u64,
)
    requires
        pool.wf(),
        0 <= page,
    ensures
        (PoolView { table: rebound(pool.table, page, id, assigned, cursor), ..pool }).wf(),
{
    let after = PoolView { table: rebound(pool.table, page, id, assigned, cursor), ..pool };
    if find_slice(pool.table, page, id) is Ok {
        let was = pool.table[page]->0;
        let is = after.table[page]->0;
        lemma_first_from(0, was.slices.len() as int, |k: int| was.slices[k].handle.id() == id);
        assert(is.slices.len() == was.slices.len());
        assert forall|k: int| 0 <= k < was.slices.len() implies (#[trigger] is.slices[k]).storage
            == was.slices[k].storage && is.slices[k].padding == was.slices[k].padding by {}
        assert(tiles(was.slices) ==> tiles(is.slices)) by {
            if tiles(was.slices) {
                assert forall|k: int| 0 < k < is.slices.len() implies #[trigger] abuts(
                    is.slices,
                    k,
                ) by {
                    assert(abuts(was.slices, k));
                }
            }
        }
        assert(page_wf(was) && pool.page_follows(was));
        assert(page_wf(is));
        assert(after.page_follows(is));
        assert forall|i: int|
            0 <= i < after.table.len() && (#[trigger] after.table[i]) is Some implies page_wf(
            after.table[i]->0,
        ) && after.page_follows(after.table[i]->0) by {
            if i != page {
                assert(after.table[i] == pool.table[i]);
                assert(pool.page_follows(pool.table[i]->0));
            }
        }
    }
}

/// A pool stays well formed when it is cleaned up.
pub proof fn lemma_cleaned(pool: PoolView, free: Seq<Seq<bool>>, now: u64, explicit: bool)
    requires
        pool.wf(),
    ensures
        pool.touched(free, now).wf(),
        pool.cleaned(free, now, explicit).wf(),
{
    let touched = pool.touched(free, now);
    assert forall|i: int| 0 <= i < touched.table.len() && (#[trigger] touched.table[i]) is Some implies
        page_wf(touched.table[i]->0) && touched.page_follows(touched.table[i]->0)
        && pool.table[i] is Some && touched.table[i]->0.storage == pool.table[i]->0.storage by {
        let was = pool.table[i]->0;
        assert(page_wf(was) && pool.page_follows(was));
        assert(touched.table[i]->0.slices == was.slices);
    }
    let after = pool.cleaned(free, now, explicit);
    assert forall|i: int| 0 <= i < after.table.len() && (#[trigger] after.table[i]) is Some implies
        after.table[i] == touched.table[i] && page_wf(after.table[i]->0) && after.page_follows(
        after.table[i]->0,
    ) by {
        assert(touched.page_follows(touched.table[i]->0));
    }
}

} // verus!
