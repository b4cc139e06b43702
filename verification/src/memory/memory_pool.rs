//! The pool itself: reserving, growing and cleaning up.

use vstd::prelude::*;

use crate::first::{first_where, lemma_first_from, lemma_first_is, lemma_first_none};
use crate::memory::align::{aligned_up, lemma_aligned_up, next_multiple_of, padding};
use crate::memory::error::IoError;
use crate::memory::handle::ManagedMemoryHandle;
use crate::memory::page::{
    every, find_slice, flags, idle, offered, page_wf, page_with, rebound, shaped, slice_count, table_holds, table_owns,
    tallied, unheld, vacant, Page, PageTable, Slice,
};
use crate::memory::pool::{
    lemma_cleaned, lemma_rebound, lemma_spot, lemma_spot_in, lemma_with_grown, lemma_with_taken,
    run_end, run_fits, run_starts, PoolRules, PoolView,
};
use crate::memory::storage::{ComputeStorage, StorageHandle};
use crate::memory::usage::{slices_in, table_capacity, table_usage, MemoryUsage};

verus! {

/// A table of pages and the rules for its use.
pub struct MemoryPool {
    rules: PoolRules,
    alignment: u64,
    position: u8,
    table: PageTable,
}

impl View for MemoryPool {
    type V = PoolView;

    closed spec fn view(&self) -> PoolView {
        PoolView {
            rules: self.rules,
            alignment: self.alignment,
            position: self.position,
            table: self.table@,
        }
    }
}

/// A pool without pages.
pub open spec fn empty_pool(rules: PoolRules, alignment: u64, position: u8) -> PoolView {
    PoolView { rules, alignment, position, table: Seq::empty() }
}

/// The shortest free run from slice `a` that is long enough.
fn find_run_end(slices: &Vec<Slice>, row: &Vec<bool>, a: usize, need: u64) -> (r: Option<usize>)
    requires
        a < slices.len() == row.len(),
        forall|k: int|
            0 <= k < slices.len() ==> (#[trigger] slices[k]).end() <= u64::MAX,
        forall|i: int, j: int|
            0 <= i < j < slices.len() ==> (#[trigger] slices[i]).end() <= (
            #[trigger] slices[j]).start(),
    ensures
        match r {
            Some(b) => a <= b < slices.len() && run_end(slices@, row@, a as int, need as int)
                == Some(b as int),
            None => run_end(slices@, row@, a as int, need as int) is None,
        },
{
    let ghost s = slices@;
    let ghost f = row@;
    let ghost p = |b: int| run_fits(s, f, a as int, b, need as int);
    proof {
        lemma_first_from(a as int, s.len() as int, p);
    }
    let start: u64 = slices[a].storage.offset;
    let mut b: usize = a;
    while b < slices.len()
        invariant
            a <= b <= slices.len() == row.len(),
            a < slices.len(),
            s == slices@,
            f == row@,
            start == slices[a as int].start(),
            forall|k: int| a <= k < b ==> #[trigger] f[k],
            forall|k: int| 0 <= k < slices.len() ==> (#[trigger] slices[k]).end() <= u64::MAX,
            forall|i: int, j: int|
                0 <= i < j < slices.len() ==> (#[trigger] slices[i]).end() <= (
                #[trigger] slices[j]).start(),
            p == (|b: int| run_fits(s, f, a as int, b, need as int)),
            forall|k: int| a <= k < b ==> !(#[trigger] p(k)),
            match run_end(s, f, a as int, need as int) {
                Some(i) => a <= i < s.len() && p(i) && (forall|j: int|
                    a <= j < i ==> !(#[trigger] p(j))),
                None => forall|j: int| a <= j < s.len() ==> !(#[trigger] p(j)),
            },
        decreases slices.len() - b,
    {
        if !row[b] {
            assert forall|k: int| b <= k < s.len() implies !(#[trigger] p(k)) by {
                assert(!f[b as int]);
            }
            return None;
        }
        let slice: &Slice = &slices[b];
        assert(slice.end() <= u64::MAX);
        let end: u64 = slice.storage.offset + slice.storage.size + slice.padding;
        assert(start <= end) by {
            if a < b {
                assert(slices[a as int].end() <= slices[b as int].start());
            }
        }
        if end - start >= need {
            assert(p(b as int));
            return Some(b);
        }
        assert(!p(b as int));
        b += 1;
    }
    None
}

/// Where on a sliced page a reservation can go.
fn find_run(slices: &Vec<Slice>, row: &Vec<bool>, need: u64) -> (r: Option<(usize, usize)>)
    requires
        slices.len() == row.len(),
        forall|k: int|
            0 <= k < slices.len() ==> (#[trigger] slices[k]).end() <= u64::MAX,
        forall|i: int, j: int|
            0 <= i < j < slices.len() ==> (#[trigger] slices[i]).end() <= (
            #[trigger] slices[j]).start(),
    ensures
        ({
            let starts = |a: int| run_starts(slices@, row@, a, need as int);
            match r {
                Some((a, b)) => {
                    &&& a <= b < slices.len()
                    &&& first_where(slices@.len(), starts) == Some(a as int)
                    &&& run_end(slices@, row@, a as int, need as int) == Some(b as int)
                },
                None => first_where(slices@.len(), starts) is None,
            }
        }),
{
    let ghost s = slices@;
    let ghost f = row@;
    let mut a: usize = 0;
    while a < slices.len()
        invariant
            a <= slices.len() == row.len(),
            s == slices@,
            f == row@,
            forall|k: int| 0 <= k < slices.len() ==> (#[trigger] slices[k]).end() <= u64::MAX,
            forall|i: int, j: int|
                0 <= i < j < slices.len() ==> (#[trigger] slices[i]).end() <= (
                #[trigger] slices[j]).start(),
            forall|k: int| 0 <= k < a ==> !(#[trigger] run_starts(s, f, k, need as int)),
        decreases slices.len() - a,
    {
        match find_run_end(slices, row, a, need) {
            Some(b) => {
                proof {
                    lemma_first_is(
                        s.len(),
                        |a: int| run_starts(s, f, a, need as int),
                        a as int,
                    );
                }
                return Some((a, b));
            },
            None => {},
        }
        a += 1;
    }
    proof {
        lemma_first_none(s.len(), |a: int| run_starts(s, f, a, need as int));
    }
    None
}

impl MemoryPool {
    /// A pool without pages.
    pub fn new(rules: PoolRules, alignment: u64, position: u8) -> (r: MemoryPool)
        requires
            empty_pool(rules, alignment, position).rules_wf(),
        ensures
            r@ == empty_pool(rules, alignment, position),
            r@.wf(),
    {
        MemoryPool { rules, alignment, position, table: PageTable::new() }
    }

    /// The bytes that a reservation needs, if that is a number there is.
    fn need_of(&self, size: u64) -> (r: Option<u64>)
        requires
            0 < self@.alignment,
        ensures
            r matches Some(need) ==> need == self@.need(size) && need >= size,
            r is None <==> self@.need(size) > u64::MAX,
    {
        match padding(size, self.alignment) {
            Some(extra) => Some(size + extra),
            None => None,
        }
    }

    /// The bytes of every page, where the rules fix them.
    fn fixed_bytes(&self) -> (r: Option<u64>)
        requires
            self@.rules_wf(),
        ensures
            r is None <==> self@.rules is Persistent,
            r matches Some(bytes) ==> bytes == self@.page_bytes(0),
    {
        match self.rules {
            PoolRules::Sliced { page_size, .. } => Some(next_multiple_of(page_size, self.alignment)),
            PoolRules::Exclusive { max_alloc_size, .. } => {
                let bytes: u64 = next_multiple_of(max_alloc_size, self.alignment);
                if bytes < self.alignment {
                    Some(self.alignment)
                } else {
                    Some(bytes)
                }
            },
            PoolRules::Persistent { .. } => None,
        }
    }

    /// Whether the pool takes reservations of this size.
    pub fn accept(&self, size: u64) -> (r: bool)
        requires
            self@.rules_wf(),
        ensures
            r == self@.accepts(size),
    {
        match self.rules {
            PoolRules::Sliced { max_slice_size, .. } => {
                let bytes: Option<u64> = self.fixed_bytes();
                match (self.need_of(size), bytes) {
                    (Some(need), Some(bytes)) => size <= max_slice_size && need <= bytes,
                    _ => false,
                }
            },
            PoolRules::Exclusive { max_alloc_size, .. } => size <= max_alloc_size || size
                < self.alignment,
            PoolRules::Persistent { max_alloc_size } => size <= max_alloc_size,
        }
    }

    /// Asks of every slice whether it is free. What the answer is depends on who
    /// still holds a handle.
    pub fn liveness(&self) -> (r: Vec<Vec<bool>>)
        ensures
            shaped(self@.table, flags(r@)),
            offered(self@.table, flags(r@)),
            exists|counts: Seq<Seq<usize>>|
                tallied(self@.table, counts) && flags(r@) == #[trigger] unheld(counts),
    {
        self.table.liveness()
    }

    /// Whether some slice of the pool is a handle's.
    pub fn holds(&self, id: usize) -> (r: bool)
        ensures
            r == table_holds(self@.table, id),
    {
        self.table.holds(id)
    }

    /// Where on a page a reservation can go.
    fn room_on(&self, page: &Page, row: &Vec<bool>, need: u64) -> (r: Option<(usize, usize)>)
        requires
            page_wf(page@),
            self@.page_follows(page@),
            row.len() == page.slices.len(),
        ensures
            match r {
                Some((a, b)) => self@.spot_in(page@, row@, need as int) == Some(
                    (a as int, b as int),
                ),
                None => self@.spot_in(page@, row@, need as int) is None,
            },
    {
        match self.rules {
            PoolRules::Sliced { .. } => {
                assert(forall|k: int|
                    0 <= k < page.slices.len() ==> (#[trigger] page.slices[k])
                        == page@.slices[k]);
                find_run(&page.slices, row, need)
            },
            PoolRules::Exclusive { .. } => {
                if row[0] && need <= page.bytes {
                    Some((0, 0))
                } else {
                    None
                }
            },
            PoolRules::Persistent { .. } => {
                let slice: &Slice = &page.slices[0];
                assert(page@.slices[0].end() <= page.bytes);
                if row[0] && slice.storage.size + slice.padding == need {
                    Some((0, 0))
                } else {
                    None
                }
            },
        }
    }

    /// Where a reservation can go, without a new page.
    fn find_spot(&self, free: &Vec<Vec<bool>>, size: u64) -> (r: Option<(usize, usize, usize)>)
        requires
            self@.wf(),
            shaped(self@.table, flags(free@)),
        ensures
            match (r, self@.spot(flags(free@), size)) {
                (Some((p, a, b)), Some(spot)) => p == spot.page && a == spot.first && b
                    == spot.last,
                (None, None) => true,
                _ => false,
            },
    {
        let ghost f = flags(free@);
        let need: u64 = match self.need_of(size) {
            Some(need) => need,
            None => {
                return None;
            },
        };
        let mut p: usize = 0;
        while p < self.table.pages.len()
            invariant
                p <= self.table.pages.len(),
                self@.wf(),
                f == flags(free@),
                shaped(self@.table, f),
                need == self@.need(size),
                forall|q: int| 0 <= q < p ==> !(#[trigger] self@.has_room(f, q, size)),
            decreases self.table.pages.len() - p,
        {
            let ghost slot = self@.table[p as int];
            match &self.table.pages[p] {
                Some(page) => {
                    assert(slot == Some(page@));
                    let row: &Vec<bool> = &free[p];
                    assert(f[p as int] == row@);
                    assert(row@.len() == slice_count(slot));
                    match self.room_on(page, row, need) {
                        Some((a, b)) => {
                            proof {
                                let pool = self@;
                                assert(pool.has_room(f, p as int, size));
                                lemma_first_is(
                                    pool.table.len(),
                                    |q: int| pool.has_room(f, q, size),
                                    p as int,
                                );
                            }
                            return Some((p, a, b));
                        },
                        None => {},
                    }
                },
                None => {
                    assert(slot is None);
                },
            }
            p += 1;
        }
        proof {
            let pool = self@;
            lemma_first_none(pool.table.len(), |q: int| pool.has_room(f, q, size));
        }
        None
    }

    /// Whether a reservation can be served from the pages there are.
    pub fn has_spot(&self, free: &Vec<Vec<bool>>, size: u64) -> (r: bool)
        requires
            self@.wf(),
            shaped(self@.table, flags(free@)),
        ensures
            r == (self@.spot(flags(free@), size) is Some),
    {
        self.find_spot(free, size).is_some()
    }

    /// Serves a reservation from the pages there are, given which slices are free.
    /// `spare` names what is left over of a slice. Says which page it is on.
    pub fn try_reserve(
        &mut self,
        size: u64,
        free: &Vec<Vec<bool>>,
        now: u64,
        spare: ManagedMemoryHandle,
    ) -> (r: Option<(ManagedMemoryHandle, usize)>)
        requires
            old(self)@.wf(),
            shaped(old(self)@.table, flags(free@)),
        ensures
            final(self)@.wf(),
            match old(self)@.spot(flags(free@), size) {
                Some(spot) => {
                    &&& final(self)@ == old(self)@.with_taken(spot, size, now, spare)
                    &&& r == Some(
                        (
                            old(self)@.table[spot.page]->0.slices[spot.first].handle,
                            spot.page as usize,
                        ),
                    )
                    &&& 0 <= spot.page <= usize::MAX
                },
                None => r is None && final(self)@ == old(self)@,
            },
    {
        let (p, a, b): (usize, usize, usize) = match self.find_spot(free, size) {
            Some(found) => found,
            None => {
                return None;
            },
        };
        let need: u64 = match self.need_of(size) {
            Some(need) => need,
            None => {
                return None;
            },
        };
        let ghost before = self@;
        proof {
            let f = flags(free@);
            lemma_spot(before, f, size);
            lemma_with_taken(before, f, size, now, spare);
            lemma_aligned_up(size as int, before.alignment as int);
            assert(f[p as int].len() == slice_count(before.table[p as int]));
            lemma_spot_in(before, before.table[p as int]->0, f[p as int], need as int);
        }
        spare.place(self.position, p);
        let rules: PoolRules = self.rules;
        let alignment: u64 = self.alignment;
        let r = match &mut self.table.pages[p] {
            Some(page) => {
                assert(before.table[p as int] == Some(page@));
                let handle = page.slices[a].handle.clone();
                carve(page, rules, alignment, a, b, size, need, now, spare);
                Some((handle, p))
            },
            None => None,
        };
        assert(self@ =~= before.with_taken(
            before.spot(flags(free@), size)->0,
            size,
            now,
            spare,
        ));
        r
    }

    /// The bytes of a new page for a reservation, or `None` where no page of the
    /// pool can hold it.
    pub fn bytes_for(&self, size: u64) -> (r: Option<u64>)
        requires
            self@.rules_wf(),
        ensures
            r is Some <==> self@.can_hold(size),
            r matches Some(bytes) ==> bytes == self@.page_bytes(size),
    {
        match self.need_of(size) {
            Some(need) => match self.fixed_bytes() {
                Some(bytes) => if need <= bytes {
                    Some(bytes)
                } else {
                    None
                },
                None => Some(need),
            },
            None => None,
        }
    }

    /// Serves a reservation from a new page. `handle` names the reservation, and
    /// `spare` what is left over of the page.
    pub fn grow(
        &mut self,
        storage: StorageHandle,
        size: u64,
        now: u64,
        handle: ManagedMemoryHandle,
        spare: ManagedMemoryHandle,
    ) -> (at: usize)
        requires
            old(self)@.wf(),
            old(self)@.can_hold(size),
            storage.size == old(self)@.page_bytes(size),
            storage.offset == 0,
            !table_owns(old(self)@.table, storage.id),
        ensures
            final(self)@.wf(),
            final(self)@ == old(self)@.with_grown(storage, size, now, handle, spare),
            at == vacant(old(self)@.table),
    {
        let ghost before = self@;
        proof {
            lemma_with_grown(before, storage, size, now, handle, spare);
            lemma_aligned_up(size as int, before.alignment as int);
        }
        let need: u64 = match self.need_of(size) {
            Some(need) => need,
            None => 0,
        };
        let at: usize = self.table.vacancy();
        handle.place(self.position, at);
        spare.place(self.position, at);
        let mut slices: Vec<Slice> = Vec::new();
        slices.push(Slice { handle, storage, padding: 0, cursor: 0 });
        let mut page = Page { storage: storage.id, bytes: storage.size, last_used: now, slices };
        assert(page@ =~= before.blank(storage, handle, now));
        carve(&mut page, self.rules, self.alignment, 0, 0, size, need, now, spare);
        self.table.add(page)
    }

    /// Whether some slice takes up exactly what a reservation of this size needs.
    pub fn has_size(&self, size: u64) -> (r: bool)
        requires
            self@.wf(),
        ensures
            r == self@.owns_size(size),
    {
        let need: u64 = match self.need_of(size) {
            Some(need) => need,
            None => {
                return false;
            },
        };
        let ghost pool = self@;
        let mut p: usize = 0;
        while p < self.table.pages.len()
            invariant
                p <= self.table.pages.len(),
                pool == self@,
                pool.wf(),
                need == pool.need(size),
                forall|q: int, k: int|
                    0 <= q < p && pool.table[q] is Some && 0 <= k < pool.table[q]->0.slices.len()
                        ==> (#[trigger] pool.table[q]->0.slices[k]).effective_size() != need,
            decreases self.table.pages.len() - p,
        {
            let ghost slot = pool.table[p as int];
            match &self.table.pages[p] {
                Some(page) => {
                    assert(slot == Some(page@));
                    assert(page_wf(page@));
                    let mut k: usize = 0;
                    while k < page.slices.len()
                        invariant
                            k <= page.slices.len(),
                            page_wf(page@),
                            pool.table[p as int] == Some(page@),
                            p < pool.table.len(),
                            pool == self@,
                            need == pool.need(size),
                            forall|m: int|
                                0 <= m < k ==> (#[trigger] page@.slices[m]).effective_size()
                                    != need,
                        decreases page.slices.len() - k,
                    {
                        let slice: &Slice = &page.slices[k];
                        assert(page@.slices[k as int].end() <= page.bytes);
                        if slice.storage.size + slice.padding == need {
                            assert(pool.table[p as int]->0.slices[k as int].effective_size()
                                == need);
                            return true;
                        }
                        k += 1;
                    }
                },
                None => {
                    assert(slot is None);
                },
            }
            p += 1;
        }
        false
    }

    /// The first page of the pool with a slice of a handle.
    pub fn page_of(&self, id: usize) -> (r: Option<usize>)
        ensures
            match r {
                Some(p) => page_with(self@.table, id) == Some(p as int),
                None => page_with(self@.table, id) is None,
            },
    {
        self.table.page_of(id)
    }

    /// The slice on page `page` that handle `id` holds.
    pub fn find(&self, page: usize, id: usize) -> (r: Result<&Slice, IoError>)
        ensures
            match r {
                Ok(slice) => find_slice(self@.table, page as int, id) == Ok::<Slice, IoError>(
                    *slice,
                ),
                Err(error) => find_slice(self@.table, page as int, id) == Err::<Slice, IoError>(
                    error,
                ),
            },
    {
        self.table.find(page, id)
    }

    /// Gives the slice that handle `id` holds on page `page` to `assigned`.
    pub fn bind(
        &mut self,
        page: usize,
        id: usize,
        assigned: ManagedMemoryHandle,
        cursor: u64,
    ) -> (r: Result<(), IoError>)
        requires
            old(self)@.wf(),
        ensures
            final(self)@.wf(),
            final(self)@ == (PoolView {
                table: rebound(old(self)@.table, page as int, id, assigned, cursor),
                ..old(self)@
            }),
            match r {
                Ok(_) => find_slice(old(self)@.table, page as int, id) is Ok,
                Err(error) => find_slice(old(self)@.table, page as int, id) == Err::<
                    Slice,
                    IoError,
                >(error),
            },
    {
        let ghost before = self@;
        proof {
            lemma_rebound(before, page as int, id, assigned, cursor);
        }
        let name = assigned.clone();
        let r = self.table.bind(page, id, assigned, cursor);
        if r.is_ok() {
            name.place(self.position, page);
        }
        r
    }

    /// How many slices the pool has, where every page has one.
    pub fn page_count(&self) -> (r: u64)
        requires
            self@.wf(),
            self@.rules !is Sliced,
        ensures
            r == slices_in(self@.table, self@.table.len()),
    {
        let ghost pool = self@;
        let mut r: u64 = 0;
        let mut i: usize = 0;
        while i < self.table.pages.len()
            invariant
                r <= i <= self.table.pages.len(),
                pool == self@,
                pool.wf(),
                pool.rules !is Sliced,
                r == slices_in(pool.table, i as nat),
            decreases self.table.pages.len() - i,
        {
            let ghost slot = pool.table[i as int];
            if self.table.pages[i].is_some() {
                assert(slot is Some && pool.page_follows(slot->0));
                r += 1;
            } else {
                assert(slot is None);
            }
            i += 1;
        }
        r
    }

    /// Notes which pages are in use.
    fn touch(&mut self, free: &Vec<Vec<bool>>, now: u64)
        requires
            shaped(old(self)@.table, flags(free@)),
        ensures
            final(self)@ == old(self)@.touched(flags(free@), now),
    {
        let ghost f = flags(free@);
        let ghost before = self@;
        let mut i: usize = 0;
        while i < self.table.pages.len()
            invariant
                i <= self.table.pages.len() == before.table.len(),
                shaped(before.table, f),
                f == flags(free@),
                self@ == (PoolView { table: self@.table, ..before }),
                forall|n: int|
                    0 <= n < i ==> (#[trigger] self@.table[n]) == before.touched(f, now).table[n],
                forall|n: int|
                    i <= n < before.table.len() ==> (#[trigger] self@.table[n]) == before.table[n],
            decreases before.table.len() - i,
        {
            let ghost table = self@.table;
            assert(table[i as int] == before.table[i as int]);
            if !every(&free[i]) {
                match &mut self.table.pages[i] {
                    Some(page) => {
                        page.last_used = now;
                    },
                    None => {},
                }
            }
            assert(self@.table =~= table.update(i as int, before.touched(f, now).table[i as int]));
            i += 1;
        }
        assert(self@ =~= before.touched(f, now));
    }

    /// Which pages a cleanup gives back.
    fn expiry(&self, free: &Vec<Vec<bool>>, now: u64, explicit: bool) -> (r: Vec<bool>)
        requires
            shaped(self@.table, flags(free@)),
        ensures
            r@ == self@.expired(flags(free@), now, explicit),
    {
        let ghost f = flags(free@);
        let mut r: Vec<bool> = self.table.idle_pages(free);
        let mut i: usize = 0;
        while i < self.table.pages.len()
            invariant
                i <= self.table.pages.len() == r.len() == self@.table.len(),
                forall|n: int|
                    0 <= n < i ==> (#[trigger] r@[n]) == self@.expired(f, now, explicit)[n],
                forall|n: int|
                    i <= n < r.len() ==> (#[trigger] r@[n]) == idle(self@.table, f)[n],
            decreases r.len() - i,
        {
            assert(r@[i as int] == idle(self@.table, f)[i as int]);
            if r[i] && !explicit {
                let past: bool = match (&self.table.pages[i], self.rules) {
                    (Some(page), PoolRules::Exclusive { dealloc_period, .. }) => {
                        assert(self@.table[i as int] == Some(page@));
                        now >= page.last_used && now - page.last_used > dealloc_period
                    },
                    _ => false,
                };
                r.set(i, past);
            }
            i += 1;
        }
        assert(r@ =~= self@.expired(f, now, explicit));
        r
    }

    /// Gives the pages that are not needed back to the storage.
    pub fn cleanup<S: ComputeStorage>(
        &mut self,
        storage: &mut S,
        free: &Vec<Vec<bool>>,
        now: u64,
        explicit: bool,
    )
        requires
            old(self)@.wf(),
            shaped(old(self)@.table, flags(free@)),
        ensures
            final(self)@.wf(),
            final(self)@ == old(self)@.cleaned(flags(free@), now, explicit),
            forall|id: usize| #[trigger]
                final(storage).ids().contains(id) <==> old(storage).ids().contains(id) && !(
                table_owns(old(self)@.table, id) && !table_owns(final(self)@.table, id)),
    {
        let ghost f = flags(free@);
        let ghost before = self@;
        let take: Vec<bool> = self.expiry(free, now, explicit);
        self.touch(free, now);
        let ghost touched = self@;
        proof {
            lemma_cleaned(before, f, now, explicit);
        }
        self.table.release(storage, &take);
        storage.flush();
        proof {
            assert(self@ =~= before.cleaned(f, now, explicit));
            let after = self@;
            assert forall|id: usize|
                (exists|i: int|
                    0 <= i < take.len() && take[i] && (#[trigger] touched.table[i]) is Some
                        && touched.table[i]->0.storage == id) == (table_owns(before.table, id)
                    && !table_owns(after.table, id)) by {
                if exists|i: int|
                    0 <= i < take.len() && take[i] && (#[trigger] touched.table[i]) is Some
                        && touched.table[i]->0.storage == id {
                    let i = choose|i: int|
                        0 <= i < take.len() && take[i] && (#[trigger] touched.table[i]) is Some
                            && touched.table[i]->0.storage == id;
                    assert(before.table[i] is Some);
                    if table_owns(after.table, id) {
                        let j = choose|j: int|
                            0 <= j < after.table.len() && (#[trigger] after.table[j]) is Some
                                && after.table[j]->0.storage == id;
                        assert(touched.table[j] is Some);
                        assert(i != j);
                    }
                }
                if table_owns(before.table, id) && !table_owns(after.table, id) {
                    let i = choose|i: int|
                        0 <= i < before.table.len() && (#[trigger] before.table[i]) is Some
                            && before.table[i]->0.storage == id;
                    assert(touched.table[i] is Some && touched.table[i]->0.storage == id);
                    if !take[i] {
                        assert(after.table[i] == touched.table[i]);
                    }
                }
            }
        }
    }

    /// What the pool counts for with every slice in use, or `None` where that cannot be counted.
    pub fn capacity(&self) -> (r: Option<MemoryUsage>)
        ensures
            match r {
                Some(usage) => usage@ == table_capacity(self@.table),
                None => !table_capacity(self@.table).fits(),
            },
    {
        self.table.capacity()
    }

    /// What the pool counts for, given which slices are free.
    pub fn usage(&self, free: &Vec<Vec<bool>>) -> (r: MemoryUsage)
        requires
            shaped(self@.table, flags(free@)),
            table_usage(self@.table, flags(free@)).fits(),
        ensures
            r@ == table_usage(self@.table, flags(free@)),
    {
        self.table.usage(free)
    }
}

/// Lets a reservation take up slices `first` to `last` of a page.
fn carve(
    page: &mut Page,
    rules: PoolRules,
    alignment: u64,
    first: usize,
    last: usize,
    size: u64,
    need: u64,
    now: u64,
    spare: ManagedMemoryHandle,
)
    requires
        page_wf(old(page)@),
        first <= last < old(page)@.slices.len(),
        need == aligned_up(size as int, alignment as int),
        size <= need,
        rules is Sliced ==> need <= old(page)@.slices[last as int].end()
            - old(page)@.slices[first as int].start(),
        rules !is Sliced ==> old(page)@.slices.len() == 1,
    ensures
        final(page)@ == empty_pool(rules, alignment, 0).carved(
            old(page)@,
            first as int,
            last as int,
            size,
            now,
            spare,
        ),
{
    let ghost before = page@;
    assert(before.slices[last as int].end() <= before.bytes);
    assert(before.slices[first as int].end() <= before.bytes);
    let offset: u64 = page.slices[first].storage.offset;
    let taken = Slice {
        handle: page.slices[first].handle.clone(),
        storage: StorageHandle { id: page.storage, offset, size },
        padding: need - size,
        cursor: 0,
    };
    let end: u64 = page.slices[last].storage.offset + page.slices[last].storage.size
        + page.slices[last].padding;
    let name = if last > first {
        page.slices[last].handle.clone()
    } else {
        spare
    };
    let storage: usize = page.storage;
    let count: usize = page.slices.len();
    assert(last < count);
    let mut tail: Vec<Slice> = page.slices.split_off(first);
    let mut after: Vec<Slice> = tail.split_off(last - first + 1);
    page.slices.push(taken);
    match rules {
        PoolRules::Sliced { .. } => {
            if end - offset > need {
                page.slices.push(
                    Slice {
                        handle: name,
                        storage: StorageHandle {
                            id: storage,
                            offset: offset + need,
                            size: end - offset - need,
                        },
                        padding: 0,
                        cursor: 0,
                    },
                );
            }
        },
        _ => {},
    }
    page.slices.append(&mut after);
    page.last_used = now;
    assert(page@ =~= empty_pool(rules, alignment, 0).carved(
        before,
        first as int,
        last as int,
        size,
        now,
        spare,
    ));
}

} // verus!
