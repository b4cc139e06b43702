//! Pages of memory and the slices that lie on them.

use vstd::prelude::*;

use crate::first::{first_where, lemma_first_from, lemma_first_is, lemma_first_none};
use crate::memory::error::{IoError, Missing};
use crate::memory::handle::{is_free_with, ManagedMemoryHandle};
use crate::memory::storage::{ComputeStorage, StorageHandle};

verus! {

/// A range of a page, and the handle that holds it.
pub struct Slice {
    /// The handle whose clones keep the slice in use.
    pub handle: ManagedMemoryHandle,
    /// The range of bytes that was asked for.
    pub storage: StorageHandle,
    /// The bytes behind the range that alignment costs.
    pub padding: u64,
    /// The stream operation that last wrote the slice.
    pub cursor: u64,
}

impl Slice {
    /// Where the slice starts on its page.
    pub open spec fn start(self) -> int {
        self.storage.offset as int
    }

    /// The bytes the slice takes, padding included.
    pub open spec fn effective_size(self) -> int {
        self.storage.size + self.padding
    }

    /// Where the slice ends on its page, padding included.
    pub open spec fn end(self) -> int {
        self.start() + self.effective_size()
    }
}

/// One allocation of the storage, cut into slices.
pub struct Page {
    /// The allocation.
    pub storage: usize,
    /// How many bytes it has.
    pub bytes: u64,
    /// The reservation count at which the page was last seen in use.
    pub last_used: u64,
    /// The slices, in the order of their offsets.
    pub slices: Vec<Slice>,
}

/// What a page is, for contracts.
#[verifier::ext_equal]
pub struct PageView {
    pub storage: usize,
    pub bytes: u64,
    pub last_used: u64,
    pub slices: Seq<Slice>,
}

impl View for Page {
    type V = PageView;

    open spec fn view(&self) -> PageView {
        PageView {
            storage: self.storage,
            bytes: self.bytes,
            last_used: self.last_used,
            slices: self.slices@,
        }
    }
}

/// The slices lie on the page, in order and without overlap.
pub open spec fn page_wf(page: PageView) -> bool {
    &&& page.slices.len() > 0
    &&& forall|k: int|
        0 <= k < page.slices.len() ==> (#[trigger] page.slices[k]).storage.id == page.storage
            && page.slices[k].end() <= page.bytes
    &&& forall|i: int, j: int|
        0 <= i < j < page.slices.len() ==> (#[trigger] page.slices[i]).end() <= (
        #[trigger] page.slices[j]).start()
}

/// Every page is well formed, and no two are the same allocation.
pub open spec fn table_wf(table: Seq<Option<PageView>>) -> bool {
    &&& forall|i: int|
        0 <= i < table.len() && (#[trigger] table[i]) is Some ==> page_wf(table[i]->0)
    &&& forall|i: int, j: int|
        0 <= i < j < table.len() && (#[trigger] table[i]) is Some && (#[trigger] table[j]) is Some
            ==> table[i]->0.storage != table[j]->0.storage
}

/// Whether a page of the table is this allocation.
pub open spec fn table_owns(table: Seq<Option<PageView>>, id: usize) -> bool {
    exists|i: int|
        0 <= i < table.len() && (#[trigger] table[i]) is Some && table[i]->0.storage == id
}

/// How many slices lie in a slot of a table.
pub open spec fn slice_count(slot: Option<PageView>) -> nat {
    match slot {
        Some(page) => page.slices.len(),
        None => 0,
    }
}

/// One flag for every slice of every page: whether it is free.
pub open spec fn shaped(table: Seq<Option<PageView>>, free: Seq<Seq<bool>>) -> bool {
    &&& free.len() == table.len()
    &&& forall|i: int| 0 <= i < table.len() ==> (#[trigger] free[i]).len() == slice_count(table[i])
}

/// The flags that nested vectors hold.
pub open spec fn flags(free: Seq<Vec<bool>>) -> Seq<Seq<bool>> {
    free.map_values(|row: Vec<bool>| row@)
}

/// One count for every slice of every page: how many holders it has. Memory that is read only
/// has holders that nobody gives up.
pub open spec fn tallied(table: Seq<Option<PageView>>, counts: Seq<Seq<usize>>) -> bool {
    &&& counts.len() == table.len()
    &&& forall|i: int|
        0 <= i < table.len() ==> (#[trigger] counts[i]).len() == slice_count(table[i])
    &&& forall|i: int, k: int|
        #![trigger counts[i][k]]
        0 <= i < table.len() && table[i] is Some && 0 <= k < table[i]->0.slices.len()
            && table[i]->0.slices[k].handle.read_only() ==> counts[i][k] >= 2
}

/// Whether no slice that is read only is said to be free.
pub open spec fn offered(table: Seq<Option<PageView>>, free: Seq<Seq<bool>>) -> bool {
    forall|i: int, k: int|
        #![trigger free[i][k]]
        0 <= i < table.len() && table[i] is Some && 0 <= k < table[i]->0.slices.len()
            && free[i][k] ==> !table[i]->0.slices[k].handle.read_only()
}

/// The counts that nested vectors hold.
pub open spec fn tallies(counts: Seq<Vec<usize>>) -> Seq<Seq<usize>> {
    counts.map_values(|row: Vec<usize>| row@)
}

/// Which slices only the pool still holds, by the counts of their holders.
pub open spec fn unheld(counts: Seq<Seq<usize>>) -> Seq<Seq<bool>> {
    Seq::new(counts.len(), |i: int| Seq::new(counts[i].len(), |k: int| counts[i][k] <= 1))
}

/// Whether some slice of a table is a handle's.
pub open spec fn table_holds(table: Seq<Option<PageView>>, id: usize) -> bool {
    exists|p: int, k: int|
        0 <= p < table.len() && table[p] is Some && 0 <= k < table[p]->0.slices.len() && (
        #[trigger] table[p]->0.slices[k]).handle.id() == id
}

/// Whether every slice of a page is free.
pub open spec fn all_free(row: Seq<bool>) -> bool {
    forall|k: int| 0 <= k < row.len() ==> #[trigger] row[k]
}

/// The slice of a page that a handle holds: the first, should there be more.
pub open spec fn slice_of(slices: Seq<Slice>, id: usize) -> Option<int> {
    first_where(slices.len(), |k: int| slices[k].handle.id() == id)
}

/// The slice that lies on page `page` and is held by handle `id`.
pub open spec fn find_slice(table: Seq<Option<PageView>>, page: int, id: usize) -> Result<
    Slice,
    IoError,
> {
    if page < table.len() && table[page] is Some {
        match slice_of(table[page]->0.slices, id) {
            Some(k) => Ok(table[page]->0.slices[k]),
            None => Err(IoError::InvalidHandle),
        }
    } else {
        Err(IoError::NotFound { reason: Missing::Page { index: page as usize } })
    }
}

/// The first page with a slice of a handle.
pub open spec fn page_with(table: Seq<Option<PageView>>, id: usize) -> Option<int> {
    first_where(table.len(), |p: int| find_slice(table, p, id) is Ok)
}

/// A page with a slice of a handle is found exactly if there is such a slice.
pub proof fn lemma_page_with(table: Seq<Option<PageView>>, id: usize)
    ensures
        page_with(table, id) is Some <==> table_holds(table, id),
        page_with(table, id) matches Some(p) ==> 0 <= p < table.len() && find_slice(
            table,
            p,
            id,
        ) is Ok,
{
    lemma_first_from(0, table.len() as int, |p: int| find_slice(table, p, id) is Ok);
    let found = |p: int| find_slice(table, p, id) is Ok;
    assert forall|p: int| 0 <= p < table.len() && #[trigger] found(p) implies table_holds(table, id) by {
        let slices = table[p]->0.slices;
        lemma_first_from(0, slices.len() as int, |k: int| slices[k].handle.id() == id);
        let k = slice_of(slices, id)->0;
        assert(table[p]->0.slices[k].handle.id() == id);
    }
    if table_holds(table, id) {
        let (p, k) = choose|p: int, k: int|
            0 <= p < table.len() && table[p] is Some && 0 <= k < table[p]->0.slices.len() && (
            #[trigger] table[p]->0.slices[k]).handle.id() == id;
        let slices = table[p]->0.slices;
        let held = |k: int| slices[k].handle.id() == id;
        lemma_first_from(0, slices.len() as int, held);
        assert(held(k));
        assert(found(p));
    }
}

/// The table after the slice that handle `id` holds on page `page` was given to
/// another handle.
pub open spec fn rebound(
    table: Seq<Option<PageView>>,
    page: int,
    id: usize,
    assigned: ManagedMemoryHandle,
    cursor: u64,
) -> Seq<Option<PageView>> {
    if find_slice(table, page, id) is Ok {
        let old = table[page]->0;
        let k = slice_of(old.slices, id)->0;
        let slice = Slice { handle: assigned, cursor, ..old.slices[k] };
        table.update(page, Some(PageView { slices: old.slices.update(k, slice), ..old }))
    } else {
        table
    }
}

/// The slot a new page goes to: the first one without a page.
pub open spec fn vacant(table: Seq<Option<PageView>>) -> int {
    match first_where(table.len(), |i: int| table[i] is None) {
        Some(i) => i,
        None => table.len() as int,
    }
}

/// The table with one more page.
pub open spec fn with_page(table: Seq<Option<PageView>>, page: PageView) -> Seq<
    Option<PageView>,
> {
    if vacant(table) < table.len() {
        table.update(vacant(table), Some(page))
    } else {
        table.push(Some(page))
    }
}

/// The table without the pages that `take` marks.
pub open spec fn released(table: Seq<Option<PageView>>, take: Seq<bool>) -> Seq<
    Option<PageView>,
> {
    Seq::new(
        table.len(),
        |i: int|
            if take[i] {
                None
            } else {
                table[i]
            },
    )
}

/// Which slots hold a page with no slice in use.
pub open spec fn idle(table: Seq<Option<PageView>>, free: Seq<Seq<bool>>) -> Seq<bool> {
    Seq::new(table.len(), |i: int| table[i] is Some && all_free(free[i]))
}

/// A table of pages. A page keeps its index for as long as it lives.
pub struct PageTable {
    pub pages: Vec<Option<Page>>,
}

impl View for PageTable {
    type V = Seq<Option<PageView>>;

    open spec fn view(&self) -> Seq<Option<PageView>> {
        self.pages@.map_values(
            |slot: Option<Page>|
                match slot {
                    Some(page) => Some(page@),
                    None => None,
                },
        )
    }
}

impl PageTable {
    /// A table without pages.
    pub fn new() -> (r: PageTable)
        ensures
            r@ == Seq::<Option<PageView>>::empty(),
    {
        let r = PageTable { pages: Vec::new() };
        assert(r@ =~= Seq::<Option<PageView>>::empty());
        r
    }

    /// Asks of every slice how many holders it has. What the answer is depends on who still
    /// holds a handle.
    fn holders(&self) -> (r: Vec<Vec<usize>>)
        ensures
            tallied(self@, tallies(r@)),
    {
        let mut r: Vec<Vec<usize>> = Vec::new();
        let mut i: usize = 0;
        while i < self.pages.len()
            invariant
                i <= self.pages.len(),
                r.len() == i,
                forall|n: int|
                    0 <= n < i ==> (#[trigger] r@[n])@.len() == slice_count(self@[n]),
                forall|n: int, k: int|
                    #![trigger r@[n]@[k]]
                    0 <= n < i && self@[n] is Some && 0 <= k < self@[n]->0.slices.len()
                        && self@[n]->0.slices[k].handle.read_only() ==> r@[n]@[k] >= 2,
            decreases self.pages.len() - i,
        {
            let mut row: Vec<usize> = Vec::new();
            match &self.pages[i] {
                Some(page) => {
                    let mut k: usize = 0;
                    while k < page.slices.len()
                        invariant
                            k <= page.slices.len(),
                            row.len() == k,
                            forall|n: int|
                                0 <= n < k && page.slices@[n].handle.read_only()
                                    ==> #[trigger] row@[n] >= 2,
                        decreases page.slices.len() - k,
                    {
                        row.push(page.slices[k].handle.holders());
                        k += 1;
                    }
                },
                None => {},
            }
            r.push(row);
            i += 1;
        }
        r
    }

    /// Asks of every slice whether it is free: whether only the pool still holds it. How many
    /// holders there are depends on who still holds a handle.
    pub fn liveness(&self) -> (r: Vec<Vec<bool>>)
        ensures
            shaped(self@, flags(r@)),
            offered(self@, flags(r@)),
            exists|counts: Seq<Seq<usize>>|
                tallied(self@, counts) && flags(r@) == #[trigger] unheld(counts),
    {
        let counts = self.holders();
        let r = free_flags(&counts);
        proof {
            let tally = tallies(counts@);
            assert(flags(r@) == unheld(tally));
            assert forall|i: int, k: int|
                #![trigger flags(r@)[i][k]]
                0 <= i < self@.len() && self@[i] is Some && 0 <= k < self@[i]->0.slices.len()
                    && flags(r@)[i][k] implies !self@[i]->0.slices[k].handle.read_only() by {
                assert(tally[i].len() == slice_count(self@[i]));
                assert(tally[i][k] <= 1);
            }
        }
        r
    }

    /// Whether some slice of the table is a handle's.
    pub fn holds(&self, id: usize) -> (r: bool)
        ensures
            r == table_holds(self@, id),
    {
        let ghost table = self@;
        let mut i: usize = 0;
        while i < self.pages.len()
            invariant
                i <= self.pages.len(),
                table == self@,
                forall|p: int, k: int|
                    0 <= p < i && table[p] is Some && 0 <= k < table[p]->0.slices.len() ==> (
                    #[trigger] table[p]->0.slices[k]).handle.id() != id,
            decreases self.pages.len() - i,
        {
            match &self.pages[i] {
                Some(page) => {
                    assert(table[i as int] == Some(page@));
                    let found: Option<usize> = position_of(&page.slices, id);
                    proof {
                        let slices = page.slices@;
                        let held = |n: int| slices[n].handle.id() == id;
                        lemma_first_from(0, slices.len() as int, held);
                        assert(slice_of(slices, id) == first_where(slices.len(), held));
                        assert forall|k: int| 0 <= k < slices.len() && found is None implies (
                        #[trigger] slices[k]).handle.id() != id by {
                            assert(!held(k));
                        }
                    }
                    match found {
                        Some(k) => {
                            assert(table[i as int]->0.slices[k as int].handle.id() == id);
                            return true;
                        },
                        None => {},
                    }
                },
                None => {},
            }
            i += 1;
        }
        false
    }

    /// The slice on page `page` that handle `id` holds.
    pub fn find(&self, page: usize, id: usize) -> (r: Result<&Slice, IoError>)
        ensures
            match r {
                Ok(slice) => find_slice(self@, page as int, id) == Ok::<Slice, IoError>(*slice),
                Err(error) => find_slice(self@, page as int, id) == Err::<Slice, IoError>(error),
            },
    {
        if page >= self.pages.len() {
            return Err(IoError::NotFound { reason: Missing::Page { index: page } });
        }
        match &self.pages[page] {
            Some(found) => match position_of(&found.slices, id) {
                Some(k) => Ok(&found.slices[k]),
                None => Err(IoError::InvalidHandle),
            },
            None => Err(IoError::NotFound { reason: Missing::Page { index: page } }),
        }
    }

    /// The first page with a slice of a handle.
    pub fn page_of(&self, id: usize) -> (r: Option<usize>)
        ensures
            match r {
                Some(p) => page_with(self@, id) == Some(p as int),
                None => page_with(self@, id) is None,
            },
    {
        let ghost found = |p: int| find_slice(self@, p, id) is Ok;
        let mut p: usize = 0;
        while p < self.pages.len()
            invariant
                p <= self.pages.len(),
                found == (|p: int| find_slice(self@, p, id) is Ok),
                forall|q: int| 0 <= q < p ==> !(#[trigger] found(q)),
            decreases self.pages.len() - p,
        {
            match self.find(p, id) {
                Ok(_) => {
                    proof {
                        assert(found(p as int));
                        lemma_first_is(self@.len(), found, p as int);
                    }
                    return Some(p);
                },
                Err(_) => {
                    assert(!found(p as int));
                },
            }
            p += 1;
        }
        proof {
            lemma_first_none(self@.len(), found);
        }
        None
    }

    /// Gives the slice that handle `id` holds on page `page` to `assigned`.
    pub fn bind(
        &mut self,
        page: usize,
        id: usize,
        assigned: ManagedMemoryHandle,
        cursor: u64,
    ) -> (r: Result<(), IoError>)
        ensures
            final(self)@ == rebound(old(self)@, page as int, id, assigned, cursor),
            match r {
                Ok(_) => find_slice(old(self)@, page as int, id) is Ok,
                Err(error) => find_slice(old(self)@, page as int, id) == Err::<Slice, IoError>(
                    error,
                ),
            },
    {
        if page >= self.pages.len() {
            return Err(IoError::NotFound { reason: Missing::Page { index: page } });
        }
        let r = match &mut self.pages[page] {
            Some(found) => match position_of(&found.slices, id) {
                Some(k) => {
                    let ghost before = found.slices@;
                    found.slices[k].handle = assigned;
                    found.slices[k].cursor = cursor;
                    assert(found.slices@ =~= before.update(
                        k as int,
                        Slice { handle: assigned, cursor, ..before[k as int] },
                    ));
                    Ok(())
                },
                None => Err(IoError::InvalidHandle),
            },
            None => Err(IoError::NotFound { reason: Missing::Page { index: page } }),
        };
        assert(self@ =~= rebound(old(self)@, page as int, id, assigned, cursor));
        r
    }

    /// Which slots hold a page with no slice in use.
    pub fn idle_pages(&self, free: &Vec<Vec<bool>>) -> (r: Vec<bool>)
        requires
            shaped(self@, flags(free@)),
        ensures
            r@ == idle(self@, flags(free@)),
    {
        let mut r: Vec<bool> = Vec::new();
        let mut i: usize = 0;
        while i < self.pages.len()
            invariant
                i <= self.pages.len(),
                free.len() == self.pages.len(),
                r.len() == i,
                forall|n: int|
                    0 <= n < i ==> (#[trigger] r@[n]) == idle(self@, flags(free@))[n],
            decreases self.pages.len() - i,
        {
            let flag: bool = if self.pages[i].is_none() {
                false
            } else {
                every(&free[i])
            };
            r.push(flag);
            i += 1;
        }
        assert(r@ =~= idle(self@, flags(free@)));
        r
    }

    /// Gives the pages that `take` marks back to the storage.
    pub fn release<S: ComputeStorage>(&mut self, storage: &mut S, take: &Vec<bool>)
        requires
            take.len() == old(self)@.len(),
        ensures
            final(self)@ == released(old(self)@, take@),
            forall|id: usize| #[trigger]
                final(storage).ids().contains(id) <==> old(storage).ids().contains(id) && !exists|
                    i: int,
                |
                    0 <= i < take.len() && take[i] && (#[trigger] old(self)@[i]) is Some
                        && old(self)@[i]->0.storage == id,
    {
        let ghost t = self@;
        let ghost before = storage.ids();
        let mut i: usize = 0;
        while i < self.pages.len()
            invariant
                i <= self.pages.len() == t.len() == take.len(),
                t == old(self)@,
                before == old(storage).ids(),
                forall|n: int| 0 <= n < i ==> (#[trigger] self@[n]) == released(t, take@)[n],
                forall|n: int| i <= n < t.len() ==> (#[trigger] self@[n]) == t[n],
                forall|id: usize| #[trigger]
                    storage.ids().contains(id) <==> before.contains(id) && !exists|n: int|
                        0 <= n < i && take[n] && (#[trigger] t[n]) is Some && t[n]->0.storage == id,
            decreases self.pages.len() - i,
        {
            let ghost table = self@;
            if take[i] {
                match &self.pages[i] {
                    Some(page) => {
                        assert(table[i as int] == Some(page@));
                        storage.deallocate(page.storage);
                    },
                    None => {
                        assert(table[i as int] is None);
                    },
                }
                self.pages[i] = None;
                assert(self@ =~= table.update(i as int, None));
            }
            i += 1;
        }
        assert(self@ =~= released(t, take@));
    }

    /// Adds a page and says at which index.
    pub fn add(&mut self, page: Page) -> (at: usize)
        ensures
            at == vacant(old(self)@),
            final(self)@ == with_page(old(self)@, page@),
    {
        let at = self.vacancy();
        if at < self.pages.len() {
            self.pages[at] = Some(page);
        } else {
            self.pages.push(Some(page));
        }
        assert(self@ =~= with_page(old(self)@, page@));
        at
    }

    /// The index the next page goes to.
    pub fn vacancy(&self) -> (at: usize)
        ensures
            at == vacant(self@),
            at <= self@.len(),
    {
        let mut i: usize = 0;
        while i < self.pages.len()
            invariant
                i <= self.pages.len(),
                forall|n: int| 0 <= n < i ==> (#[trigger] self@[n]) is Some,
            decreases self.pages.len() - i,
        {
            if self.pages[i].is_none() {
                proof {
                    let t = self@;
                    lemma_first_is(t.len(), |n: int| t[n] is None, i as int);
                }
                return i;
            }
            i += 1;
        }
        proof {
            let t = self@;
            lemma_first_none(t.len(), |n: int| t[n] is None);
        }
        i
    }
}

/// Which slices only the pool still holds, by the counts of their holders.
pub fn free_flags(counts: &Vec<Vec<usize>>) -> (r: Vec<Vec<bool>>)
    ensures
        flags(r@) == unheld(tallies(counts@)),
{
    let ghost wanted = unheld(tallies(counts@));
    let mut r: Vec<Vec<bool>> = Vec::new();
    let mut i: usize = 0;
    while i < counts.len()
        invariant
            i <= counts.len(),
            r.len() == i,
            wanted == unheld(tallies(counts@)),
            forall|n: int| 0 <= n < i ==> (#[trigger] r@[n])@ == wanted[n],
        decreases counts.len() - i,
    {
        let mut row: Vec<bool> = Vec::new();
        let mut k: usize = 0;
        while k < counts[i].len()
            invariant
                i < counts.len(),
                k <= counts@[i as int].len(),
                row.len() == k,
                forall|n: int|
                    0 <= n < k ==> (#[trigger] row@[n]) == (counts@[i as int]@[n] <= 1),
            decreases counts@[i as int].len() - k,
        {
            row.push(is_free_with(counts[i][k]));
            k += 1;
        }
        assert(row@ =~= wanted[i as int]);
        r.push(row);
        i += 1;
    }
    assert(flags(r@) =~= wanted);
    r
}

/// Whether every flag is set.
pub fn every(row: &Vec<bool>) -> (r: bool)
    ensures
        r == all_free(row@),
{
    let mut k: usize = 0;
    while k < row.len()
        invariant
            k <= row.len(),
            forall|n: int| 0 <= n < k ==> #[trigger] row@[n],
        decreases row.len() - k,
    {
        if !row[k] {
            return false;
        }
        k += 1;
    }
    true
}

/// The slice that handle `id` holds.
pub fn position_of(slices: &Vec<Slice>, id: usize) -> (r: Option<usize>)
    ensures
        match r {
            Some(k) => k < slices.len() && slice_of(slices@, id) == Some(k as int),
            None => slice_of(slices@, id) is None,
        },
{
    let mut k: usize = 0;
    while k < slices.len()
        invariant
            k <= slices.len(),
            forall|n: int| 0 <= n < k ==> (#[trigger] slices@[n]).handle.id() != id,
        decreases slices.len() - k,
    {
        if slices[k].handle.handle_id() == id {
            proof {
                let s = slices@;
                lemma_first_is(s.len(), |n: int| s[n].handle.id() == id, k as int);
            }
            return Some(k);
        }
        k += 1;
    }
    proof {
        let s = slices@;
        lemma_first_none(s.len(), |n: int| s[n].handle.id() == id);
    }
    None
}

} // verus!
