//! How much memory is in use.

use vstd::prelude::*;

use crate::memory::page::{flags, page_wf, shaped, slice_count, table_wf, PageTable, PageView, Slice};

verus! {

/// Amounts of memory.
#[derive(Clone, Copy, Debug, PartialEq, Eq)]
pub struct MemoryUsage {
    /// How many slices are in use.
    pub number_allocs: u64,
    /// The bytes of those slices, as they were asked for.
    pub bytes_in_use: u64,
    /// The bytes that their alignment costs on top.
    pub bytes_padding: u64,
    /// The bytes of all pages, in use or not.
    pub bytes_reserved: u64,
}

/// Amounts of memory, without a bound.
pub struct Usage {
    pub number_allocs: int,
    pub bytes_in_use: int,
    pub bytes_padding: int,
    pub bytes_reserved: int,
}

impl Usage {
    /// The amounts added up.
    pub open spec fn plus(self, other: Usage) -> Usage {
        Usage {
            number_allocs: self.number_allocs + other.number_allocs,
            bytes_in_use: self.bytes_in_use + other.bytes_in_use,
            bytes_padding: self.bytes_padding + other.bytes_padding,
            bytes_reserved: self.bytes_reserved + other.bytes_reserved,
        }
    }

    /// Whether every amount can be counted.
    pub open spec fn fits(self) -> bool {
        &&& self.number_allocs <= u64::MAX
        &&& self.bytes_in_use <= u64::MAX
        &&& self.bytes_padding <= u64::MAX
        &&& self.bytes_reserved <= u64::MAX
    }

    /// No amount is larger than in `other`, and none is negative.
    pub open spec fn within(self, other: Usage) -> bool {
        &&& 0 <= self.number_allocs <= other.number_allocs
        &&& 0 <= self.bytes_in_use <= other.bytes_in_use
        &&& 0 <= self.bytes_padding <= other.bytes_padding
        &&& 0 <= self.bytes_reserved <= other.bytes_reserved
    }
}

/// No memory at all.
pub open spec fn no_usage() -> Usage {
    Usage { number_allocs: 0, bytes_in_use: 0, bytes_padding: 0, bytes_reserved: 0 }
}

impl View for MemoryUsage {
    type V = Usage;

    open spec fn view(&self) -> Usage {
        Usage {
            number_allocs: self.number_allocs as int,
            bytes_in_use: self.bytes_in_use as int,
            bytes_padding: self.bytes_padding as int,
            bytes_reserved: self.bytes_reserved as int,
        }
    }
}

impl MemoryUsage {
    /// No memory at all.
    pub fn none() -> (r: MemoryUsage)
        ensures
            r@ == no_usage(),
    {
        MemoryUsage { number_allocs: 0, bytes_in_use: 0, bytes_padding: 0, bytes_reserved: 0 }
    }

    /// The amounts added up.
    pub fn combine(&self, other: MemoryUsage) -> (r: MemoryUsage)
        requires
            self@.plus(other@).fits(),
        ensures
            r@ == self@.plus(other@),
    {
        MemoryUsage {
            number_allocs: self.number_allocs + other.number_allocs,
            bytes_in_use: self.bytes_in_use + other.bytes_in_use,
            bytes_padding: self.bytes_padding + other.bytes_padding,
            bytes_reserved: self.bytes_reserved + other.bytes_reserved,
        }
    }

    /// The amounts added up, or `None` where one of them cannot be counted.
    pub fn checked_combine(&self, other: MemoryUsage) -> (r: Option<MemoryUsage>)
        ensures
            match r {
                Some(sum) => sum@ == self@.plus(other@),
                None => !self@.plus(other@).fits(),
            },
    {
        Some(
            MemoryUsage {
                number_allocs: self.number_allocs.checked_add(other.number_allocs)?,
                bytes_in_use: self.bytes_in_use.checked_add(other.bytes_in_use)?,
                bytes_padding: self.bytes_padding.checked_add(other.bytes_padding)?,
                bytes_reserved: self.bytes_reserved.checked_add(other.bytes_reserved)?,
            },
        )
    }
}

/// What one slice counts for: nothing while it is free.
pub open spec fn slice_usage(slice: Slice, free: bool) -> Usage {
    if free {
        no_usage()
    } else {
        Usage {
            number_allocs: 1,
            bytes_in_use: slice.storage.size as int,
            bytes_padding: slice.padding as int,
            bytes_reserved: 0,
        }
    }
}

/// What the first `n` slices of a page count for.
pub open spec fn slices_usage(slices: Seq<Slice>, row: Seq<bool>, n: nat) -> Usage
    decreases n,
{
    if n == 0 {
        no_usage()
    } else {
        slices_usage(slices, row, (n - 1) as nat).plus(
            slice_usage(slices[n - 1], row[n - 1]),
        )
    }
}

/// What a slot of a table counts for: its page, and the slices in use on it.
pub open spec fn slot_usage(slot: Option<PageView>, row: Seq<bool>) -> Usage {
    match slot {
        Some(page) => slices_usage(page.slices, row, page.slices.len()).plus(
            Usage { bytes_reserved: page.bytes as int, ..no_usage() },
        ),
        None => no_usage(),
    }
}

/// What the first `n` slots of a table count for.
pub open spec fn slots_usage(table: Seq<Option<PageView>>, free: Seq<Seq<bool>>, n: nat) -> Usage
    decreases n,
{
    if n == 0 {
        no_usage()
    } else {
        slots_usage(table, free, (n - 1) as nat).plus(slot_usage(table[n - 1], free[n - 1]))
    }
}

/// What a table counts for.
pub open spec fn table_usage(table: Seq<Option<PageView>>, free: Seq<Seq<bool>>) -> Usage {
    slots_usage(table, free, table.len())
}

proof fn lemma_slices_usage_grows(slices: Seq<Slice>, row: Seq<bool>, m: nat, n: nat)
    requires
        m <= n,
    ensures
        slices_usage(slices, row, m).within(slices_usage(slices, row, n)),
    decreases n,
{
    if n > 0 {
        if m < n {
            lemma_slices_usage_grows(slices, row, m, (n - 1) as nat);
        } else {
            lemma_slices_usage_grows(slices, row, (n - 1) as nat, (n - 1) as nat);
        }
    }
}

proof fn lemma_slots_usage_grows(
    table: Seq<Option<PageView>>,
    free: Seq<Seq<bool>>,
    m: nat,
    n: nat,
)
    requires
        m <= n,
    ensures
        slots_usage(table, free, m).within(slots_usage(table, free, n)),
    decreases n,
{
    if n > 0 {
        match table[n - 1] {
            Some(page) => {
                lemma_slices_usage_grows(page.slices, free[n - 1], 0, page.slices.len());
            },
            None => {},
        }
        if m < n {
            lemma_slots_usage_grows(table, free, m, (n - 1) as nat);
        } else {
            lemma_slots_usage_grows(table, free, (n - 1) as nat, (n - 1) as nat);
        }
    }
}

/// The flags of a table with every slice in use.
pub open spec fn none_free(table: Seq<Option<PageView>>) -> Seq<Seq<bool>> {
    Seq::new(table.len(), |i: int| Seq::new(slice_count(table[i]), |k: int| false))
}

/// What a table counts for with every slice in use.
pub open spec fn table_capacity(table: Seq<Option<PageView>>) -> Usage {
    table_usage(table, none_free(table))
}

/// How many slices lie in the first `n` slots of a table.
pub open spec fn slices_in(table: Seq<Option<PageView>>, n: nat) -> nat
    decreases n,
{
    if n == 0 {
        0
    } else {
        slices_in(table, (n - 1) as nat) + slice_count(table[n - 1])
    }
}

proof fn lemma_slices_within(slices: Seq<Slice>, row: Seq<bool>, n: nat)
    requires
        n <= slices.len(),
    ensures
        slices_usage(slices, row, n).within(
            slices_usage(slices, Seq::new(slices.len(), |k: int| false), n),
        ),
    decreases n,
{
    if n > 0 {
        lemma_slices_within(slices, row, (n - 1) as nat);
    }
}

proof fn lemma_slots_within(table: Seq<Option<PageView>>, free: Seq<Seq<bool>>, n: nat)
    requires
        n <= table.len(),
    ensures
        slots_usage(table, free, n).within(slots_usage(table, none_free(table), n)),
    decreases n,
{
    if n > 0 {
        lemma_slots_within(table, free, (n - 1) as nat);
        match table[n - 1] {
            Some(page) => {
                lemma_slices_within(page.slices, free[n - 1], page.slices.len());
            },
            None => {},
        }
    }
}

/// A table never counts for more than with every slice in use.
pub proof fn lemma_usage_within_capacity(table: Seq<Option<PageView>>, free: Seq<Seq<bool>>)
    ensures
        table_usage(table, free).within(table_capacity(table)),
{
    lemma_slots_within(table, free, table.len());
}

/// No amount of a table is negative.
pub proof fn lemma_table_usage_nonnegative(table: Seq<Option<PageView>>, free: Seq<Seq<bool>>)
    ensures
        no_usage().within(table_usage(table, free)),
{
    lemma_slots_usage_grows(table, free, 0, table.len());
}

proof fn lemma_slices_fit(page: PageView, row: Seq<bool>, n: nat)
    requires
        page_wf(page),
        n <= page.slices.len(),
    ensures
        slices_usage(page.slices, row, n).bytes_reserved == 0,
        slices_usage(page.slices, row, n).bytes_in_use + slices_usage(
            page.slices,
            row,
            n,
        ).bytes_padding <= (if n == 0 {
            0
        } else {
            page.slices[n - 1].end()
        }),
    decreases n,
{
    if n > 0 {
        lemma_slices_fit(page, row, (n - 1) as nat);
        if n > 1 {
            assert(page.slices[n - 2].end() <= page.slices[n - 1].start());
        }
    }
}

/// What is in use, padding included, never exceeds what is reserved.
pub proof fn lemma_usage_within_reserved(
    table: Seq<Option<PageView>>,
    free: Seq<Seq<bool>>,
    n: nat,
)
    requires
        table_wf(table),
        n <= table.len(),
    ensures
        slots_usage(table, free, n).bytes_in_use + slots_usage(table, free, n).bytes_padding
            <= slots_usage(table, free, n).bytes_reserved,
    decreases n,
{
    if n > 0 {
        lemma_usage_within_reserved(table, free, (n - 1) as nat);
        match table[n - 1] {
            Some(page) => {
                lemma_slices_fit(page, free[n - 1], page.slices.len());
            },
            None => {},
        }
    }
}

impl PageTable {
    /// What the pages count for with every slice in use, or `None` where that cannot be counted.
    pub fn capacity(&self) -> (r: Option<MemoryUsage>)
        ensures
            match r {
                Some(usage) => usage@ == table_capacity(self@),
                None => !table_capacity(self@).fits(),
            },
    {
        let ghost t = self@;
        let ghost f = none_free(t);
        let mut r: MemoryUsage = MemoryUsage::none();
        let mut i: usize = 0;
        while i < self.pages.len()
            invariant
                i <= self.pages.len(),
                t == self@,
                f == none_free(t),
                r@ == slots_usage(t, f, i as nat),
            decreases self.pages.len() - i,
        {
            proof {
                lemma_slots_usage_grows(t, f, (i + 1) as nat, t.len());
            }
            match &self.pages[i] {
                Some(page) => {
                    assert(t[i as int] == Some(page@));
                    let ghost slices = page.slices@;
                    let ghost row = f[i as int];
                    let ghost base = r@;
                    proof {
                        lemma_slots_usage_grows(t, f, i as nat, t.len());
                        lemma_slices_usage_grows(slices, row, 0, slices.len());
                    }
                    let mut k: usize = 0;
                    while k < page.slices.len()
                        invariant
                            k <= page.slices.len(),
                            slices == page.slices@,
                            row == Seq::new(slices.len(), |k: int| false),
                            r@ == base.plus(slices_usage(slices, row, k as nat)),
                            base.plus(slices_usage(slices, row, slices.len())).within(
                                table_capacity(t),
                            ),
                            t == self@,
                        decreases page.slices.len() - k,
                    {
                        proof {
                            lemma_slices_usage_grows(slices, row, (k + 1) as nat, slices.len());
                        }
                        let slice = MemoryUsage {
                            number_allocs: 1,
                            bytes_in_use: page.slices[k].storage.size,
                            bytes_padding: page.slices[k].padding,
                            bytes_reserved: 0,
                        };
                        r = match r.checked_combine(slice) {
                            Some(sum) => sum,
                            None => {
                                return None;
                            },
                        };
                        k += 1;
                    }
                    let whole = MemoryUsage {
                        number_allocs: 0,
                        bytes_in_use: 0,
                        bytes_padding: 0,
                        bytes_reserved: page.bytes,
                    };
                    r = match r.checked_combine(whole) {
                        Some(sum) => sum,
                        None => {
                            return None;
                        },
                    };
                },
                None => {},
            }
            i += 1;
        }
        Some(r)
    }

    /// What the pages count for, given which slices are free.
    pub fn usage(&self, free: &Vec<Vec<bool>>) -> (r: MemoryUsage)
        requires
            shaped(self@, flags(free@)),
            table_usage(self@, flags(free@)).fits(),
        ensures
            r@ == table_usage(self@, flags(free@)),
    {
        let ghost t = self@;
        let ghost f = flags(free@);
        let mut r: MemoryUsage = MemoryUsage::none();
        let mut i: usize = 0;
        while i < self.pages.len()
            invariant
                i <= self.pages.len(),
                t == self@,
                f == flags(free@),
                shaped(t, f),
                table_usage(t, f).fits(),
                r@ == slots_usage(t, f, i as nat),
            decreases self.pages.len() - i,
        {
            let row: &Vec<bool> = &free[i];
            assert(f[i as int] == row@);
            proof {
                lemma_slots_usage_grows(t, f, i as nat, t.len());
                lemma_slots_usage_grows(t, f, (i + 1) as nat, t.len());
            }
            match &self.pages[i] {
                Some(page) => {
                    assert(t[i as int] == Some(page@));
                    let mut k: usize = 0;
                    let ghost base = r@;
                    while k < page.slices.len()
                        invariant
                            k <= page.slices.len() == row.len(),
                            r@ == base.plus(slices_usage(page.slices@, row@, k as nat)),
                            base.plus(
                                slices_usage(page.slices@, row@, page.slices@.len()),
                            ).fits(),
                        decreases page.slices.len() - k,
                    {
                        proof {
                            lemma_slices_usage_grows(
                                page.slices@,
                                row@,
                                (k + 1) as nat,
                                page.slices@.len(),
                            );
                        }
                        if !row[k] {
                            r = r.combine(
                                MemoryUsage {
                                    number_allocs: 1,
                                    bytes_in_use: page.slices[k].storage.size,
                                    bytes_padding: page.slices[k].padding,
                                    bytes_reserved: 0,
                                },
                            );
                        }
                        k += 1;
                    }
                    r = r.combine(
                        MemoryUsage {
                            number_allocs: 0,
                            bytes_in_use: 0,
                            bytes_padding: 0,
                            bytes_reserved: page.bytes,
                        },
                    );
                },
                None => {},
            }
            i += 1;
        }
        r
    }
}

} // verus!
