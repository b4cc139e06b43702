//! How memory is divided, and what counts as used.

use vstd::arithmetic::power2::{lemma_pow2_pos, pow2};
use vstd::prelude::*;

use crate::memory::align::{aligned_up, lemma_aligned_up};
use crate::memory::options::{
    all_aligned, generate_bucket_sizes, law_buckets_cover, law_buckets_increase, lemma_quarter,
    options_of, pool_rules, pyramid, quarter, splits_end, starting_mode, sub_slice_options,
    without_repeats, MemoryAllocationMode, MemoryAllocationOption, MemoryConfiguration,
    MemoryDeviceProperties, MemoryManagementOptions, MemoryPoolOptions, PersistentMemory, PoolType,
    SPLIT_LIMIT,
};
use crate::memory::page::{flags, shaped, PageTable, PageView, Slice};
use crate::memory::pool::PoolRules;
use crate::memory::pool_laws::least_multiple;
use crate::memory::usage::{no_usage, slices_usage, slots_usage, table_usage, MemoryUsage, Usage};

verus! {

/// A mode that is provided is the one that memory starts with. Else it is persistent exactly if
/// the configuration enforces that.
pub proof fn law_provided_modes_come_first(
    option: MemoryAllocationOption,
    config: PersistentMemory,
    r: MemoryAllocationMode,
)
    requires
        call_ensures(starting_mode, (option, config), r),
    ensures
        option matches MemoryAllocationOption::Provided(mode) ==> r == mode,
        option is FromConfig ==> (r is Persistent <==> config is Enforced),
{
}

/// Options carry their name, and the mode that they are given last.
pub proof fn law_options_carry_what_they_are_given(
    name: &str,
    mode: MemoryAllocationMode,
    r: MemoryManagementOptions,
    s: MemoryManagementOptions,
)
    requires
        call_ensures(MemoryManagementOptions::new, (name,), r),
        call_ensures(MemoryManagementOptions::mode, (r, mode), s),
    ensures
        r.name@ == name@ && s.name@ == name@,
        r.memory is FromConfig,
        s.memory == MemoryAllocationOption::Provided(mode),
{
}

/// The rules of a pool are its options: the sizes that they name, and for exclusive pages the
/// period, without which no page is ever overdue.
pub proof fn law_rules_are_the_options(options: MemoryPoolOptions, r: PoolRules)
    requires
        call_ensures(pool_rules, (options,), r),
    ensures
        options.pool_type matches PoolType::SlicedPages { page_size, max_slice_size } ==> r
            == (PoolRules::Sliced { page_size, max_slice_size }),
        options.pool_type matches PoolType::ExclusivePages { max_alloc_size } ==> {
            &&& r matches PoolRules::Exclusive { max_alloc_size: size, dealloc_period }
            &&& size == max_alloc_size
            &&& options.dealloc_period matches Some(period) ==> dealloc_period == period
            &&& options.dealloc_period is None ==> forall|now: u64, last: u64|
                !(#[trigger] overdue(now, last, dealloc_period))
        },
{
}

/// Whether a page that was last used at some time is overdue.
pub open spec fn overdue(now: u64, last: u64, period: u64) -> bool {
    now > last + period
}

/// The page of sliced options.
pub open spec fn page_of(options: MemoryPoolOptions) -> int {
    match options.pool_type {
        PoolType::SlicedPages { page_size, .. } => page_size as int,
        PoolType::ExclusivePages { max_alloc_size } => max_alloc_size as int,
    }
}

/// The largest slice of sliced options.
pub open spec fn slice_of(options: MemoryPoolOptions) -> int {
    match options.pool_type {
        PoolType::SlicedPages { max_slice_size, .. } => max_slice_size as int,
        PoolType::ExclusivePages { max_alloc_size } => max_alloc_size as int,
    }
}

/// The page that one is a quarter of: the next larger one, or the largest of all.
pub open spec fn above(pools: Seq<MemoryPoolOptions>, whole: int, i: int) -> int {
    if i + 1 < pools.len() {
        page_of(pools[i + 1])
    } else {
        whole
    }
}

proof fn lemma_pyramid_steps(page: int, alignment: int, base: nat, i: int)
    requires
        splits_end(page, alignment),
        page <= u64::MAX,
        0 <= i < pyramid(page, alignment, base).len(),
    ensures
        ({
            let pools = pyramid(page, alignment, base);
            let n = pools.len() as int;
            &&& pools[i].pool_type is SlicedPages && pools[i].dealloc_period is None
            &&& least_multiple(
                above(pools, page, i) / 4,
                alignment,
                page_of(pools[i]),
            )
            &&& above(pools, page, i) >= SPLIT_LIMIT
            &&& slice_of(pools[i]) == page_of(pools[i]) / pow2((base + n - 1 - i) as nat) as int
            &&& page_of(pools[0]) < SPLIT_LIMIT
        }),
    decreases page,
{
    let pools = pyramid(page, alignment, base);
    let n = pools.len() as int;
    lemma_quarter(page, alignment);
    let next = quarter(page, alignment);
    lemma_aligned_up(page / 4, alignment);
    let rest = pyramid(next, alignment, base + 1);
    lemma_pow2_pos(base);
    let share = next / pow2(base) as int;
    assert(0 <= share <= next) by (nonlinear_arith)
        requires
            share == next / pow2(base) as int,
            0 <= next,
            1 <= pow2(base),
    ;
    assert(pools == rest.push(pools.last()));
    if rest.len() > 0 {
        lemma_pyramid_steps(next, alignment, base + 1, 0);
        if i < n - 1 {
            lemma_pyramid_steps(next, alignment, base + 1, i);
            assert(pools[i] == rest[i]);
            if i + 1 < rest.len() {
                assert(pools[i + 1] == rest[i + 1]);
            }
            assert(base + 1 + rest.len() - 1 - i == base + n - 1 - i);
        }
    } else {
        if next >= SPLIT_LIMIT {
            lemma_quarter(next, alignment);
            assert(rest.len() > 0);
        }
    }
}

/// Memory is divided into one pool for what is smaller than the alignment, pools of sliced
/// pages from small to large, and one of the largest pages there can be. Each of those between
/// has pages of a quarter of the next larger ones, aligned, down to the first below 32 MiB; a
/// slice may take half a page of the largest of them, and half as large a share with every
/// step down.
pub proof fn law_pages_are_quartered(
    properties: MemoryDeviceProperties,
    r: Vec<MemoryPoolOptions>,
    i: int,
)
    requires
        splits_end(properties.max_page_size as int, properties.alignment as int),
        call_ensures(sub_slice_options, (&properties,), r),
    ensures
        ({
            let n = r@.len() as int;
            let whole = properties.max_page_size as int;
            let alignment = properties.alignment as int;
            let last = r@[n - 1];
            &&& n >= 2
            &&& r@[0].pool_type == (PoolType::ExclusivePages { max_alloc_size: 0 })
            &&& r@[0].dealloc_period is None
            &&& last.pool_type is SlicedPages && last.dealloc_period is None
            &&& page_of(last) % alignment == 0
            &&& page_of(last) <= whole < page_of(last) + alignment
            &&& slice_of(last) == page_of(last)
            &&& n == 2 <==> whole < 32 * 1024 * 1024
            &&& n > 2 ==> page_of(r@[1]) < 32 * 1024 * 1024
            &&& 1 <= i < n - 1 ==> {
                let larger = if i == n - 2 {
                    whole
                } else {
                    page_of(r@[i + 1])
                };
                &&& r@[i].pool_type is SlicedPages && r@[i].dealloc_period is None
                &&& larger >= 32 * 1024 * 1024
                &&& least_multiple(larger / 4, alignment, page_of(r@[i]))
                &&& slice_of(r@[i]) == page_of(r@[i]) / pow2((n - 1 - i) as nat) as int
            }
        }),
{
    let whole = properties.max_page_size as int;
    let alignment = properties.alignment as int;
    let middle = pyramid(whole, alignment, 1);
    let n = r@.len() as int;
    assert(n == middle.len() + 2);
    assert forall|k: int| 0 <= k < middle.len() implies r@[k + 1] == #[trigger] middle[k] by {}
    if middle.len() > 0 {
        lemma_pyramid_steps(whole, alignment, 1, 0);
        assert(r@[1] == middle[0]);
        lemma_pyramid_steps(whole, alignment, 1, middle.len() - 1);
    }
    if 1 <= i < n - 1 {
        lemma_pyramid_steps(whole, alignment, 1, i - 1);
        assert(r@[i] == middle[i - 1]);
        if i < n - 2 {
            assert(r@[i + 1] == middle[i]);
        }
        assert(1 + middle.len() - 1 - (i - 1) == n - 1 - i);
    }
    if whole >= SPLIT_LIMIT {
        lemma_quarter(whole, alignment);
        assert(middle.len() > 0);
    }
    let d = whole / alignment;
    vstd::arithmetic::div_mod::lemma_fundamental_div_mod(whole, alignment);
    vstd::arithmetic::div_mod::lemma_mod_bound(whole, alignment);
    assert(d * alignment == alignment * d) by (nonlinear_arith);
    assert(0 <= d * alignment) by (nonlinear_arith)
        requires
            0 <= d,
            0 < alignment,
    ;
    vstd::arithmetic::div_mod::lemma_mod_multiples_basic(d, alignment);
    assert(page_of(r@[n - 1]) == d * alignment);
}

/// Exclusive pages make one pool for each bucket, in order, of its size and with its period.
/// Pools that are given are taken as they are.
pub proof fn law_buckets_make_pools(
    config: MemoryConfiguration,
    properties: MemoryDeviceProperties,
    r: Vec<MemoryPoolOptions>,
    k: int,
)
    requires
        config is SubSlices ==> splits_end(
            properties.max_page_size as int,
            properties.alignment as int,
        ),
        call_ensures(options_of, (config, &properties), r),
    ensures
        config matches MemoryConfiguration::ExclusivePages { buckets } ==> {
            &&& r@.len() == buckets@.len()
            &&& 0 <= k < r@.len() ==> r@[k].pool_type == (PoolType::ExclusivePages {
                max_alloc_size: buckets@[k].size,
            }) && r@[k].dealloc_period == Some(buckets@[k].dealloc_period)
        },
        config matches MemoryConfiguration::Custom { pool_options } ==> r@ == pool_options@,
{
}

/// Every size that is wanted has a bucket of its aligned size, every bucket is of such a size,
/// and from sizes that grow the buckets grow too, each once.
pub proof fn law_buckets_are_the_sizes_wanted(
    sizes: Vec<u64>,
    alignment: u64,
    r: Vec<u64>,
    i: int,
    j: int,
)
    requires
        0 < alignment,
        forall|i: int|
            0 <= i < sizes.len() ==> aligned_up((#[trigger] sizes[i]) as int, alignment as int)
                <= u64::MAX,
        call_ensures(generate_bucket_sizes, (&sizes, alignment), r),
    ensures
        0 <= i < sizes@.len() ==> exists|k: int|
            0 <= k < r@.len() && least_multiple(
                sizes@[i] as int,
                alignment as int,
                #[trigger] r@[k] as int,
            ),
        0 <= j < r@.len() ==> exists|k: int|
            0 <= k < sizes@.len() && least_multiple(
                #[trigger] sizes@[k] as int,
                alignment as int,
                r@[j] as int,
            ),
        (forall|i: int, j: int| 0 <= i <= j < sizes@.len() ==> sizes@[i] <= sizes@[j]) ==> forall|
            i: int,
            j: int,
        |
            0 <= i < j < r@.len() ==> r@[i] < r@[j],
{
    if 0 <= i < sizes@.len() {
        law_buckets_cover(sizes@, alignment, i);
        lemma_aligned_up(sizes@[i] as int, alignment as int);
        assert(aligned_up(sizes[i] as int, alignment as int) <= u64::MAX);
        let size = aligned_up(sizes@[i] as int, alignment as int) as u64;
        let k = choose|k: int| 0 <= k < r@.len() && r@[k] == size;
        assert(least_multiple(sizes@[i] as int, alignment as int, r@[k] as int));
    }
    if 0 <= j < r@.len() {
        let aligned = all_aligned(sizes@, alignment);
        let k = lemma_repeats_from(aligned, j);
        lemma_aligned_up(sizes@[k] as int, alignment as int);
        assert(aligned_up(sizes[k] as int, alignment as int) <= u64::MAX);
        assert(least_multiple(sizes@[k] as int, alignment as int, r@[j] as int));
    }
    if forall|i: int, j: int| 0 <= i <= j < sizes@.len() ==> sizes@[i] <= sizes@[j] {
        assert forall|i: int| 0 <= i < sizes@.len() implies aligned_up(
            (#[trigger] sizes@[i]) as int,
            alignment as int,
        ) <= u64::MAX by {
            assert(aligned_up(sizes[i] as int, alignment as int) <= u64::MAX);
        }
        law_buckets_increase(sizes@, alignment);
    }
}

proof fn lemma_repeats_from(sizes: Seq<u64>, j: int) -> (k: int)
    requires
        0 <= j < without_repeats(sizes).len(),
    ensures
        0 <= k < sizes.len(),
        sizes[k] == without_repeats(sizes)[j],
    decreases sizes.len(),
{
    if sizes.len() <= 1 {
        j
    } else if j < without_repeats(sizes.drop_last()).len() {
        lemma_repeats_from(sizes.drop_last(), j)
    } else {
        sizes.len() - 1
    }
}

/// Amounts of memory are added one by one.
pub proof fn law_amounts_are_added(a: MemoryUsage, b: MemoryUsage, r: MemoryUsage, s: Option<MemoryUsage>)
    requires
        a@.plus(b@).fits(),
        call_ensures(MemoryUsage::combine, (&a, b), r),
        call_ensures(MemoryUsage::checked_combine, (&a, b), s),
    ensures
        r.number_allocs == a.number_allocs + b.number_allocs,
        r.bytes_in_use == a.bytes_in_use + b.bytes_in_use,
        r.bytes_padding == a.bytes_padding + b.bytes_padding,
        r.bytes_reserved == a.bytes_reserved + b.bytes_reserved,
        s is Some && (s->0)@ == r@,
{
}

/// Amounts that cannot be counted are not added.
pub proof fn law_amounts_that_overflow_are_refused(
    a: MemoryUsage,
    b: MemoryUsage,
    s: Option<MemoryUsage>,
)
    requires
        call_ensures(MemoryUsage::checked_combine, (&a, b), s),
    ensures
        s is None <==> {
            ||| a.number_allocs + b.number_allocs > u64::MAX
            ||| a.bytes_in_use + b.bytes_in_use > u64::MAX
            ||| a.bytes_padding + b.bytes_padding > u64::MAX
            ||| a.bytes_reserved + b.bytes_reserved > u64::MAX
        },
{
}

proof fn lemma_flip_slice(slices: Seq<Slice>, a: Seq<bool>, b: Seq<bool>, n: nat, k: int)
    requires
        n <= slices.len(),
        0 <= k < slices.len(),
        a[k],
        !b[k],
        forall|j: int| 0 <= j < slices.len() && j != k ==> (#[trigger] a[j]) == b[j],
    ensures
        k >= n ==> slices_usage(slices, b, n) == slices_usage(slices, a, n),
        k < n ==> slices_usage(slices, b, n) == slices_usage(slices, a, n).plus(
            Usage {
                number_allocs: 1,
                bytes_in_use: slices[k].storage.size as int,
                bytes_padding: slices[k].padding as int,
                bytes_reserved: 0,
            },
        ),
    decreases n,
{
    if n > 0 {
        lemma_flip_slice(slices, a, b, (n - 1) as nat, k);
    }
}

proof fn lemma_flip_slot(
    table: Seq<Option<PageView>>,
    a: Seq<Seq<bool>>,
    b: Seq<Seq<bool>>,
    n: nat,
    p: int,
    k: int,
)
    requires
        n <= table.len(),
        0 <= p < table.len(),
        table[p] is Some,
        0 <= k < table[p]->0.slices.len(),
        a[p][k],
        !b[p][k],
        forall|j: int| 0 <= j < table[p]->0.slices.len() && j != k ==> (#[trigger] a[p][j]) == b[p][j],
        forall|q: int| 0 <= q < table.len() && q != p ==> (#[trigger] a[q]) == b[q],
    ensures
        p >= n ==> slots_usage(table, b, n) == slots_usage(table, a, n),
        p < n ==> slots_usage(table, b, n) == slots_usage(table, a, n).plus(
            Usage {
                number_allocs: 1,
                bytes_in_use: table[p]->0.slices[k].storage.size as int,
                bytes_padding: table[p]->0.slices[k].padding as int,
                bytes_reserved: 0,
            },
        ),
    decreases n,
{
    if n > 0 {
        lemma_flip_slot(table, a, b, (n - 1) as nat, p, k);
        if n - 1 == p {
            let slices = table[p]->0.slices;
            lemma_flip_slice(slices, a[p], b[p], slices.len(), k);
        }
    }
}

/// One slice more in use counts as one, with the bytes that were asked for and with its
/// padding. It changes nothing of what is reserved.
pub proof fn law_one_more_slice_in_use_counts(
    table: PageTable,
    a: Vec<Vec<bool>>,
    b: Vec<Vec<bool>>,
    r: MemoryUsage,
    s: MemoryUsage,
    p: int,
    k: int,
)
    requires
        shaped(table@, flags(a@)),
        shaped(table@, flags(b@)),
        table_usage(table@, flags(a@)).fits(),
        table_usage(table@, flags(b@)).fits(),
        call_ensures(PageTable::usage, (&table, &a), r),
        call_ensures(PageTable::usage, (&table, &b), s),
        0 <= p < table@.len(),
        table@[p] is Some,
        0 <= k < table@[p]->0.slices.len(),
        flags(a@)[p][k],
        !flags(b@)[p][k],
        forall|j: int|
            0 <= j < table@[p]->0.slices.len() && j != k ==> (#[trigger] flags(a@)[p][j])
                == flags(b@)[p][j],
        forall|q: int| 0 <= q < table@.len() && q != p ==> (#[trigger] flags(a@)[q]) == flags(b@)[q],
    ensures
        s.number_allocs == r.number_allocs + 1,
        s.bytes_in_use == r.bytes_in_use + table@[p]->0.slices[k].storage.size,
        s.bytes_padding == r.bytes_padding + table@[p]->0.slices[k].padding,
        s.bytes_reserved == r.bytes_reserved,
{
    lemma_flip_slot(table@, flags(a@), flags(b@), table@.len(), p, k);
}

/// The bytes of all pages of the first `n` slots.
pub open spec fn pages_bytes(table: Seq<Option<PageView>>, n: nat) -> int
    decreases n,
{
    if n == 0 {
        0
    } else {
        pages_bytes(table, (n - 1) as nat) + match table[n - 1] {
            Some(page) => page.bytes as int,
            None => 0,
        }
    }
}

proof fn lemma_free_slices(slices: Seq<Slice>, row: Seq<bool>, n: nat)
    requires
        n <= slices.len(),
        forall|j: int| 0 <= j < slices.len() ==> #[trigger] row[j],
    ensures
        slices_usage(slices, row, n) == no_usage(),
    decreases n,
{
    if n > 0 {
        lemma_free_slices(slices, row, (n - 1) as nat);
    }
}

proof fn lemma_reserved(slices: Seq<Slice>, row: Seq<bool>, n: nat)
    ensures
        slices_usage(slices, row, n).bytes_reserved == 0,
    decreases n,
{
    if n > 0 {
        lemma_reserved(slices, row, (n - 1) as nat);
    }
}

/// What is reserved are the bytes of the pages, and what is free is not in use.
pub proof fn lemma_pages(table: Seq<Option<PageView>>, free: Seq<Seq<bool>>, n: nat)
    requires
        n <= table.len(),
    ensures
        slots_usage(table, free, n).bytes_reserved == pages_bytes(table, n),
        (forall|p: int, k: int|
            #![trigger free[p][k]]
            0 <= p < table.len() && table[p] is Some && 0 <= k < table[p]->0.slices.len()
                ==> free[p][k]) ==> slots_usage(table, free, n).number_allocs == 0 && slots_usage(
            table,
            free,
            n,
        ).bytes_in_use == 0 && slots_usage(table, free, n).bytes_padding == 0,
    decreases n,
{
    if n > 0 {
        lemma_pages(table, free, (n - 1) as nat);
        if let Some(page) = table[n - 1] {
            lemma_reserved(page.slices, free[n - 1], page.slices.len());
            if forall|p: int, k: int|
                #![trigger free[p][k]]
                0 <= p < table.len() && table[p] is Some && 0 <= k < table[p]->0.slices.len()
                    ==> free[p][k] {
                assert forall|j: int| 0 <= j < page.slices.len() implies #[trigger] free[n - 1][j] by {}
                lemma_free_slices(page.slices, free[n - 1], page.slices.len());
            }
        }
    }
}

/// All pages are reserved, in use or not. Where every slice is free nothing is in use.
pub proof fn law_pages_are_reserved(table: PageTable, free: Vec<Vec<bool>>, r: MemoryUsage)
    requires
        shaped(table@, flags(free@)),
        table_usage(table@, flags(free@)).fits(),
        call_ensures(PageTable::usage, (&table, &free), r),
    ensures
        r.bytes_reserved == pages_bytes(table@, table@.len()),
        (forall|p: int, k: int|
            #![trigger flags(free@)[p][k]]
            0 <= p < table@.len() && table@[p] is Some && 0 <= k < table@[p]->0.slices.len()
                ==> flags(free@)[p][k]) ==> r.number_allocs == 0 && r.bytes_in_use == 0
            && r.bytes_padding == 0,
{
    lemma_pages(table@, flags(free@), table@.len());
}

} // verus!
