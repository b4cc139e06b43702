//! How the memory of a device is divided into pools.

use vstd::arithmetic::power2::{lemma_pow2_pos, lemma_pow2_unfold, pow2};
use vstd::prelude::*;

use crate::memory::align::{
    aligned_up, lemma_aligned_up, lemma_aligned_up_monotone, next_multiple_of,
};
use crate::memory::pool::PoolRules;

verus! {

/// The mode of allocation used.
#[derive(Clone, Copy, Debug, PartialEq, Eq, Structural)]
pub enum MemoryAllocationMode {
    /// Use the automatic memory management strategy for allocation.
    Auto,
    /// Use a persistent memory management strategy, meaning that all allocations are
    /// for data that is likely never going to be freed.
    Persistent,
}

impl Default for MemoryAllocationMode {
    fn default() -> (r: Self)
        ensures
            r == MemoryAllocationMode::Auto,
    {
        MemoryAllocationMode::Auto
    }
}

/// Whether the configuration lets persistent memory be used.
#[derive(Clone, Copy, Debug, PartialEq, Eq, Structural)]
pub enum PersistentMemory {
    /// Persistent memory is used where it is asked for.
    Enabled,
    /// Persistent memory is never used.
    Disabled,
    /// Persistent memory is always used.
    Enforced,
}

/// Determines which [`MemoryAllocationMode`] is used during allocations.
#[derive(Clone, Copy, Debug, PartialEq, Eq, Structural)]
pub enum MemoryAllocationOption {
    /// The configuration determines the mode of allocation.
    FromConfig,
    /// Use the provided [`MemoryAllocationMode`].
    Provided(MemoryAllocationMode),
}

impl Default for MemoryAllocationOption {
    fn default() -> (r: Self)
        ensures
            r == MemoryAllocationOption::FromConfig,
    {
        MemoryAllocationOption::FromConfig
    }
}

/// The options for creating a memory management.
#[derive(Debug)]
pub struct MemoryManagementOptions {
    /// The name of the memory management.
    pub name: String,
    /// The option for the mode of allocation.
    pub memory: MemoryAllocationOption,
}

impl MemoryManagementOptions {
    /// Options under a name, with the mode that the configuration determines.
    pub fn new(name: &str) -> (r: Self)
        ensures
            r.name@ == name@,
            r.memory == MemoryAllocationOption::FromConfig,
    {
        MemoryManagementOptions { name: name.to_owned(), memory: MemoryAllocationOption::FromConfig }
    }

    /// Forces the [`MemoryAllocationMode`] during execution to always be the provided
    /// one.
    pub fn mode(self, mode: MemoryAllocationMode) -> (r: Self)
        ensures
            r.name == self.name,
            r.memory == MemoryAllocationOption::Provided(mode),
    {
        MemoryManagementOptions { name: self.name, memory: MemoryAllocationOption::Provided(mode) }
    }
}

/// The mode that a memory management starts with.
pub open spec fn initial_mode(
    option: MemoryAllocationOption,
    config: PersistentMemory,
) -> MemoryAllocationMode {
    match option {
        MemoryAllocationOption::Provided(mode) => mode,
        MemoryAllocationOption::FromConfig => if config == PersistentMemory::Enforced {
            MemoryAllocationMode::Persistent
        } else {
            MemoryAllocationMode::Auto
        },
    }
}

/// The mode that a memory management starts with.
pub fn starting_mode(option: MemoryAllocationOption, config: PersistentMemory) -> (r:
    MemoryAllocationMode)
    ensures
        r == initial_mode(option, config),
{
    match option {
        MemoryAllocationOption::Provided(mode) => mode,
        MemoryAllocationOption::FromConfig => match config {
            PersistentMemory::Enabled => MemoryAllocationMode::Auto,
            PersistentMemory::Disabled => MemoryAllocationMode::Auto,
            PersistentMemory::Enforced => MemoryAllocationMode::Persistent,
        },
    }
}

/// What a device says of its memory.
#[derive(Clone, Copy, Debug, PartialEq, Eq)]
pub struct MemoryDeviceProperties {
    /// The largest page that can be allocated.
    pub max_page_size: u64,
    /// What the offset of every slice is a multiple of.
    pub alignment: u64,
}

/// How the pages of a pool are used.
#[derive(Clone, Copy, Debug, PartialEq, Eq)]
pub enum PoolType {
    /// Each page serves one reservation at a time.
    ExclusivePages { max_alloc_size: u64 },
    /// Each page is cut into slices.
    SlicedPages { page_size: u64, max_slice_size: u64 },
}

/// A pool to create.
#[derive(Clone, Copy, Debug, PartialEq, Eq)]
pub struct MemoryPoolOptions {
    /// How its pages are used.
    pub pool_type: PoolType,
    /// For how many reservations a page may stay unused before it is given back.
    pub dealloc_period: Option<u64>,
}

/// The rules of a pool that is created with these options. Without a period its pages
/// are kept for as long as reservations can be counted.
pub open spec fn rules_for(options: MemoryPoolOptions) -> PoolRules {
    match options.pool_type {
        PoolType::SlicedPages { page_size, max_slice_size } => PoolRules::Sliced {
            page_size,
            max_slice_size,
        },
        PoolType::ExclusivePages { max_alloc_size } => PoolRules::Exclusive {
            max_alloc_size,
            dealloc_period: match options.dealloc_period {
                Some(period) => period,
                None => u64::MAX,
            },
        },
    }
}

/// The rules of a pool that is created with these options.
pub fn pool_rules(options: MemoryPoolOptions) -> (r: PoolRules)
    ensures
        r == rules_for(options),
{
    match options.pool_type {
        PoolType::SlicedPages { page_size, max_slice_size } => PoolRules::Sliced {
            page_size,
            max_slice_size,
        },
        PoolType::ExclusivePages { max_alloc_size } => PoolRules::Exclusive {
            max_alloc_size,
            dealloc_period: match options.dealloc_period {
                Some(period) => period,
                None => u64::MAX,
            },
        },
    }
}

/// A size class of the exclusive pages.
#[derive(Clone, Copy, Debug, PartialEq, Eq)]
pub struct Bucket {
    /// The size of its pages.
    pub size: u64,
    /// For how many reservations one of them may stay unused.
    pub dealloc_period: u64,
}

/// How the memory of a device is divided into pools.
pub enum MemoryConfiguration {
    /// Pools of sliced pages, from small pages to the largest.
    SubSlices,
    /// One pool of exclusive pages for each bucket.
    ExclusivePages { buckets: Vec<Bucket> },
    /// Pools as given.
    Custom { pool_options: Vec<MemoryPoolOptions> },
}

/// The size from which on a page is worth dividing further.
pub const SPLIT_LIMIT: u64 = 33_554_432;

/// The sizes to split down to are finitely many: a page is below the limit already, or
/// the alignment lets it come there.
pub open spec fn splits_end(max_page: int, alignment: int) -> bool {
    &&& 0 <= max_page
    &&& 0 < alignment
    &&& max_page < SPLIT_LIMIT || alignment < SPLIT_LIMIT
}

/// The next smaller page: a quarter, aligned.
pub open spec fn quarter(page: int, alignment: int) -> int {
    aligned_up(page / 4, alignment)
}

/// A quarter of a page that is worth dividing is smaller than the page.
pub proof fn lemma_quarter(page: int, alignment: int)
    requires
        SPLIT_LIMIT <= page,
        splits_end(page, alignment),
    ensures
        0 <= quarter(page, alignment) < page,
        splits_end(quarter(page, alignment), alignment),
        page >= 4 * SPLIT_LIMIT ==> quarter(page, alignment) <= page / 2,
        page < 4 * SPLIT_LIMIT ==> quarter(page, alignment) < 2 * SPLIT_LIMIT,
        page < 2 * SPLIT_LIMIT ==> quarter(page, alignment) < SPLIT_LIMIT + SPLIT_LIMIT / 2,
        page < SPLIT_LIMIT + SPLIT_LIMIT / 2 ==> quarter(page, alignment) < SPLIT_LIMIT,
{
    let part = page / 4;
    lemma_aligned_up(part, alignment);
    if part <= alignment {
        lemma_aligned_up_monotone(part, alignment, alignment);
        lemma_aligned_up(alignment, alignment);
        assert(alignment % alignment == 0) by (nonlinear_arith)
            requires
                0 < alignment,
        ;
        assert(quarter(page, alignment) <= alignment);
    }
}

/// The sliced pools below the largest, from small pages to large. The page sizes come
/// from dividing by four again and again; every division halves the share of
/// a page that one slice may take.
pub open spec fn pyramid(page: int, alignment: int, base: nat) -> Seq<MemoryPoolOptions>
    decreases page,
    when splits_end(page, alignment)
{
    if page < SPLIT_LIMIT {
        Seq::empty()
    } else {
        proof {
            lemma_quarter(page, alignment);
        }
        let next = quarter(page, alignment);
        pyramid(next, alignment, base + 1).push(
            MemoryPoolOptions {
                pool_type: PoolType::SlicedPages {
                    page_size: next as u64,
                    max_slice_size: (next / pow2(base) as int) as u64,
                },
                dealloc_period: None,
            },
        )
    }
}

/// The largest page of a device, cut down to a multiple of the alignment.
pub open spec fn largest_page(properties: MemoryDeviceProperties) -> u64 {
    (properties.max_page_size / properties.alignment * properties.alignment) as u64
}

/// All pools of a device with sliced pages: one for what is smaller than the
/// alignment, as that cannot use offsets at all; then those from small pages to
/// large; then one of the largest pages there can be.
pub open spec fn sub_slices(properties: MemoryDeviceProperties) -> Seq<MemoryPoolOptions> {
    let largest = largest_page(properties);
    seq![
        MemoryPoolOptions {
            pool_type: PoolType::ExclusivePages { max_alloc_size: 0 },
            dealloc_period: None,
        },
    ] + pyramid(properties.max_page_size as int, properties.alignment as int, 1) + seq![
        MemoryPoolOptions {
            pool_type: PoolType::SlicedPages { page_size: largest, max_slice_size: largest },
            dealloc_period: None,
        },
    ]
}

/// The pools of a configuration.
pub open spec fn pool_options_for(
    config: MemoryConfiguration,
    properties: MemoryDeviceProperties,
) -> Seq<MemoryPoolOptions> {
    match config {
        MemoryConfiguration::SubSlices => sub_slices(properties),
        MemoryConfiguration::ExclusivePages { buckets } => buckets@.map_values(
            |bucket: Bucket|
                MemoryPoolOptions {
                    pool_type: PoolType::ExclusivePages { max_alloc_size: bucket.size },
                    dealloc_period: Some(bucket.dealloc_period),
                },
        ),
        MemoryConfiguration::Custom { pool_options } => pool_options@,
    }
}

/// How often a page can still be divided, at most.
spec fn rank(page: int) -> int
    decreases page,
{
    if page < SPLIT_LIMIT {
        0
    } else if page < SPLIT_LIMIT + SPLIT_LIMIT / 2 {
        1
    } else if page < 2 * SPLIT_LIMIT {
        2
    } else if page < 4 * SPLIT_LIMIT {
        3
    } else {
        1 + rank(page / 2)
    }
}

proof fn lemma_rank_monotone(a: int, b: int)
    requires
        a <= b,
    ensures
        0 <= rank(a) <= rank(b),
        b >= 4 * SPLIT_LIMIT ==> rank(b) >= 3,
    decreases b,
{
    if b >= 4 * SPLIT_LIMIT {
        if a >= 4 * SPLIT_LIMIT {
            lemma_rank_monotone(a / 2, b / 2);
        } else {
            lemma_rank_monotone(b / 2, b / 2);
            assert(rank(b / 2) >= 2);
        }
    }
}

proof fn lemma_rank_quarter(page: int, alignment: int)
    requires
        SPLIT_LIMIT <= page,
        splits_end(page, alignment),
    ensures
        0 <= rank(quarter(page, alignment)) < rank(page),
{
    lemma_quarter(page, alignment);
    lemma_rank_monotone(quarter(page, alignment), quarter(page, alignment));
    if page >= 4 * SPLIT_LIMIT {
        lemma_rank_monotone(quarter(page, alignment), page / 2);
    }
}

proof fn lemma_rank_bound(page: int)
    requires
        0 <= page <= u64::MAX,
    ensures
        0 <= rank(page) <= 40,
{
    lemma_rank_monotone(page, u64::MAX as int);
    reveal_with_fuel(rank, 42);
}

/// There are fewer pools than a byte can number, and every page size among them is a
/// size that fits.
pub proof fn lemma_pyramid(page: int, alignment: int, base: nat)
    requires
        splits_end(page, alignment),
        page <= u64::MAX,
    ensures
        pyramid(page, alignment, base).len() <= 40,
        forall|i: int|
            0 <= i < pyramid(page, alignment, base).len() ==> ((#[trigger] pyramid(
                page,
                alignment,
                base,
            )[i]).pool_type matches PoolType::SlicedPages { page_size, .. } && page_size as int
                % alignment == 0),
{
    lemma_pyramid_len(page, alignment, base);
    lemma_rank_bound(page);
}

proof fn lemma_pyramid_len(page: int, alignment: int, base: nat)
    requires
        splits_end(page, alignment),
        page <= u64::MAX,
    ensures
        pyramid(page, alignment, base).len() <= rank(page),
        forall|i: int|
            0 <= i < pyramid(page, alignment, base).len() ==> ((#[trigger] pyramid(
                page,
                alignment,
                base,
            )[i]).pool_type matches PoolType::SlicedPages { page_size, .. } && page_size as int
                % alignment == 0),
    decreases page,
{
    if page >= SPLIT_LIMIT {
        lemma_quarter(page, alignment);
        lemma_rank_quarter(page, alignment);
        let next = quarter(page, alignment);
        lemma_aligned_up(page / 4, alignment);
        lemma_pyramid_len(next, alignment, base + 1);
    } else {
        lemma_rank_monotone(page, page);
    }
}

/// Two to the power `base`.
fn power_of_two(base: u32) -> (r: u64)
    requires
        base < 64,
    ensures
        r == pow2(base as nat),
{
    let mut r: u64 = 1;
    let mut i: u32 = 0;
    proof {
        vstd::arithmetic::power2::lemma2_to64();
    }
    while i < base
        invariant
            i <= base < 64,
            r == pow2(i as nat),
        decreases base - i,
    {
        proof {
            lemma_pow2_unfold((i + 1) as nat);
            vstd::arithmetic::power2::lemma2_to64();
            vstd::arithmetic::power2::lemma2_to64_rest();
            if i + 1 < 63 {
                vstd::arithmetic::power2::lemma_pow2_strictly_increases((i + 1) as nat, 63);
            }
        }
        r = r * 2;
        i += 1;
    }
    r
}

/// All pools of a device with sliced pages.
pub fn sub_slice_options(properties: &MemoryDeviceProperties) -> (r: Vec<MemoryPoolOptions>)
    requires
        splits_end(properties.max_page_size as int, properties.alignment as int),
    ensures
        r@ == sub_slices(*properties),
{
    let alignment: u64 = properties.alignment;
    let ghost max_page = properties.max_page_size as int;
    let mut current: u64 = properties.max_page_size;
    let mut base: u32 = 1;
    let mut largest_first: Vec<MemoryPoolOptions> = Vec::new();
    let ghost whole = pyramid(max_page, alignment as int, 1);
    proof {
        lemma_rank_bound(max_page);
        assert(whole =~= pyramid(current as int, alignment as int, base as nat)
            + largest_first@.reverse());
    }
    while current >= SPLIT_LIMIT
        invariant
            splits_end(current as int, alignment as int),
            1 <= base,
            0 <= rank(current as int),
            base + rank(current as int) <= 41,
            whole == pyramid(current as int, alignment as int, base as nat)
                + largest_first@.reverse(),
        decreases current,
    {
        let ghost before = current as int;
        proof {
            lemma_quarter(before, alignment as int);
            lemma_rank_quarter(before, alignment as int);
            lemma_pow2_pos(base as nat);
        }
        current = next_multiple_of(current / 4, alignment);
        let options = MemoryPoolOptions {
            pool_type: PoolType::SlicedPages {
                page_size: current,
                max_slice_size: current / power_of_two(base),
            },
            dealloc_period: None,
        };
        let ghost pushed = largest_first@;
        largest_first.push(options);
        proof {
            let rest = pyramid(current as int, alignment as int, (base + 1) as nat);
            assert(pyramid(before, alignment as int, base as nat) == rest.push(options));
            assert(rest.push(options) + pushed.reverse() =~= rest
                + largest_first@.reverse());
        }
        base += 1;
    }
    let mut pools: Vec<MemoryPoolOptions> = Vec::new();
    pools.push(
        MemoryPoolOptions {
            pool_type: PoolType::ExclusivePages { max_alloc_size: 0 },
            dealloc_period: None,
        },
    );
    assert(whole =~= largest_first@.reverse());
    let mut i: usize = largest_first.len();
    while i > 0
        invariant
            i <= largest_first.len(),
            whole == largest_first@.reverse(),
            pools.len() == 1 + (largest_first.len() - i),
            pools[0] == (MemoryPoolOptions {
                pool_type: PoolType::ExclusivePages { max_alloc_size: 0 },
                dealloc_period: None,
            }),
            forall|k: int| 1 <= k < pools.len() ==> (#[trigger] pools@[k]) == whole[k - 1],
        decreases i,
    {
        i -= 1;
        pools.push(largest_first[i]);
    }
    proof {
        vstd::arithmetic::div_mod::lemma_fundamental_div_mod(max_page, alignment as int);
        vstd::arithmetic::div_mod::lemma_mod_bound(max_page, alignment as int);
        vstd::arithmetic::mul::lemma_mul_is_commutative(
            max_page / alignment as int,
            alignment as int,
        );
    }
    let largest: u64 = properties.max_page_size / alignment * alignment;
    pools.push(
        MemoryPoolOptions {
            pool_type: PoolType::SlicedPages { page_size: largest, max_slice_size: largest },
            dealloc_period: None,
        },
    );
    assert(pools@ =~= sub_slices(*properties));
    pools
}

/// The pools of a configuration.
pub fn options_of(config: MemoryConfiguration, properties: &MemoryDeviceProperties) -> (r: Vec<
    MemoryPoolOptions,
>)
    requires
        config is SubSlices ==> splits_end(
            properties.max_page_size as int,
            properties.alignment as int,
        ),
    ensures
        r@ == pool_options_for(config, *properties),
{
    match config {
        MemoryConfiguration::SubSlices => sub_slice_options(properties),
        MemoryConfiguration::ExclusivePages { buckets } => {
            let mut r: Vec<MemoryPoolOptions> = Vec::new();
            let ghost wanted = pool_options_for(config, *properties);
            let mut i: usize = 0;
            while i < buckets.len()
                invariant
                    i <= buckets.len(),
                    r.len() == i,
                    wanted.len() == buckets.len(),
                    forall|k: int|
                        0 <= k < buckets.len() ==> (#[trigger] wanted[k]) == (MemoryPoolOptions {
                            pool_type: PoolType::ExclusivePages { max_alloc_size: buckets[k].size },
                            dealloc_period: Some(buckets[k].dealloc_period),
                        }),
                    forall|k: int| 0 <= k < i ==> (#[trigger] r@[k]) == wanted[k],
                decreases buckets.len() - i,
            {
                r.push(
                    MemoryPoolOptions {
                        pool_type: PoolType::ExclusivePages { max_alloc_size: buckets[i].size },
                        dealloc_period: Some(buckets[i].dealloc_period),
                    },
                );
                i += 1;
            }
            assert(r@ =~= wanted);
            r
        },
        MemoryConfiguration::Custom { pool_options } => pool_options,
    }
}

/// A sequence without the elements that equal the one before them.
pub open spec fn without_repeats(sizes: Seq<u64>) -> Seq<u64>
    decreases sizes.len(),
{
    if sizes.len() <= 1 {
        sizes
    } else if sizes[sizes.len() - 1] == sizes[sizes.len() - 2] {
        without_repeats(sizes.drop_last())
    } else {
        without_repeats(sizes.drop_last()).push(sizes.last())
    }
}

/// Sizes rounded up to the alignment.
pub open spec fn all_aligned(sizes: Seq<u64>, alignment: u64) -> Seq<u64> {
    sizes.map_values(|size: u64| aligned_up(size as int, alignment as int) as u64)
}

proof fn lemma_without_repeats_last(sizes: Seq<u64>)
    requires
        sizes.len() > 0,
    ensures
        without_repeats(sizes).len() > 0,
        without_repeats(sizes).last() == sizes.last(),
    decreases sizes.len(),
{
    if sizes.len() > 1 {
        lemma_without_repeats_last(sizes.drop_last());
    }
}

/// Bucket sizes from the sizes wanted: rounded up to the alignment, and each once.
pub fn generate_bucket_sizes(wanted: &Vec<u64>, alignment: u64) -> (r: Vec<u64>)
    requires
        0 < alignment,
        forall|i: int|
            0 <= i < wanted.len() ==> aligned_up((#[trigger] wanted[i]) as int, alignment as int)
                <= u64::MAX,
    ensures
        r@ == without_repeats(all_aligned(wanted@, alignment)),
{
    let ghost aligned = all_aligned(wanted@, alignment);
    let mut r: Vec<u64> = Vec::new();
    let mut i: usize = 0;
    assert(aligned.take(0) =~= Seq::<u64>::empty());
    while i < wanted.len()
        invariant
            0 < alignment,
            i <= wanted.len() == aligned.len(),
            aligned == all_aligned(wanted@, alignment),
            forall|k: int|
                0 <= k < wanted.len() ==> aligned_up(
                    (#[trigger] wanted[k]) as int,
                    alignment as int,
                ) <= u64::MAX,
            r@ == without_repeats(aligned.take(i as int)),
        decreases wanted.len() - i,
    {
        proof {
            lemma_aligned_up(wanted[i as int] as int, alignment as int);
        }
        let size: u64 = next_multiple_of(wanted[i], alignment);
        let ghost before = aligned.take(i as int);
        let ghost after = aligned.take(i + 1);
        proof {
            assert(after.drop_last() =~= before);
            assert(after.last() == size);
            if i > 0 {
                lemma_without_repeats_last(before);
                assert(before.last() == aligned[i - 1]);
            }
        }
        if r.len() == 0 || r[r.len() - 1] != size {
            r.push(size);
            assert(r@ =~= without_repeats(after));
        }
        i += 1;
    }
    assert(aligned.take(i as int) =~= aligned);
    r
}

/// From sizes that grow, the buckets grow too, and no two are the same.
pub proof fn law_buckets_increase(wanted: Seq<u64>, alignment: u64)
    requires
        0 < alignment,
        forall|i: int, j: int| 0 <= i <= j < wanted.len() ==> wanted[i] <= wanted[j],
        forall|i: int|
            0 <= i < wanted.len() ==> aligned_up((#[trigger] wanted[i]) as int, alignment as int)
                <= u64::MAX,
    ensures
        ({
            let buckets = without_repeats(all_aligned(wanted, alignment));
            forall|i: int, j: int| 0 <= i < j < buckets.len() ==> buckets[i] < buckets[j]
        }),
{
    let aligned = all_aligned(wanted, alignment);
    assert forall|i: int, j: int| 0 <= i <= j < aligned.len() implies aligned[i]
        <= aligned[j] by {
        lemma_aligned_up(wanted[i] as int, alignment as int);
        lemma_aligned_up(wanted[j] as int, alignment as int);
        lemma_aligned_up_monotone(wanted[i] as int, wanted[j] as int, alignment as int);
    }
    lemma_without_repeats_increases(aligned);
}

proof fn lemma_without_repeats_increases(sizes: Seq<u64>)
    requires
        forall|i: int, j: int| 0 <= i <= j < sizes.len() ==> sizes[i] <= sizes[j],
    ensures
        forall|i: int, j: int|
            0 <= i < j < without_repeats(sizes).len() ==> without_repeats(sizes)[i]
                < without_repeats(sizes)[j],
    decreases sizes.len(),
{
    if sizes.len() > 1 {
        let before = sizes.drop_last();
        lemma_without_repeats_increases(before);
        lemma_without_repeats_last(before);
        let r = without_repeats(before);
        assert(r.last() == sizes[sizes.len() - 2]);
    }
}

/// Every size wanted has a bucket: its own size, rounded up.
pub proof fn law_buckets_cover(wanted: Seq<u64>, alignment: u64, i: int)
    requires
        0 <= i < wanted.len(),
    ensures
        without_repeats(all_aligned(wanted, alignment)).contains(
            aligned_up(wanted[i] as int, alignment as int) as u64,
        ),
{
    lemma_without_repeats_contains(all_aligned(wanted, alignment), i);
}

/// Leaving repeats out loses nothing.
proof fn lemma_without_repeats_contains(sizes: Seq<u64>, i: int)
    requires
        0 <= i < sizes.len(),
    ensures
        without_repeats(sizes).contains(sizes[i]),
    decreases sizes.len(),
{
    lemma_without_repeats_last(sizes);
    let r = without_repeats(sizes);
    if i == sizes.len() - 1 {
        assert(r[r.len() - 1] == sizes[i]);
    } else {
        let before = sizes.drop_last();
        lemma_without_repeats_contains(before, i);
        let k = choose|k: int|
            0 <= k < without_repeats(before).len() && without_repeats(before)[k] == before[i];
        assert(r[k] == sizes[i]);
    }
}

} // verus!
