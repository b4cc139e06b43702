//! Rounding sizes up to an alignment.

use vstd::prelude::*;

verus! {

/// The smallest multiple of `alignment` that is at least `size`.
pub open spec fn aligned_up(size: int, alignment: int) -> int {
    ((size + alignment - 1) / alignment) * alignment
}

/// What `aligned_up` is: a multiple, no smaller than the size, and less than
/// one alignment above it.
pub proof fn lemma_aligned_up(size: int, alignment: int)
    requires
        0 <= size,
        0 < alignment,
    ensures
        size <= aligned_up(size, alignment) < size + alignment,
        aligned_up(size, alignment) % alignment == 0,
        size % alignment == 0 ==> aligned_up(size, alignment) == size,
        size % alignment != 0 ==> aligned_up(size, alignment) == size + (alignment - size
            % alignment),
{
    let q = (size + alignment - 1) / alignment;
    vstd::arithmetic::div_mod::lemma_fundamental_div_mod(size + alignment - 1, alignment);
    vstd::arithmetic::div_mod::lemma_mod_bound(size + alignment - 1, alignment);
    vstd::arithmetic::mul::lemma_mul_is_commutative(alignment, q);
    vstd::arithmetic::div_mod::lemma_mod_multiples_basic(q, alignment);
    let d = size / alignment;
    let r = size % alignment;
    vstd::arithmetic::div_mod::lemma_fundamental_div_mod(size, alignment);
    vstd::arithmetic::div_mod::lemma_mod_bound(size, alignment);
    if r == 0 {
        assert(size + alignment - 1 == d * alignment + (alignment - 1)) by (nonlinear_arith)
            requires
                size == alignment * d + r,
                r == 0,
        ;
        vstd::arithmetic::div_mod::lemma_fundamental_div_mod_converse(
            size + alignment - 1,
            alignment,
            d,
            alignment - 1,
        );
        vstd::arithmetic::mul::lemma_mul_is_commutative(alignment, d);
    } else {
        assert(size + alignment - 1 == (d + 1) * alignment + (r - 1)) by (nonlinear_arith)
            requires
                size == alignment * d + r,
        ;
        vstd::arithmetic::div_mod::lemma_fundamental_div_mod_converse(
            size + alignment - 1,
            alignment,
            d + 1,
            r - 1,
        );
        assert((d + 1) * alignment == alignment * d + alignment) by (nonlinear_arith);
    }
}

/// Rounding up is monotone.
pub proof fn lemma_aligned_up_monotone(a: int, b: int, alignment: int)
    requires
        0 <= a <= b,
        0 < alignment,
    ensures
        aligned_up(a, alignment) <= aligned_up(b, alignment),
{
    vstd::arithmetic::div_mod::lemma_div_is_ordered(
        a + alignment - 1,
        b + alignment - 1,
        alignment,
    );
    vstd::arithmetic::mul::lemma_mul_inequality(
        (a + alignment - 1) / alignment,
        (b + alignment - 1) / alignment,
        alignment,
    );
}

/// The smallest multiple of `alignment` that is at least `size`.
pub fn next_multiple_of(size: u64, alignment: u64) -> (r: u64)
    requires
        0 < alignment,
        aligned_up(size as int, alignment as int) <= u64::MAX,
    ensures
        r == aligned_up(size as int, alignment as int),
{
    proof {
        lemma_aligned_up(size as int, alignment as int);
    }
    let rest: u64 = size % alignment;
    if rest == 0 {
        size
    } else {
        size + (alignment - rest)
    }
}

/// How far `size` is from the next multiple of `alignment`, or `None` when that
/// multiple is past the largest size there is.
pub fn padding(size: u64, alignment: u64) -> (r: Option<u64>)
    requires
        0 < alignment,
    ensures
        r matches Some(p) ==> size + p == aligned_up(size as int, alignment as int),
        r is None <==> aligned_up(size as int, alignment as int) > u64::MAX,
{
    proof {
        lemma_aligned_up(size as int, alignment as int);
    }
    let rest: u64 = size % alignment;
    if rest == 0 {
        Some(0)
    } else if size > u64::MAX - (alignment - rest) {
        None
    } else {
        Some(alignment - rest)
    }
}

} // verus!
