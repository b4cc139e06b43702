//! Folds in the manner of FNV-1a: the hash behind cache keys, and arena signatures.

use vstd::prelude::*;

verus! {

/// The offset basis every hash starts from.
pub const FNV_OFFSET: u64 = 0xcbf2_9ce4_8422_2325;

/// The 64-bit FNV prime.
pub const FNV_PRIME: u64 = 0x100_0000_01b3;

/// The multiplier of arena signatures.
pub const SIGNATURE_MULTIPLIER: u64 = 0x1000_0000_01b3;

/// One round: mix `word` into the state, then multiply modulo two to the 64th.
pub open spec fn round(multiplier: u64, state: u64, word: u64) -> u64 {
    (((state ^ word) * multiplier) % 0x1_0000_0000_0000_0000) as u64
}

/// The state after the words of `words`, in order, starting from `state`.
pub open spec fn fold(multiplier: u64, state: u64, words: Seq<u64>) -> u64
    decreases words.len(),
{
    if words.len() == 0 {
        state
    } else {
        round(multiplier, fold(multiplier, state, words.drop_last()), words.last())
    }
}

/// One round of the hash.
pub fn fnv_round(multiplier: u64, state: u64, word: u64) -> (next: u64)
    ensures
        next == round(multiplier, state, word),
{
    (state ^ word).wrapping_mul(multiplier)
}

/// The inverse of a multiplier modulo two to the 64th.
pub open spec fn inverse(multiplier: u64) -> int {
    if multiplier == FNV_PRIME {
        0xce96_5057_aff6_957b
    } else {
        0xb46d_d957_aff6_957b
    }
}

/// Whether a multiplier is one of the two that are in use. Both are odd, so both have an
/// inverse.
pub open spec fn in_use(multiplier: u64) -> bool {
    multiplier == FNV_PRIME || multiplier == SIGNATURE_MULTIPLIER
}

/// Multiplying by an odd number modulo two to the 64th loses nothing: the
/// multiplier has an inverse.
pub proof fn lemma_mul_injective(multiplier: u64, a: u64, b: u64)
    requires
        in_use(multiplier),
        (a * multiplier) % 0x1_0000_0000_0000_0000 == (b * multiplier) % 0x1_0000_0000_0000_0000,
    ensures
        a == b,
{
    let m: int = 0x1_0000_0000_0000_0000;
    let inv: int = inverse(multiplier);
    assert((0x100_0000_01b3int * 0xce96_5057_aff6_957bint) % 0x1_0000_0000_0000_0000int == 1);
    assert((0x1000_0000_01b3int * 0xb46d_d957_aff6_957bint) % 0x1_0000_0000_0000_0000int == 1);
    let x = a * multiplier;
    let y = b * multiplier;
    vstd::arithmetic::div_mod::lemma_mul_mod_noop_left(x, inv, m);
    vstd::arithmetic::div_mod::lemma_mul_mod_noop_left(y, inv, m);
    assert((x * inv) % m == (y * inv) % m);
    let k = multiplier * inv;
    assert(x * inv == a * k) by (nonlinear_arith)
        requires
            x == a * multiplier,
            k == multiplier * inv,
    ;
    assert(y * inv == b * k) by (nonlinear_arith)
        requires
            y == b * multiplier,
            k == multiplier * inv,
    ;
    vstd::arithmetic::div_mod::lemma_mul_mod_noop_right(a as int, k, m);
    vstd::arithmetic::div_mod::lemma_mul_mod_noop_right(b as int, k, m);
    assert(k % m == 1);
    vstd::arithmetic::div_mod::lemma_small_mod(a as nat, m as nat);
    vstd::arithmetic::div_mod::lemma_small_mod(b as nat, m as nat);
}

/// A round is injective in the state and in the word.
pub proof fn lemma_round_injective(multiplier: u64, s: u64, t: u64, v: u64, w: u64)
    requires
        in_use(multiplier),
        round(multiplier, s, v) == round(multiplier, t, w),
    ensures
        s ^ v == t ^ w,
        v == w ==> s == t,
        s == t ==> v == w,
{
    lemma_mul_injective(multiplier, s ^ v, t ^ w);
    assert(s ^ v == t ^ w ==> ((v == w ==> s == t) && (s == t ==> v == w))) by (bit_vector);
}

/// Distinct states stay distinct under a common run of words.
pub proof fn lemma_fold_injective(multiplier: u64, s: u64, t: u64, words: Seq<u64>)
    requires
        in_use(multiplier),
        s != t,
    ensures
        fold(multiplier, s, words) != fold(multiplier, t, words),
    decreases words.len(),
{
    if words.len() > 0 {
        lemma_fold_injective(multiplier, s, t, words.drop_last());
        if fold(multiplier, s, words) == fold(multiplier, t, words) {
            lemma_round_injective(
                multiplier,
                fold(multiplier, s, words.drop_last()),
                fold(multiplier, t, words.drop_last()),
                words.last(),
                words.last(),
            );
        }
    }
}

/// Two sequences that differ in exactly one word never hash alike.
pub proof fn lemma_fold_one_word(
    multiplier: u64,
    state: u64,
    words: Seq<u64>,
    at: int,
    word: u64,
)
    requires
        in_use(multiplier),
        0 <= at < words.len(),
        words[at] != word,
    ensures
        fold(multiplier, state, words) != fold(multiplier, state, words.update(at, word)),
    decreases words.len(),
{
    let other = words.update(at, word);
    if at == words.len() - 1 {
        assert(other.drop_last() =~= words.drop_last());
        let s = fold(multiplier, state, words.drop_last());
        if fold(multiplier, state, words) == fold(multiplier, state, other) {
            lemma_round_injective(multiplier, s, s, words.last(), word);
        }
    } else {
        assert(other.drop_last() =~= words.drop_last().update(at, word));
        lemma_fold_one_word(multiplier, state, words.drop_last(), at, word);
        if fold(multiplier, state, words) == fold(multiplier, state, other) {
            lemma_round_injective(
                multiplier,
                fold(multiplier, state, words.drop_last()),
                fold(multiplier, state, other.drop_last()),
                words.last(),
                words.last(),
            );
        }
    }
}

} // verus!
