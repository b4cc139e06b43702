//! Sorting pairs.

use vstd::prelude::*;

verus! {

/// Whether pairs are in order: by the first number, and then by the second.
pub open spec fn pairs_in_order(pairs: Seq<(u64, u64)>) -> bool {
    forall|i: int, j: int|
        0 <= i < j < pairs.len() ==> (#[trigger] pairs[i]).0 < (#[trigger] pairs[j]).0 || (
        pairs[i].0 == pairs[j].0 && pairs[i].1 <= pairs[j].1)
}

/// Sorts pairs by the first number and then by the second, by `slice::sort_unstable`: the
/// same pairs, in the order that std documents for tuples.
#[verifier::external_body]
pub(crate) fn sort_pairs(pairs: &mut Vec<(u64, u64)>)
    ensures
        final(pairs)@.to_multiset() == old(pairs)@.to_multiset(),
        pairs_in_order(final(pairs)@),
{
    pairs.sort_unstable();
}

} // verus!
