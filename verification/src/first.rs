//! The first index with a property.

use vstd::prelude::*;

verus! {

/// The smallest index in `from..n` that `p` holds of.
pub open spec fn first_from(from: int, n: int, p: spec_fn(int) -> bool) -> Option<int>
    decreases n - from,
{
    if from >= n {
        None
    } else if p(from) {
        Some(from)
    } else {
        first_from(from + 1, n, p)
    }
}

/// The smallest index below `n` that `p` holds of.
pub open spec fn first_where(n: nat, p: spec_fn(int) -> bool) -> Option<int> {
    first_from(0, n as int, p)
}

/// What `first_from` finds.
pub proof fn lemma_first_from(from: int, n: int, p: spec_fn(int) -> bool)
    ensures
        match first_from(from, n, p) {
            Some(i) => from <= i < n && p(i) && (forall|j: int| from <= j < i ==> !(#[trigger] p(j))),
            None => forall|j: int| from <= j < n ==> !(#[trigger] p(j)),
        },
    decreases n - from,
{
    if from < n && !p(from) {
        lemma_first_from(from + 1, n, p);
    }
}

/// An index that has the property, and no smaller one, is the one found.
pub proof fn lemma_first_is(n: nat, p: spec_fn(int) -> bool, i: int)
    requires
        0 <= i < n,
        p(i),
        forall|j: int| 0 <= j < i ==> !(#[trigger] p(j)),
    ensures
        first_where(n, p) == Some(i),
{
    lemma_first_from(0, n as int, p);
}

/// Where no index has the property, none is found.
pub proof fn lemma_first_none(n: nat, p: spec_fn(int) -> bool)
    requires
        forall|j: int| 0 <= j < n ==> !(#[trigger] p(j)),
    ensures
        first_where(n, p) is None,
{
    lemma_first_from(0, n as int, p);
}

} // verus!
