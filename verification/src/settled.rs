//! Settings whose first reading counts.

use vstd::prelude::*;

verus! {

/// A setting that is read once. What was read first is what it is from then on.
#[derive(Debug)]
pub struct Settled<T> {
    pub kept: Option<T>,
}

impl<T: Copy> Settled<T> {
    /// A setting that was not read yet.
    pub fn new() -> (r: Self)
        ensures
            r.kept is None,
    {
        Settled { kept: None }
    }

    /// After it was asked for, where this would be read.
    pub open spec fn asked(self, read: T) -> Self {
        match self.kept {
            Some(_) => self,
            None => Settled { kept: Some(read) },
        }
    }
}

/// After a setting was asked for several times, where these would be read.
pub open spec fn asked_all<T: Copy>(setting: Settled<T>, reads: Seq<T>) -> Settled<T>
    decreases reads.len(),
{
    if reads.len() == 0 {
        setting
    } else {
        asked_all(setting, reads.drop_last()).asked(reads.last())
    }
}

/// A setting stays what it was first read as, whatever would be read later.
pub proof fn law_first_reading_counts<T: Copy>(reads: Seq<T>)
    requires
        reads.len() > 0,
    ensures
        asked_all(Settled { kept: None }, reads).kept == Some(reads[0]),
    decreases reads.len(),
{
    reveal_with_fuel(asked_all, 2);
    if reads.len() > 1 {
        law_first_reading_counts(reads.drop_last());
    } else {
        assert(reads.drop_last() =~= Seq::<T>::empty());
    }
}

} // verus!
