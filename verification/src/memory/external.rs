//! Storage that was registered rather than reserved.

use vstd::prelude::*;

use crate::memory::storage::StorageHandle;

verus! {

/// Externally registered storage, by handle id.
#[verifier::external_body]
pub struct ExternalMap {
    inner: hashbrown::HashMap<usize, StorageHandle>,
}

/// What an [`ExternalMap`] holds.
pub uninterp spec fn external_entries(entries: ExternalMap) -> Map<usize, StorageHandle>;

impl ExternalMap {
    /// [`hashbrown::HashMap::new`]: a map without entries.
    #[verifier::external_body]
    pub(crate) fn new() -> (fresh: ExternalMap)
        ensures
            external_entries(fresh) == (Map::<usize, StorageHandle>::empty()),
    {
        ExternalMap { inner: hashbrown::HashMap::new() }
    }

    /// [`hashbrown::HashMap::insert`]: afterwards `id` maps to `storage`, in place of what
    /// it mapped to before, and every other entry is as it was.
    #[verifier::external_body]
    pub(crate) fn insert(&mut self, id: usize, storage: StorageHandle)
        ensures
            external_entries(*final(self)) == external_entries(*old(self)).insert(id, storage),
    {
        self.inner.insert(id, storage);
    }

    /// [`hashbrown::HashMap::contains_key`]: whether `id` maps to anything.
    #[verifier::external_body]
    pub(crate) fn contains_key(&self, id: usize) -> (found: bool)
        ensures
            found == external_entries(*self).contains_key(id),
    {
        self.inner.contains_key(&id)
    }

    /// [`hashbrown::HashMap::get`]: a copy of what `id` maps to, if it maps to anything.
    #[verifier::external_body]
    pub(crate) fn get(&self, id: usize) -> (found: Option<StorageHandle>)
        ensures
            found is Some <==> external_entries(*self).contains_key(id),
            found matches Some(storage) ==> storage == external_entries(*self)[id],
    {
        self.inner.get(&id).copied()
    }
}

} // verus!
