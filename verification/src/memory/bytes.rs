//! A storage in host memory.

use vstd::prelude::*;

use crate::memory::error::IoError;
use crate::memory::storage::{ComputeStorage, StorageHandle};

verus! {

/// Allocations in host memory. An id is never used twice.
pub struct BytesStorage {
    allocations: Vec<Option<Vec<u8>>>,
}

/// A range of an allocation in host memory.
#[derive(Clone, Copy, Debug, PartialEq, Eq)]
pub struct BytesResource {
    /// Which allocation.
    pub id: usize,
    /// Where the range starts, in bytes.
    pub offset: u64,
    /// How long the range is, in bytes.
    pub size: u64,
}

impl BytesStorage {
    /// A storage without allocations.
    pub fn new() -> (r: BytesStorage)
        ensures
            r.ids() =~= Set::<usize>::empty(),
    {
        BytesStorage { allocations: Vec::new() }
    }
}

impl ComputeStorage for BytesStorage {
    type Resource = BytesResource;

    closed spec fn ids(&self) -> Set<usize> {
        Set::new(|id: usize| id < self.allocations@.len() && self.allocations@[id as int] is Some)
    }

    open spec fn resolves(&self, handle: StorageHandle, resource: BytesResource) -> bool {
        resource == BytesResource { id: handle.id, offset: handle.offset, size: handle.size }
    }

    open spec fn refuses(&self, size: u64, error: IoError) -> bool {
        size > usize::MAX && error == (IoError::BufferTooBig { size })
    }

    fn allocate(&mut self, size: u64) -> (r: Result<StorageHandle, IoError>)
        ensures
            r is Ok <==> size <= usize::MAX,
    {
        if size > usize::MAX as u64 {
            return Err(IoError::BufferTooBig { size });
        }
        let mut bytes: Vec<u8> = Vec::new();
        bytes.resize(size as usize, 0);
        let id: usize = self.allocations.len();
        let ghost before = self.ids();
        self.allocations.push(Some(bytes));
        assert(self.ids() =~= before.insert(id));
        Ok(StorageHandle { id, offset: 0, size })
    }

    fn deallocate(&mut self, id: usize) {
        let ghost before = self.ids();
        if id < self.allocations.len() {
            self.allocations[id] = None;
        }
        assert(self.ids() =~= before.remove(id));
    }

    fn flush(&mut self) {
    }

    fn get(&mut self, handle: &StorageHandle) -> (r: BytesResource) {
        BytesResource { id: handle.id, offset: handle.offset, size: handle.size }
    }
}

} // verus!
