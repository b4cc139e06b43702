//! Storages: what pages of memory are allocated from.

use vstd::prelude::*;

use crate::memory::error::IoError;

verus! {

/// A range of bytes inside one allocation of a storage.
#[derive(Clone, Copy, Debug, PartialEq, Eq)]
pub struct StorageHandle {
    /// Which allocation.
    pub id: usize,
    /// Where the range starts, in bytes.
    pub offset: u64,
    /// How long the range is, in bytes.
    pub size: u64,
}

impl StorageHandle {
    /// The same range without its first `bytes` bytes.
    pub fn offset_start(&self, bytes: u64) -> (r: StorageHandle)
        requires
            bytes <= self.size,
            self.offset + bytes <= u64::MAX,
        ensures
            r == (StorageHandle {
                id: self.id,
                offset: (self.offset + bytes) as u64,
                size: (self.size - bytes) as u64,
            }),
    {
        StorageHandle { id: self.id, offset: self.offset + bytes, size: self.size - bytes }
    }

    /// The same range without its last `bytes` bytes.
    pub fn offset_end(&self, bytes: u64) -> (r: StorageHandle)
        requires
            bytes <= self.size,
        ensures
            r == (StorageHandle {
                id: self.id,
                offset: self.offset,
                size: (self.size - bytes) as u64,
            }),
    {
        StorageHandle { id: self.id, offset: self.offset, size: self.size - bytes }
    }
}

/// A range without its first `start` and its last `end` bytes, where it has as many.
pub open spec fn narrowed(handle: StorageHandle, start: Option<u64>, end: Option<u64>) -> Option<
    StorageHandle,
> {
    let s: int = match start {
        Some(bytes) => bytes as int,
        None => 0,
    };
    let e: int = match end {
        Some(bytes) => bytes as int,
        None => 0,
    };
    if s + e <= handle.size && handle.offset + s <= u64::MAX {
        Some(
            StorageHandle {
                id: handle.id,
                offset: (handle.offset + s) as u64,
                size: (handle.size - s - e) as u64,
            },
        )
    } else {
        None
    }
}

/// A range without its first `start` and its last `end` bytes, where it has as many.
pub fn narrow(handle: StorageHandle, start: Option<u64>, end: Option<u64>) -> (r: Option<
    StorageHandle,
>)
    ensures
        r == narrowed(handle, start, end),
{
    let handle: StorageHandle = match start {
        Some(bytes) => {
            if bytes > handle.size || handle.offset > u64::MAX - bytes {
                return None;
            }
            handle.offset_start(bytes)
        },
        None => handle,
    };
    match end {
        Some(bytes) => {
            if bytes > handle.size {
                return None;
            }
            Some(handle.offset_end(bytes))
        },
        None => Some(handle),
    }
}

/// What a backend provides: allocations, addressed by id, and the resources
/// that kernels bind.
pub trait ComputeStorage: Sized {
    /// What a range of this storage looks like to a kernel.
    type Resource;

    /// The allocations that were handed out and not given back. A storage that is verified says
    /// here which they are: no set that stays the same meets what its calls promise. The body is
    /// there for a storage outside of Verus, whose promises are taken on trust.
    open spec fn ids(&self) -> Set<usize> {
        arbitrary()
    }

    /// Whether a resource is what a range of this storage looks like to a kernel. A storage that
    /// does not say leaves it open: anything may be.
    open spec fn resolves(&self, handle: StorageHandle, resource: Self::Resource) -> bool {
        true
    }

    /// Whether an allocation of so many bytes may be refused with an error. A storage that does
    /// not say leaves it open: anything may be refused.
    open spec fn refuses(&self, size: u64, error: IoError) -> bool {
        true
    }

    /// Allocates `size` bytes under an id that is not in use.
    fn allocate(&mut self, size: u64) -> (r: Result<StorageHandle, IoError>)
        ensures
            match r {
                Ok(handle) => {
                    &&& handle.offset == 0
                    &&& handle.size == size
                    &&& !old(self).ids().contains(handle.id)
                    &&& final(self).ids() == old(self).ids().insert(handle.id)
                },
                Err(error) => {
                    &&& old(self).refuses(size, error)
                    &&& final(self).ids() == old(self).ids()
                },
            },
    ;

    /// Gives an allocation back.
    fn deallocate(&mut self, id: usize)
        ensures
            final(self).ids() == old(self).ids().remove(id),
    ;

    /// Completes the deallocations asked for so far.
    fn flush(&mut self)
        ensures
            final(self).ids() == old(self).ids(),
    ;

    /// The resource at a range of a live allocation. The range goes on looking like it.
    fn get(&mut self, handle: &StorageHandle) -> (r: Self::Resource)
        requires
            old(self).ids().contains(handle.id),
        ensures
            final(self).ids() == old(self).ids(),
            old(self).resolves(*handle, r),
            final(self).resolves(*handle, r),
    ;
}

} // verus!
