//! Reference-counted handles to managed memory.

use std::sync::Arc;
use std::sync::atomic::{AtomicU8, AtomicUsize, Ordering};
use vstd::prelude::*;

verus! {

/// Where a slice lives.
#[derive(Clone, Copy, Debug, PartialEq, Eq)]
pub struct MemoryLocation {
    /// Which pool.
    pub pool: u8,
    /// Which page of the pool.
    pub page: usize,
    /// One once the handle was placed, zero until then.
    pub init: u8,
}

impl MemoryLocation {
    /// Whether this is what a handle reports: either it was placed, or everything is zero.
    pub open spec fn reported(self) -> bool {
        self.init == 1 || self == (MemoryLocation { pool: 0, page: 0, init: 0 })
    }
}

/// The location that a reading of a cell comes to. The pool and the page are written before
/// the mark that says so. Until that mark is read they do not count.
pub fn located(init: u8, pool: u8, page: usize) -> (r: MemoryLocation)
    ensures
        r == (if init == 0 {
            MemoryLocation { pool: 0, page: 0, init: 0 }
        } else {
            MemoryLocation { pool, page, init: 1 }
        }),
{
    if init == 0 {
        MemoryLocation { pool: 0, page: 0, init: 0 }
    } else {
        MemoryLocation { pool, page, init: 1 }
    }
}

/// The location that every clone of a handle shares.
struct LocationCell {
    pool: AtomicU8,
    page: AtomicUsize,
    init: AtomicU8,
}

/// A source of handle ids. Every clone draws from the same sequence, on any thread, so
/// nothing is claimed of the id that a draw gives.
pub struct HandleIds {
    next: Arc<AtomicUsize>,
}

impl HandleIds {
    /// A sequence of its own.
    pub fn new() -> HandleIds {
        HandleIds { next: Arc::new(AtomicUsize::new(0)) }
    }

    pub(crate) fn draw(&self) -> usize {
        self.next.fetch_add(1, Ordering::Relaxed)
    }
}

impl Clone for HandleIds {
    fn clone(&self) -> (r: Self)
        ensures
            r == *self,
    {
        HandleIds { next: self.next.clone() }
    }
}

/// A handle to managed memory. The memory stays reserved while a clone lives.
pub struct ManagedMemoryHandle {
    id: usize,
    /// The memory must never be written through this handle, or any clone of it.
    read_only: bool,
    cell: Arc<LocationCell>,
}

/// How many clones share this cell, by [`Arc::strong_count`]. Clones come and go on other
/// threads, so nothing is claimed of the number.
#[verifier::external_body]
fn holders(cell: &Arc<LocationCell>) -> usize {
    Arc::strong_count(cell)
}

impl Clone for ManagedMemoryHandle {
    fn clone(&self) -> (r: Self)
        ensures
            r == *self,
    {
        ManagedMemoryHandle { id: self.id, read_only: self.read_only, cell: self.cell.clone() }
    }
}

/// How many hold memory of which there are so many clones of a handle: as many, and two more
/// where it is read only, which nobody gives up.
pub fn holders_with(clones: usize, read_only: bool) -> (r: usize)
    ensures
        r == (if !read_only {
            clones as int
        } else if clones + 2 <= usize::MAX {
            clones + 2
        } else {
            usize::MAX as int
        }),
{
    if read_only {
        clones.saturating_add(2)
    } else {
        clones
    }
}

/// Whether memory with this many holders may be written in place: one holder is
/// the pool, one is the user.
pub fn can_mut_with(holders: usize) -> (r: bool)
    ensures
        r == (holders <= 2),
{
    holders <= 2
}

/// Whether memory with this many holders may be handed out again: only the pool
/// is left.
pub fn is_free_with(holders: usize) -> (r: bool)
    ensures
        r == (holders <= 1),
{
    holders <= 1
}

impl ManagedMemoryHandle {
    /// What tells this handle and its clones from every other handle.
    pub closed spec fn id(self) -> usize {
        self.id
    }

    /// What tells this handle and its clones from every other handle.
    pub fn handle_id(&self) -> (r: usize)
        ensures
            r == self.id(),
    {
        self.id
    }

    /// Whether the memory must never be written through this handle, or any clone of it.
    pub closed spec fn read_only(self) -> bool {
        self.read_only
    }

    /// A handle that is not placed yet, under the next id of a sequence. Its memory may be
    /// written.
    pub fn new(ids: &HandleIds) -> (r: ManagedMemoryHandle)
        ensures
            !r.read_only(),
    {
        ManagedMemoryHandle::with_id(ids.draw(), false)
    }

    /// A handle that is not placed yet, under a given id.
    pub(crate) fn with_id(id: usize, read_only: bool) -> (r: ManagedMemoryHandle)
        ensures
            r.id() == id,
            r.read_only() == read_only,
    {
        ManagedMemoryHandle {
            id,
            read_only,
            cell: Arc::new(
                LocationCell {
                    pool: AtomicU8::new(0),
                    page: AtomicUsize::new(0),
                    init: AtomicU8::new(0),
                },
            ),
        }
    }

    /// Where the memory lives: pool and page once it was placed, all zero until then. Every
    /// clone places the same cell, on any thread, so which of these the answer is stays open:
    /// what follows from it is stated of the functions that take a location.
    pub fn location(&self) -> (r: MemoryLocation)
        ensures
            r.reported(),
    {
        let init: u8 = self.cell.init.load(Ordering::Acquire);
        let pool: u8 = self.cell.pool.load(Ordering::Relaxed);
        let page: usize = self.cell.page.load(Ordering::Relaxed);
        located(init, pool, page)
    }

    /// Records where the memory lives, for every clone.
    pub(crate) fn place(&self, pool: u8, page: usize) {
        self.cell.pool.store(pool, Ordering::Relaxed);
        self.cell.page.store(page, Ordering::Relaxed);
        self.cell.init.store(1, Ordering::Release);
    }

    /// How many hold the memory: as many as there are clones of this handle, itself included,
    /// and two more where the memory is read only, which nobody gives up. Clones come and go on
    /// other threads, so nothing is claimed of their number.
    pub(crate) fn holders(&self) -> (r: usize)
        ensures
            self.read_only() ==> r >= 2,
    {
        holders_with(holders(&self.cell), self.read_only)
    }

    /// Whether the memory may be written in place: never where it is read only, and else as
    /// long as there are few enough holders.
    pub fn can_mut(&self) -> (r: bool)
        ensures
            self.read_only() ==> !r,
    {
        !self.read_only && can_mut_with(self.holders())
    }

    /// Whether only the pool still holds the memory: never where it is read only.
    pub fn is_free(&self) -> (r: bool)
        ensures
            self.read_only() ==> !r,
    {
        is_free_with(self.holders())
    }

    /// The binding that a kernel launch takes.
    pub fn binding(self) -> (r: ManagedMemoryBinding)
        ensures
            r.of() == self,
            r.id() == self.id(),
    {
        ManagedMemoryBinding { handle: self }
    }
}

/// A handle as a kernel launch takes it.
pub struct ManagedMemoryBinding {
    handle: ManagedMemoryHandle,
}

impl Clone for ManagedMemoryBinding {
    fn clone(&self) -> (r: Self)
        ensures
            r == *self,
    {
        ManagedMemoryBinding { handle: self.handle.clone() }
    }
}

impl ManagedMemoryBinding {
    /// The handle this binding was made from.
    pub closed spec fn of(self) -> ManagedMemoryHandle {
        self.handle
    }

    /// The id of the handle this binding was made from.
    pub closed spec fn id(self) -> usize {
        self.handle.id
    }

    /// The id of the handle this binding was made from.
    pub fn handle_id(&self) -> (r: usize)
        ensures
            r == self.id(),
    {
        self.handle.id
    }

    /// Where the memory of the handle lives: pool and page once it was placed, all zero until
    /// then.
    pub fn location(&self) -> (r: MemoryLocation)
        ensures
            r.reported(),
    {
        self.handle.location()
    }
}

} // verus!
