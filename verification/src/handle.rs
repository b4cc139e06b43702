//! Handles to memory on a stream.

use vstd::prelude::*;

use crate::memory::handle::{HandleIds, ManagedMemoryBinding, ManagedMemoryHandle};

verus! {

/// Memory on a stream, as the user holds it.
pub struct Handle {
    /// The memory.
    pub memory: ManagedMemoryHandle,
    /// The stream that the memory belongs to.
    pub stream: u64,
    /// How many bytes at the start are left out.
    pub offset_start: Option<u64>,
    /// How many bytes at the end are left out.
    pub offset_end: Option<u64>,
    /// How many bytes the memory has.
    pub bytes: u64,
}

/// Memory on a stream, as a kernel launch takes it.
pub struct Binding {
    /// The memory.
    pub memory: ManagedMemoryBinding,
    /// The stream that the memory belongs to.
    pub stream: u64,
    /// How many bytes at the start are left out.
    pub offset_start: Option<u64>,
    /// How many bytes at the end are left out.
    pub offset_end: Option<u64>,
    /// How many bytes the memory has.
    pub bytes: u64,
}

impl Clone for Handle {
    fn clone(&self) -> (r: Self)
        ensures
            r == *self,
    {
        Handle {
            memory: self.memory.clone(),
            stream: self.stream,
            offset_start: self.offset_start,
            offset_end: self.offset_end,
            bytes: self.bytes,
        }
    }
}

impl Clone for Binding {
    fn clone(&self) -> (r: Self)
        ensures
            r == *self,
    {
        Binding {
            memory: self.memory.clone(),
            stream: self.stream,
            offset_start: self.offset_start,
            offset_end: self.offset_end,
            bytes: self.bytes,
        }
    }
}

impl Handle {
    /// A handle that names no memory yet.
    pub fn new(ids: &HandleIds, stream: u64, size: u64) -> (r: Handle)
        ensures
            r.stream == stream,
            r.bytes == size,
            r.offset_start is None,
            r.offset_end is None,
    {
        Handle::from_memory(ManagedMemoryHandle::new(ids), stream, size)
    }

    /// A handle to memory, all of it.
    pub fn from_memory(memory: ManagedMemoryHandle, stream: u64, size: u64) -> (r: Handle)
        ensures
            r == (Handle { memory, stream, offset_start: None, offset_end: None, bytes: size }),
    {
        Handle { memory, stream, offset_start: None, offset_end: None, bytes: size }
    }

    /// How many bytes the memory has.
    pub fn size(&self) -> (r: u64)
        ensures
            r == self.bytes,
    {
        self.bytes
    }

    /// The binding that a kernel launch takes.
    pub fn binding(self) -> (r: Binding)
        ensures
            r.memory.of() == self.memory,
            r.memory.id() == self.memory.id(),
            r.stream == self.stream,
            r.offset_start == self.offset_start,
            r.offset_end == self.offset_end,
            r.bytes == self.bytes,
    {
        Binding {
            memory: self.memory.binding(),
            stream: self.stream,
            offset_start: self.offset_start,
            offset_end: self.offset_end,
            bytes: self.bytes,
        }
    }
}

} // verus!
