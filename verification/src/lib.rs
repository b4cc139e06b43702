//! Memory management for compute streams, and the decisions of the backends that run on it.

pub mod cuda;
pub mod first;
pub mod fnv;
pub mod handle;
pub mod memory;
pub mod policy;
pub mod settled;
pub mod sort;
pub mod text;
pub mod webgpu;
pub mod webgpu_laws;
