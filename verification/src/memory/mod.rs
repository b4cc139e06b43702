//! The memory manager: handles, storages, pages, pools and the capture arena.

pub mod align;
pub mod bytes;
pub mod call_laws;
pub mod error;
pub mod external;
pub mod handle;
pub mod history;
pub mod laws;
pub mod manage;
pub mod memory_pool;
pub mod model;
pub mod option_laws;
pub mod options;
pub mod page;
pub mod pool;
pub mod pool_laws;
pub mod range_laws;
pub mod refill;
pub mod storage;
pub mod table_laws;
pub mod tally;
pub mod usage;
pub mod windows;
