//! Working-set size estimation from the kernel's idle-page tracking bitmap
//! and a process's virtual-to-physical translation table.

pub mod idlemap;
pub mod pagemap;
pub mod scanner;
pub mod estimate;
