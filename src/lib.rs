//! Memory management for a small x86-64 kernel: a reference-counted
//! physical frame allocator and a four-level page-table manager.

pub mod allocator;
pub mod frame_proofs;
pub mod memory;
pub mod paging;
pub mod phy_map;
pub mod sync;
pub mod util;
