//! Verified core of a nested memory-management kernel for RISC-V Sv39:
//! address arithmetic, page-table entries, a stack frame allocator with
//! per-frame owner lists, a three-level page table over a modelled
//! physical memory, user buffers, and a small PKCS#11-style session store.

pub mod config;
pub mod bits;
pub mod address;
pub mod flags;
pub mod pte;
pub mod frame_allocator;
pub mod phys_mem;
pub mod page_table;
pub mod memory_set;
pub mod mm_util;
pub mod util;
pub mod pkcs;
pub mod logging;
pub mod trap;
pub mod task;
pub mod serial;

