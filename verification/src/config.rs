use vstd::prelude::*;

verus! {

/// Size of a page in bytes.
pub const PAGE_SIZE: usize = 0x1000;

/// Number of bits of the in-page offset.
pub const PAGE_SIZE_BITS: usize = 0xc;

/// Number of entries in one page-table frame.
pub const PTE_PER_FRAME: usize = 512;

} // verus!
