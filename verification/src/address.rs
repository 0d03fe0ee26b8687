use vstd::prelude::*;
use crate::config::{PAGE_SIZE, PAGE_SIZE_BITS};

verus! {

/// A physical page number as seen from inside the nested kernel.
#[derive(Copy, Clone, PartialEq, Eq, Structural, PartialOrd, Ord, Debug)]
pub struct InnerPhysPageNum(pub usize);

/// A physical address as seen from inside the nested kernel.
#[derive(Copy, Clone, PartialEq, Eq, Structural, PartialOrd, Ord, Debug)]
pub struct InnerPhysAddr(pub usize);

/// Page number that contains the byte at `addr`.
pub open spec fn page_floor(addr: int) -> int {
    addr / (PAGE_SIZE as int)
}

/// Smallest page number whose first byte is at or above `addr`.
pub open spec fn page_ceil(addr: int) -> int {
    (addr - 1 + PAGE_SIZE as int) / (PAGE_SIZE as int)
}

impl InnerPhysAddr {
    /// The page that contains this address.
    pub fn floor(&self) -> (r: InnerPhysPageNum)
        ensures
            r.0 == page_floor(self.0 as int),
    {
        InnerPhysPageNum(self.0 / PAGE_SIZE)
    }

    /// The first page at or above this address.
    pub fn ceil(&self) -> (r: InnerPhysPageNum)
        requires
            1 <= self.0 <= usize::MAX - (PAGE_SIZE - 1),
        ensures
            r.0 == page_ceil(self.0 as int),
    {
        InnerPhysPageNum((self.0 - 1 + PAGE_SIZE) / PAGE_SIZE)
    }

    /// Offset of this address inside its page.
    pub fn page_offset(&self) -> (r: usize)
        ensures
            r == (self.0 as int) % (PAGE_SIZE as int),
    {
        let a = self.0;
        proof {
            crate::bits::lemma_usize_masks(a, 0);
        }
        a & (PAGE_SIZE - 1)
    }

    /// Whether this address is the first byte of a page.
    pub fn aligned(&self) -> (r: bool)
        ensures
            r == ((self.0 as int) % (PAGE_SIZE as int) == 0),
    {
        self.page_offset() == 0
    }

    /// Address of the first byte of page `ppn`.
    pub fn from_page(ppn: InnerPhysPageNum) -> (r: InnerPhysAddr)
        ensures
            r.0 == ppn.0 << 12,
            ppn.0 * (PAGE_SIZE as int) <= usize::MAX ==> r.0 == ppn.0 * (PAGE_SIZE as int),
    {
        let p = ppn.0;
        proof {
            if p * 4096 <= usize::MAX {
                vstd::arithmetic::power2::lemma2_to64();
                vstd::bits::lemma_usize_shl_is_mul(p, 12);
            }
        }
        InnerPhysAddr(p << PAGE_SIZE_BITS)
    }
}

/// An address is its page's first address plus its offset inside the page, the offset is
/// below the page size (zero exactly for the first byte of a page), and the first address of
/// page `p` lies in page `p` at offset 0 when it fits in `usize`.
pub proof fn lemma_page_parts(a: usize, p: usize)
    ensures
        0 <= (a as int) % (PAGE_SIZE as int) < PAGE_SIZE,
        a as int == page_floor(a as int) * (PAGE_SIZE as int) + (a as int) % (PAGE_SIZE as int),
        p * (PAGE_SIZE as int) <= usize::MAX ==> page_floor(p * (PAGE_SIZE as int)) == p && (p * (
        PAGE_SIZE as int)) % (PAGE_SIZE as int) == 0,
{
    vstd::arithmetic::div_mod::lemma_fundamental_div_mod(a as int, PAGE_SIZE as int);
    vstd::arithmetic::div_mod::lemma_mod_bound(a as int, PAGE_SIZE as int);
    vstd::arithmetic::div_mod::lemma_div_multiples_vanish(p as int, PAGE_SIZE as int);
    vstd::arithmetic::div_mod::lemma_mod_multiples_basic(p as int, PAGE_SIZE as int);
    vstd::arithmetic::mul::lemma_mul_is_commutative(p as int, PAGE_SIZE as int);
}

impl InnerPhysPageNum {
    /// The page right after this one.
    pub fn next(&self) -> (r: InnerPhysPageNum)
        requires
            self.0 < usize::MAX,
        ensures
            r.0 == self.0 + 1,
    {
        InnerPhysPageNum(self.0 + 1)
    }

    /// The page right before this one.
    pub fn last(&self) -> (r: InnerPhysPageNum)
        requires
            self.0 >= 1,
        ensures
            r.0 == self.0 - 1,
    {
        InnerPhysPageNum(self.0 - 1)
    }

    /// Advances this page number by one.
    pub fn step(&mut self)
        requires
            old(self).0 < usize::MAX,
        ensures
            final(self).0 == old(self).0 + 1,
    {
        self.0 = self.0 + 1;
    }
}


/// A physical address as seen by the outer kernel.
#[derive(Copy, Clone, PartialEq, Eq, Structural, PartialOrd, Ord, Debug)]
pub struct PhysAddr(pub usize);

/// A physical page number as seen by the outer kernel.
#[derive(Copy, Clone, PartialEq, Eq, Structural, PartialOrd, Ord, Debug)]
pub struct PhysPageNum(pub usize);

/// A virtual address.
#[derive(Copy, Clone, PartialEq, Eq, Structural, PartialOrd, Ord, Debug)]
pub struct VirtAddr(pub usize);

/// A virtual page number (Sv39: 27 significant bits).
#[derive(Copy, Clone, PartialEq, Eq, Structural, PartialOrd, Ord, Debug)]
pub struct VirtPageNum(pub usize);

impl InnerPhysPageNum {
    /// Inner view of an outer physical page number; the two coincide.
    pub fn from_phys(v: PhysPageNum) -> (r: InnerPhysPageNum)
        ensures
            r.0 == v.0,
    {
        InnerPhysPageNum(v.0)
    }
}

impl PhysPageNum {
    /// Outer view of an inner physical page number; the two coincide.
    pub fn from_inner(v: InnerPhysPageNum) -> (r: PhysPageNum)
        ensures
            r.0 == v.0,
    {
        PhysPageNum(v.0)
    }
}

impl InnerPhysAddr {
    /// Inner view of an outer physical address; the two coincide.
    pub fn from_phys(v: PhysAddr) -> (r: InnerPhysAddr)
        ensures
            r.0 == v.0,
    {
        InnerPhysAddr(v.0)
    }
}

impl PhysAddr {
    /// Outer view of an inner physical address; the two coincide.
    pub fn from_inner(v: InnerPhysAddr) -> (r: PhysAddr)
        ensures
            r.0 == v.0,
    {
        PhysAddr(v.0)
    }
}

impl PhysAddr {
    /// The page that contains this address.
    pub fn floor(&self) -> (r: PhysPageNum)
        ensures
            r.0 == page_floor(self.0 as int),
    {
        PhysPageNum(self.0 / PAGE_SIZE)
    }

    /// The first page at or above this address.
    pub fn ceil(&self) -> (r: PhysPageNum)
        requires
            1 <= self.0 <= usize::MAX - (PAGE_SIZE - 1),
        ensures
            r.0 == page_ceil(self.0 as int),
    {
        PhysPageNum((self.0 - 1 + PAGE_SIZE) / PAGE_SIZE)
    }
}

/// Index into the page-table frame of level `level` (0 is the root) for `vpn`.
pub open spec fn vpn_index(vpn: int, level: int) -> int {
    if level == 0 {
        (vpn / 0x40000) % 512
    } else if level == 1 {
        (vpn / 0x200) % 512
    } else {
        vpn % 512
    }
}

impl VirtAddr {
    /// The virtual page that contains this address.
    pub fn floor(&self) -> (r: VirtPageNum)
        ensures
            r.0 == page_floor(self.0 as int),
    {
        VirtPageNum(self.0 / PAGE_SIZE)
    }

    /// The first virtual page at or above this address.
    pub fn ceil(&self) -> (r: VirtPageNum)
        requires
            1 <= self.0 <= usize::MAX - (PAGE_SIZE - 1),
        ensures
            r.0 == page_ceil(self.0 as int),
    {
        VirtPageNum((self.0 - 1 + PAGE_SIZE) / PAGE_SIZE)
    }

    /// Offset of this address inside its page.
    pub fn page_offset(&self) -> (r: usize)
        ensures
            r == (self.0 as int) % (PAGE_SIZE as int),
    {
        let a = self.0;
        proof {
            crate::bits::lemma_usize_masks(a, 0);
        }
        a & (PAGE_SIZE - 1)
    }
}

impl VirtPageNum {
    /// The three Sv39 table indexes of this page, root level first.
    pub fn indexes(&self) -> (r: [usize; 3])
        ensures
            r@.len() == 3,
            forall|l: int| 0 <= l < 3 ==> r@[l] == vpn_index(self.0 as int, l),
            forall|l: int| 0 <= l < 3 ==> r@[l] < 512,
    {
        let v = self.0;
        proof {
            crate::bits::lemma_usize_masks(v, 0);
        }
        [(v >> 18) & 511, (v >> 9) & 511, v & 511]
    }
}

} // verus!
