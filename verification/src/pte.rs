use vstd::prelude::*;
use crate::address::InnerPhysPageNum;
use crate::flags::{PTEFlags, PTE_ALL, PTE_V, PTE_R, PTE_W, PTE_X, PTE_O};

verus! {

/// Mask of the 44 bits of a physical page number.
pub const PPN_MASK: u64 = 0xfff_ffff_ffff;

/// Physical page number stored in the entry bits `bits`.
pub open spec fn pte_ppn(bits: u64) -> u64 {
    (bits >> 10) & PPN_MASK
}

/// Entry bits that point at `ppn` with flags `flags`.
pub open spec fn pte_bits(ppn: usize, flags: u16) -> u64 {
    ((ppn as u64) << 10) | (flags as u64)
}

/// Whether the entry bits `bits` have the flag bit(s) `flag` set.
pub open spec fn pte_has(bits: u64, flag: u16) -> bool {
    bits & (flag as u64) != 0
}

/// Whether the entry bits can be read as a flag set: bit 8 names no flag.
pub open spec fn pte_flags_readable(bits: u64) -> bool {
    bits & 0x100 == 0
}

/// A Sv39 page-table entry.
#[derive(Copy, Clone, Debug)]
pub struct PageTableEntry {
    pub bits: u64,
}

impl PageTableEntry {
    /// An entry that points at `ppn` with `flags`.
    pub fn new(ppn: InnerPhysPageNum, flags: PTEFlags) -> (r: PageTableEntry)
        ensures
            r.bits == pte_bits(ppn.0, flags.view_bits()),
    {
        PageTableEntry { bits: ((ppn.0 as u64) << 10) | (flags.bits() as u64) }
    }

    /// The all-zero entry.
    pub fn empty() -> (r: PageTableEntry)
        ensures
            r.bits == 0,
    {
        PageTableEntry { bits: 0 }
    }

    /// An entry with the raw bits `bits`.
    pub fn from_bits(bits: u64) -> (r: PageTableEntry)
        ensures
            r.bits == bits,
    {
        PageTableEntry { bits }
    }

    /// The physical page this entry points at.
    pub fn ppn(&self) -> (r: InnerPhysPageNum)
        ensures
            r.0 == pte_ppn(self.bits) as usize,
    {
        InnerPhysPageNum(((self.bits >> 10) & PPN_MASK) as usize)
    }

    /// The flags of this entry; bit 8 must be clear, since it names no flag.
    pub fn flags(&self) -> (r: PTEFlags)
        requires
            pte_flags_readable(self.bits),
        ensures
            r.view_bits() == (self.bits & 0x3ff) as u16,
    {
        let b = self.bits;
        proof {
            crate::bits::lemma_entry_bits(b, 0, 0);
        }
        PTEFlags::from_bits((self.bits & 0x3ff) as u16).unwrap()
    }

    /// Whether the entry is valid.
    pub fn is_valid(&self) -> (r: bool)
        requires
            pte_flags_readable(self.bits),
        ensures
            r == pte_has(self.bits, PTE_V),
    {
        let b = self.bits;
        let f = self.flags();
        let m = PTEFlags::from_bits_truncate(PTE_V);
        let i = f.intersection(m);
        let ghost fb = f.view_bits();
        proof {
            crate::bits::lemma_entry_bits(b, 0, 0);
        }
        !i.is_empty()
    }

    /// Whether the entry allows reads.
    pub fn readable(&self) -> (r: bool)
        requires
            pte_flags_readable(self.bits),
        ensures
            r == pte_has(self.bits, PTE_R),
    {
        let b = self.bits;
        let f = self.flags();
        let m = PTEFlags::from_bits_truncate(PTE_R);
        let i = f.intersection(m);
        let ghost fb = f.view_bits();
        proof {
            crate::bits::lemma_entry_bits(b, 0, 0);
        }
        !i.is_empty()
    }

    /// Whether the entry allows writes.
    pub fn writable(&self) -> (r: bool)
        requires
            pte_flags_readable(self.bits),
        ensures
            r == pte_has(self.bits, PTE_W),
    {
        let b = self.bits;
        let f = self.flags();
        let m = PTEFlags::from_bits_truncate(PTE_W);
        let i = f.intersection(m);
        let ghost fb = f.view_bits();
        proof {
            crate::bits::lemma_entry_bits(b, 0, 0);
        }
        !i.is_empty()
    }

    /// Whether the entry allows instruction fetches.
    pub fn executable(&self) -> (r: bool)
        requires
            pte_flags_readable(self.bits),
        ensures
            r == pte_has(self.bits, PTE_X),
    {
        let b = self.bits;
        let f = self.flags();
        let m = PTEFlags::from_bits_truncate(PTE_X);
        let i = f.intersection(m);
        let ghost fb = f.view_bits();
        proof {
            crate::bits::lemma_entry_bits(b, 0, 0);
        }
        !i.is_empty()
    }

    /// Replaces the low eight flag bits by `flags`, keeping the page number and bits 8 and 9.
    pub fn set_flags(&mut self, flags: PTEFlags)
        ensures
            final(self).bits == (old(self).bits & 0xffff_ffff_ffff_ff00) | (flags.view_bits() as u64),
    {
        let new_flags: u16 = flags.bits();
        self.bits = (self.bits & 0xffff_ffff_ffff_ff00) | (new_flags as u64);
    }

    /// Marks the entry copy-on-write (bit 9).
    pub fn set_cow(&mut self)
        ensures
            final(self).bits == old(self).bits | 0x200,
    {
        self.bits = self.bits | 0x200;
    }

    /// Clears the copy-on-write mark (bit 9).
    pub fn reset_cow(&mut self)
        ensures
            final(self).bits == old(self).bits & !0x200u64,
    {
        self.bits = self.bits & !0x200u64;
    }

    /// Whether the entry is marked copy-on-write.
    pub fn is_cow(&self) -> (r: bool)
        ensures
            r == pte_has(self.bits, PTE_O),
    {
        self.bits & 0x200 != 0
    }

    /// Makes the entry point at `ppn` with `flags`.
    pub fn set_bits(&mut self, ppn: InnerPhysPageNum, flags: PTEFlags)
        ensures
            final(self).bits == pte_bits(ppn.0, flags.view_bits()),
    {
        self.bits = ((ppn.0 as u64) << 10) | (flags.bits() as u64);
    }

    /// Replaces the R, W and X bits by those of `flags`; every other bit stays.
    pub fn set_pte_flags(&mut self, flags: usize)
        ensures
            final(self).bits == (old(self).bits & !0b1110u64) | ((flags as u64) & 0b1110u64),
    {
        let f = flags & 0b1110;
        proof {
            crate::bits::lemma_usize_masks(0, flags);
        }
        self.bits = (self.bits & !0b1110u64) | (f as u64);
    }
}

/// An entry built from a page number of at most 44 bits and a set of named flags gives that
/// page number and those flags back, and its flags are readable.
pub proof fn lemma_pte_new_roundtrip(ppn: usize, flags: u16)
    requires
        (ppn as u64) <= PPN_MASK,
        flags & !PTE_ALL == 0,
    ensures
        pte_ppn(pte_bits(ppn, flags)) == ppn as u64,
        (pte_bits(ppn, flags) & 0x3ff) as u16 == flags,
        pte_flags_readable(pte_bits(ppn, flags)),
{
    crate::bits::lemma_entry_bits(0, flags, ppn as u64);
}

/// Marking an entry copy-on-write makes `is_cow` true and keeps its page number, its other
/// flags and the readability of its flags; clearing the mark makes `is_cow` false with the same
/// guarantees.
pub proof fn lemma_pte_cow(bits: u64)
    ensures
        pte_has(bits | 0x200, PTE_O),
        !pte_has(bits & !0x200u64, PTE_O),
        pte_ppn(bits | 0x200) == pte_ppn(bits),
        pte_ppn(bits & !0x200u64) == pte_ppn(bits),
        (bits | 0x200) & 0xff == bits & 0xff,
        (bits & !0x200u64) & 0xff == bits & 0xff,
        pte_flags_readable(bits) ==> pte_flags_readable(bits | 0x200),
        pte_flags_readable(bits) ==> pte_flags_readable(bits & !0x200u64),
{
    crate::bits::lemma_cow_bits(bits);
    crate::bits::lemma_entry_bits(bits, 0, 0);
}

/// Changing the R, W and X bits keeps the page number, the valid bit, the copy-on-write bit
/// and the readability of the flags.
pub proof fn lemma_pte_set_pte_flags(bits: u64, flags: u64)
    ensures
        pte_ppn((bits & !0b1110u64) | (flags & 0b1110u64)) == pte_ppn(bits),
        pte_has((bits & !0b1110u64) | (flags & 0b1110u64), PTE_V) == pte_has(bits, PTE_V),
        pte_has((bits & !0b1110u64) | (flags & 0b1110u64), PTE_O) == pte_has(bits, PTE_O),
        pte_flags_readable(bits) ==> pte_flags_readable((bits & !0b1110u64) | (flags & 0b1110u64)),
{
    crate::bits::lemma_rwx_bits(bits, flags);
}

} // verus!
