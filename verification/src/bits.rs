use vstd::prelude::*;
use crate::flags::{PTE_ALL, PTE_V, PTE_R, PTE_W, PTE_X, PTE_O, PERM_ALL, PERM_R, PERM_W, PERM_X};
use crate::pte::PPN_MASK;

verus! {

/// Facts about the flag constants and the zero entry.
pub proof fn lemma_flag_constants()
    by (bit_vector)
    ensures
        0u64 & (PTE_V as u64) == 0,
        0u64 & 0x100 == 0,
        PTE_V & !PTE_ALL == 0,
        PTE_V & PTE_ALL == PTE_V,
        PTE_R & PTE_ALL == PTE_R,
        PTE_W & PTE_ALL == PTE_W,
        PTE_X & PTE_ALL == PTE_X,
        PTE_O & PTE_ALL == PTE_O,
        0xc1u16 & PTE_ALL == 0xc1,
        0u16 & !PTE_ALL == 0,
        PTE_ALL & !PTE_ALL == 0,
        (PTE_R | PTE_X | PTE_W) & PTE_ALL == 0xe,
        (PTE_R | PTE_X) & PTE_ALL == 0xa,
        (PTE_R | PTE_W) & PTE_ALL == 0x6,
        (PERM_R | PERM_X | PERM_W) & PERM_ALL == 0xe,
        (PERM_R | PERM_W) & PERM_ALL == 0x6,
        0xeu16 & !PTE_ALL == 0,
        0x6u16 & !PTE_ALL == 0,
{
}

/// Flag sets made of named flags stay so under union, intersection and difference; masking
/// keeps only named flags; a set with the valid, accessed and dirty flags added has bit 0.
pub proof fn lemma_flag_sets(a: u16, b: u16)
    by (bit_vector)
    ensures
        (a & PTE_ALL) & !PTE_ALL == 0,
        a & !PTE_ALL == 0 && b & !PTE_ALL == 0 ==> (a | b) & !PTE_ALL == 0,
        a & !PTE_ALL == 0 ==> (a & b) & !PTE_ALL == 0,
        a & !PTE_ALL == 0 ==> (a & !b) & !PTE_ALL == 0,
        (a | 0xc1u16) & 1 != 0,
{
}

/// Facts about the bits of an entry `e`: its low ten bits read as a set of named flags when
/// bit 8 is clear; each flag test on those bits matches the test on `e`; and every update the
/// table makes keeps bit 8 clear.
pub proof fn lemma_entry_bits(e: u64, f: u16, p: u64)
    by (bit_vector)
    ensures
        e & 0x100 == 0 ==> ((e & 0x3ff) as u16) & !PTE_ALL == 0,
        ((e & 0x3ff) as u16) & (PTE_V & PTE_ALL) == 0 <==> e & (PTE_V as u64) == 0,
        ((e & 0x3ff) as u16) & (PTE_R & PTE_ALL) == 0 <==> e & (PTE_R as u64) == 0,
        ((e & 0x3ff) as u16) & (PTE_W & PTE_ALL) == 0 <==> e & (PTE_W as u64) == 0,
        ((e & 0x3ff) as u16) & (PTE_X & PTE_ALL) == 0 <==> e & (PTE_X as u64) == 0,
        e & 0x100 == 0 ==> (e | 0x200) & 0x100 == 0,
        e & 0x100 == 0 ==> (e & !0x200u64) & 0x100 == 0,
        e & 0x100 == 0 && f & !PTE_ALL == 0 ==> ((e & 0xffff_ffff_ffff_ff00) | (f as u64)) & 0x100 == 0,
        f & 1 != 0 ==> ((e & 0xffff_ffff_ffff_ff00) | (f as u64)) & (PTE_V as u64) != 0,
        f & !PTE_ALL == 0 ==> ((p << 10) | (f as u64)) & 0x100 == 0,
        f & 1 != 0 ==> ((p << 10) | (f as u64)) & (PTE_V as u64) != 0,
        p <= PPN_MASK && f & !PTE_ALL == 0 ==> ((p << 10) | (f as u64)) >> 10 & PPN_MASK == p && (((p
            << 10) | (f as u64)) & 0x3ff) as u16 == f,
{
}

/// Marking or clearing the copy-on-write bit 9 keeps the page number, the low eight flag bits
/// and a clear bit 8; the mark is then set or clear.
pub proof fn lemma_cow_bits(e: u64)
    by (bit_vector)
    ensures
        (e | 0x200) & 0x200 != 0,
        (e & !0x200u64) & 0x200 == 0,
        (e | 0x200) >> 10 & PPN_MASK == e >> 10 & PPN_MASK,
        (e & !0x200u64) >> 10 & PPN_MASK == e >> 10 & PPN_MASK,
        (e | 0x200) & 0xff == e & 0xff,
        (e & !0x200u64) & 0xff == e & 0xff,
{
}

/// Replacing the R, W and X bits keeps the page number, the valid and copy-on-write bits and
/// a clear bit 8.
pub proof fn lemma_rwx_bits(e: u64, g: u64)
    by (bit_vector)
    ensures
        ((e & !0b1110u64) | (g & 0b1110u64)) >> 10 & PPN_MASK == e >> 10 & PPN_MASK,
        (((e & !0b1110u64) | (g & 0b1110u64)) & 1 != 0) == (e & 1 != 0),
        (((e & !0b1110u64) | (g & 0b1110u64)) & 0x200 != 0) == (e & 0x200 != 0),
        e & 0x100 == 0 ==> ((e & !0b1110u64) | (g & 0b1110u64)) & 0x100 == 0,
{
}

/// Masks of a `usize` are remainders: page offset and the three table indexes.
pub proof fn lemma_usize_masks(a: usize, g: usize)
    by (bit_vector)
    ensures
        a & 0xfff == a % 4096,
        (a >> 18) & 511 == (a / 0x40000) % 512,
        (a >> 9) & 511 == (a / 0x200) % 512,
        a & 511 == a % 512,
        a >> 1 == a / 2,
        (g & 0b1110usize) as u64 == (g as u64) & 0b1110u64,
{
}


/// Two page numbers share every Sv39 table index exactly when they agree in their low 27 bits.
pub proof fn lemma_vpn_indexes(w: usize, u: usize)
    by (bit_vector)
    ensures
        ((w / 0x40000) % 512 == (u / 0x40000) % 512 && (w / 0x200) % 512 == (u / 0x200) % 512 && w % 512
            == u % 512) <==> w % 0x800_0000 == u % 0x800_0000,
{
}


/// Replacing the low eight bits of an entry by a flag set keeps its page number; adding the
/// valid, accessed and dirty flags to a set of named flags keeps it a set of named flags.
pub proof fn lemma_flag_update_bits(e: u64, f: u16)
    by (bit_vector)
    requires
        f & !PTE_ALL == 0,
    ensures
        (((e & 0xffff_ffff_ffff_ff00) | (f as u64)) >> 10) & PPN_MASK == (e >> 10) & PPN_MASK,
        (f | 0xc1u16) & !PTE_ALL == 0,
{
}


/// The page before a page that does not start a 2 MiB (or 1 GiB) region lies in the same
/// region: its page numbers agree above the low 9 (or 18) bits.
pub proof fn lemma_same_region(v: usize)
    by (bit_vector)
    requires
        v > 0,
    ensures
        v % 512 != 0 ==> v / 512 == (v - 1) / 512 && v / 0x40000 == (v - 1) / 0x40000,
        v % 0x40000 != 0 ==> v / 0x40000 == (v - 1) / 0x40000,
{
}

} // verus!
