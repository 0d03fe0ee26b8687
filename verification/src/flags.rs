use vstd::prelude::*;
use crate::address::PhysPageNum;

verus! {

/// Valid bit of a page-table entry.
pub const PTE_V: u16 = 0x1;
/// Readable bit of a page-table entry.
pub const PTE_R: u16 = 0x2;
/// Writable bit of a page-table entry.
pub const PTE_W: u16 = 0x4;
/// Executable bit of a page-table entry.
pub const PTE_X: u16 = 0x8;
/// User-accessible bit of a page-table entry.
pub const PTE_U: u16 = 0x10;
/// Global bit of a page-table entry.
pub const PTE_G: u16 = 0x20;
/// Accessed bit of a page-table entry.
pub const PTE_A: u16 = 0x40;
/// Dirty bit of a page-table entry.
pub const PTE_D: u16 = 0x80;
/// Copy-on-write bit (a software bit) of a page-table entry.
pub const PTE_O: u16 = 0x200;
/// Every bit that names a page-table entry flag.
pub const PTE_ALL: u16 = 0x2ff;

/// Read permission of a mapping.
pub const PERM_R: u16 = 0x2;
/// Write permission of a mapping.
pub const PERM_W: u16 = 0x4;
/// Execute permission of a mapping.
pub const PERM_X: u16 = 0x8;
/// User permission of a mapping.
pub const PERM_U: u16 = 0x10;
/// Copy-on-write marker of a mapping.
pub const PERM_O: u16 = 0x200;
/// Every bit that names a mapping permission.
pub const PERM_ALL: u16 = 0x21e;

/// A set of page-table entry flags.
#[derive(Copy, Clone, PartialEq, Eq, Structural, Debug)]
pub struct PTEFlags {
    bits: u16,
}

/// A set of mapping permissions.
#[derive(Copy, Clone, PartialEq, Eq, Structural, Debug)]
pub struct MapPermission {
    bits: u16,
}

impl PTEFlags {
    /// The raw bits of this flag set.
    pub closed spec fn view_bits(self) -> u16 {
        self.bits
    }

    /// A flag set only ever holds named flags.
    #[verifier::type_invariant]
    closed spec fn inv(self) -> bool {
        self.bits & !PTE_ALL == 0
    }

    /// Whether the set only holds named flags.
    pub open spec fn known(self) -> bool {
        self.view_bits() & !PTE_ALL == 0
    }

    /// The empty flag set.
    pub fn empty() -> (r: PTEFlags)
        ensures
            r.view_bits() == 0,
    {
        proof {
            crate::bits::lemma_flag_constants();
        }
        PTEFlags { bits: 0 }
    }

    /// The set of every named flag.
    pub fn all() -> (r: PTEFlags)
        ensures
            r.view_bits() == PTE_ALL,
    {
        proof {
            crate::bits::lemma_flag_constants();
        }
        PTEFlags { bits: PTE_ALL }
    }

    /// The flag set with exactly `bits`, or `None` if `bits` holds a bit that names no flag.
    pub fn from_bits(bits: u16) -> (r: Option<PTEFlags>)
        ensures
            r.is_some() <==> bits & !PTE_ALL == 0,
            r.is_some() ==> r.unwrap().view_bits() == bits,
    {
        if bits & !PTE_ALL == 0 {
            Some(PTEFlags { bits })
        } else {
            None
        }
    }

    /// The flag set made of the named flags among `bits`.
    pub fn from_bits_truncate(bits: u16) -> (r: PTEFlags)
        ensures
            r.view_bits() == bits & PTE_ALL,
    {
        proof {
            crate::bits::lemma_flag_sets(bits, 0);
        }
        PTEFlags { bits: bits & PTE_ALL }
    }

    /// The raw bits of this flag set, which only name flags.
    pub fn bits(&self) -> (r: u16)
        ensures
            r == self.view_bits(),
            self.known(),
    {
        proof {
            use_type_invariant(self);
        }
        self.bits
    }

    /// The raw bits of this flag set, which only name flags.
    pub fn get_bits(&self) -> (r: u16)
        ensures
            r == self.view_bits(),
            self.known(),
    {
        proof {
            use_type_invariant(self);
        }
        self.bits
    }

    /// Flags that are in either set.
    pub fn union(&self, other: PTEFlags) -> (r: PTEFlags)
        ensures
            r.view_bits() == self.view_bits() | other.view_bits(),
    {
        proof {
            use_type_invariant(self);
            use_type_invariant(other);
        }
        let (a, b) = (self.bits, other.bits);
        proof {
            crate::bits::lemma_flag_sets(a, b);
        }
        PTEFlags { bits: self.bits | other.bits }
    }

    /// Flags that are in both sets.
    pub fn intersection(&self, other: PTEFlags) -> (r: PTEFlags)
        ensures
            r.view_bits() == self.view_bits() & other.view_bits(),
    {
        proof {
            use_type_invariant(self);
        }
        let (a, b) = (self.bits, other.bits);
        proof {
            crate::bits::lemma_flag_sets(a, b);
        }
        PTEFlags { bits: self.bits & other.bits }
    }

    /// Flags of this set that are not in `other`.
    pub fn difference(&self, other: PTEFlags) -> (r: PTEFlags)
        ensures
            r.view_bits() == self.view_bits() & !other.view_bits(),
    {
        proof {
            use_type_invariant(self);
        }
        let (a, b) = (self.bits, other.bits);
        proof {
            crate::bits::lemma_flag_sets(a, b);
        }
        PTEFlags { bits: self.bits & !other.bits }
    }

    /// Whether every flag of `other` is in this set.
    pub fn contains(&self, other: PTEFlags) -> (r: bool)
        ensures
            r == (self.view_bits() & other.view_bits() == other.view_bits()),
    {
        self.bits & other.bits == other.bits
    }

    /// Whether the set holds no flag.
    pub fn is_empty(&self) -> (r: bool)
        ensures
            r == (self.view_bits() == 0),
    {
        self.bits == 0
    }
}

impl MapPermission {
    /// The raw bits of this permission set.
    pub closed spec fn view_bits(self) -> u16 {
        self.bits
    }

    /// The empty permission set.
    pub fn empty() -> (r: MapPermission)
        ensures
            r.view_bits() == 0,
    {
        MapPermission { bits: 0 }
    }

    /// The permission set with exactly `bits`, or `None` if `bits` holds a bit that names no permission.
    pub fn from_bits(bits: u16) -> (r: Option<MapPermission>)
        ensures
            r.is_some() <==> bits & !PERM_ALL == 0,
            r.is_some() ==> r.unwrap().view_bits() == bits,
    {
        if bits & !PERM_ALL == 0 {
            Some(MapPermission { bits })
        } else {
            None
        }
    }

    /// The permission set made of the named permissions among `bits`.
    pub fn from_bits_truncate(bits: u16) -> (r: MapPermission)
        ensures
            r.view_bits() == bits & PERM_ALL,
    {
        MapPermission { bits: bits & PERM_ALL }
    }

    /// The permission set whose raw bits are the low 16 bits of `v`.
    pub fn from_usize(v: usize) -> (r: MapPermission)
        ensures
            r.view_bits() == v as u16,
    {
        MapPermission { bits: v as u16 }
    }

    /// The raw bits of this permission set, widened.
    pub fn to_usize(&self) -> (r: usize)
        ensures
            r == self.view_bits() as usize,
    {
        self.bits as usize
    }

    /// The raw bits of this permission set.
    pub fn bits(&self) -> (r: u16)
        ensures
            r == self.view_bits(),
    {
        self.bits
    }

    /// The raw bits of this permission set.
    pub fn get_bits(&self) -> (r: u16)
        ensures
            r == self.view_bits(),
    {
        self.bits
    }

    /// Permissions that are in either set.
    pub fn union(&self, other: MapPermission) -> (r: MapPermission)
        ensures
            r.view_bits() == self.view_bits() | other.view_bits(),
    {
        MapPermission { bits: self.bits | other.bits }
    }

    /// Whether every permission of `other` is in this set.
    pub fn contains(&self, other: MapPermission) -> (r: bool)
        ensures
            r == (self.view_bits() & other.view_bits() == other.view_bits()),
    {
        self.bits & other.bits == other.bits
    }

    /// The page-table entry flags with the same bits; the bits must all name entry flags.
    pub fn flags(self) -> (r: PTEFlags)
        requires
            self.view_bits() & !PTE_ALL == 0,
        ensures
            r.view_bits() == self.view_bits(),
    {
        let f = PTEFlags::from_bits(self.bits);
        f.unwrap()
    }
}

/// Largest value of `usize` minus one: the code of `MapType::Identical`.
pub const MAP_TYPE_IDENTICAL: usize = usize::MAX - 1;
/// Largest value of `usize` minus two: the code of `MapType::Framed`.
pub const MAP_TYPE_FRAMED: usize = usize::MAX - 2;
/// Largest value of `usize` minus three: the code of `MapType::Raw`.
pub const MAP_TYPE_RAW: usize = usize::MAX - 3;

/// How the pages of a mapping find their frames.
#[derive(Copy, Clone, PartialEq, Eq, Structural, Debug)]
pub enum MapType {
    Identical,
    Framed,
    Raw,
    Specified(PhysPageNum),
}

/// The `usize` code of a mapping type.
pub open spec fn map_type_code(t: MapType) -> usize {
    match t {
        MapType::Identical => MAP_TYPE_IDENTICAL,
        MapType::Framed => MAP_TYPE_FRAMED,
        MapType::Raw => MAP_TYPE_RAW,
        MapType::Specified(p) => p.0,
    }
}

/// The mapping type whose code is `v`; any value but the three reserved codes names a frame.
pub open spec fn map_type_of_code(v: usize) -> MapType {
    if v == MAP_TYPE_IDENTICAL {
        MapType::Identical
    } else if v == MAP_TYPE_FRAMED {
        MapType::Framed
    } else if v == MAP_TYPE_RAW {
        MapType::Raw
    } else {
        MapType::Specified(PhysPageNum(v))
    }
}

impl MapType {
    /// The `usize` code of this mapping type.
    pub fn to_usize(self) -> (r: usize)
        ensures
            r == map_type_code(self),
    {
        match self {
            MapType::Identical => MAP_TYPE_IDENTICAL,
            MapType::Framed => MAP_TYPE_FRAMED,
            MapType::Raw => MAP_TYPE_RAW,
            MapType::Specified(ppn) => ppn.0,
        }
    }

    /// The mapping type whose code is `v`.
    pub fn from_usize(v: usize) -> (r: MapType)
        ensures
            r == map_type_of_code(v),
    {
        if v == MAP_TYPE_IDENTICAL {
            MapType::Identical
        } else if v == MAP_TYPE_FRAMED {
            MapType::Framed
        } else if v == MAP_TYPE_RAW {
            MapType::Raw
        } else {
            MapType::Specified(PhysPageNum(v))
        }
    }
}

/// Decoding a code gives back the code: every `usize` round-trips through `MapType`.
pub proof fn lemma_map_type_code_roundtrip(v: usize)
    ensures
        map_type_code(map_type_of_code(v)) == v,
{
}

/// Encoding a mapping type and decoding it gives the same type back, unless the type names a
/// frame whose number is one of the three reserved codes.
pub proof fn lemma_map_type_roundtrip(t: MapType)
    requires
        t matches MapType::Specified(p) ==> (p.0 != MAP_TYPE_IDENTICAL && p.0 != MAP_TYPE_FRAMED
            && p.0 != MAP_TYPE_RAW),
    ensures
        map_type_of_code(map_type_code(t)) == t,
{
}

} // verus!
