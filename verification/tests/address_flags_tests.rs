use mmk::address::{InnerPhysAddr, InnerPhysPageNum, PhysAddr, PhysPageNum, VirtAddr, VirtPageNum};
use mmk::flags::{
    MapPermission, MapType, PTEFlags, MAP_TYPE_FRAMED, MAP_TYPE_IDENTICAL, MAP_TYPE_RAW, PTE_A, PTE_ALL,
    PTE_D, PTE_R, PTE_V, PTE_W, PTE_X,
};
use mmk::pte::PageTableEntry;
use mmk::util::log2;

#[test]
fn inner_addr_floor_ceil_offset() {
    let a = InnerPhysAddr(0x8020_1234);
    assert_eq!(a.floor(), InnerPhysPageNum(0x80201));
    assert_eq!(a.ceil(), InnerPhysPageNum(0x80202));
    assert_eq!(a.page_offset(), 0x234);
    assert!(!a.aligned());
    let b = InnerPhysAddr(0x8020_0000);
    assert_eq!(b.floor(), InnerPhysPageNum(0x80200));
    assert_eq!(b.ceil(), InnerPhysPageNum(0x80200));
    assert!(b.aligned());
    assert_eq!(InnerPhysAddr::from_page(InnerPhysPageNum(0x80200)), b);
}

#[test]
fn page_number_steps() {
    let p = InnerPhysPageNum(41);
    assert_eq!(p.next(), InnerPhysPageNum(42));
    assert_eq!(p.last(), InnerPhysPageNum(40));
    let mut q = p;
    q.step();
    assert_eq!(q, InnerPhysPageNum(42));
}

#[test]
fn outer_addresses_and_conversions() {
    assert_eq!(PhysAddr(0x1001).floor(), PhysPageNum(1));
    assert_eq!(PhysAddr(0x1001).ceil(), PhysPageNum(2));
    assert_eq!(VirtAddr(0x3fff).floor(), VirtPageNum(3));
    assert_eq!(VirtAddr(0x3001).ceil(), VirtPageNum(4));
    assert_eq!(VirtAddr(0x3abc).page_offset(), 0xabc);
    assert_eq!(InnerPhysPageNum::from_phys(PhysPageNum(7)), InnerPhysPageNum(7));
    assert_eq!(PhysPageNum::from_inner(InnerPhysPageNum(9)), PhysPageNum(9));
}

#[test]
fn vpn_indexes_split_27_bits() {
    let vpn = VirtPageNum((3 << 18) | (5 << 9) | 7);
    assert_eq!(vpn.indexes(), [3, 5, 7]);
    assert_eq!(VirtPageNum(0x7ff_ffff).indexes(), [511, 511, 511]);
    // bits above the 27 of Sv39 are ignored
    assert_eq!(VirtPageNum((1 << 27) | 1).indexes(), [0, 0, 1]);
}

#[test]
fn pte_flag_sets() {
    let rw = PTEFlags::from_bits_truncate(PTE_R).union(PTEFlags::from_bits_truncate(PTE_W));
    assert_eq!(rw.bits(), 0x6);
    assert!(rw.contains(PTEFlags::from_bits_truncate(PTE_R)));
    assert!(!rw.contains(PTEFlags::from_bits_truncate(PTE_X)));
    assert_eq!(rw.intersection(PTEFlags::from_bits_truncate(PTE_W)).bits(), PTE_W);
    assert_eq!(rw.difference(PTEFlags::from_bits_truncate(PTE_W)).bits(), PTE_R);
    assert!(PTEFlags::empty().is_empty());
    assert_eq!(PTEFlags::all().bits(), PTE_ALL);
    assert!(PTEFlags::from_bits(0x100).is_none());
    assert_eq!(PTEFlags::from_bits(0x201).unwrap().get_bits(), 0x201);
    assert_eq!(PTEFlags::from_bits_truncate(0xffff).bits(), PTE_ALL);
}

#[test]
fn map_permissions() {
    let rw = MapPermission::from_bits(0x6).unwrap();
    assert_eq!(rw.flags().bits(), 0x6);
    assert!(MapPermission::from_bits(0x1).is_none());
    assert_eq!(MapPermission::from_bits_truncate(0xffff).bits(), 0x21e);
    assert_eq!(MapPermission::from_usize(0x1_0016).get_bits(), 0x16);
    assert_eq!(MapPermission::from_usize(0x16).to_usize(), 0x16);
    let x = MapPermission::from_bits(0x8).unwrap();
    assert!(rw.union(x).contains(x));
    assert_eq!(MapPermission::empty().bits(), 0);
}

#[test]
fn map_type_codes() {
    assert_eq!(MapType::Identical.to_usize(), usize::MAX - 1);
    assert_eq!(MapType::Framed.to_usize(), usize::MAX - 2);
    assert_eq!(MapType::Raw.to_usize(), usize::MAX - 3);
    assert_eq!(MapType::Specified(PhysPageNum(0x80400)).to_usize(), 0x80400);
    assert_eq!(MapType::from_usize(MAP_TYPE_IDENTICAL), MapType::Identical);
    assert_eq!(MapType::from_usize(MAP_TYPE_FRAMED), MapType::Framed);
    assert_eq!(MapType::from_usize(MAP_TYPE_RAW), MapType::Raw);
    assert_eq!(MapType::from_usize(12), MapType::Specified(PhysPageNum(12)));
    // round trip of a code
    assert_eq!(MapType::from_usize(0x80400).to_usize(), 0x80400);
}

#[test]
fn page_table_entry_fields() {
    let flags = PTEFlags::from_bits(PTE_V | PTE_R | PTE_W | PTE_A | PTE_D).unwrap();
    let e = PageTableEntry::new(InnerPhysPageNum(0x80123), flags);
    assert_eq!(e.bits, (0x80123u64 << 10) | 0xc7);
    assert_eq!(e.ppn(), InnerPhysPageNum(0x80123));
    assert_eq!(e.flags().bits(), 0xc7);
    assert!(e.is_valid());
    assert!(e.readable());
    assert!(e.writable());
    assert!(!e.executable());
    assert!(!PageTableEntry::empty().is_valid());
    assert_eq!(PageTableEntry::from_bits(0x401).ppn(), InnerPhysPageNum(1));
}

#[test]
fn page_table_entry_updates() {
    let mut e = PageTableEntry::new(InnerPhysPageNum(5), PTEFlags::from_bits(PTE_V | PTE_R).unwrap());
    e.set_cow();
    assert!(e.is_cow());
    assert_eq!(e.bits, (5u64 << 10) | 0x203);
    e.reset_cow();
    assert!(!e.is_cow());
    e.set_flags(PTEFlags::from_bits(PTE_V | PTE_X).unwrap());
    assert_eq!(e.bits, (5u64 << 10) | 0x9);
    e.set_pte_flags(0xff);
    // only R, W and X are taken from the argument
    assert_eq!(e.bits, (5u64 << 10) | 0xf);
    e.set_pte_flags(0x0);
    assert_eq!(e.bits, (5u64 << 10) | 0x1);
    e.set_bits(InnerPhysPageNum(6), PTEFlags::from_bits(PTE_V).unwrap());
    assert_eq!(e.bits, (6u64 << 10) | 0x1);
}

#[test]
fn log2_values() {
    assert_eq!(log2(0), 0);
    assert_eq!(log2(1), 0);
    assert_eq!(log2(2), 1);
    assert_eq!(log2(3), 1);
    assert_eq!(log2(4096), 12);
    assert_eq!(log2(4097), 12);
    assert_eq!(log2(1 << 62), 62);
    assert_eq!(log2((1 << 63) - 1), 62);
    // a number with all 64 binary digits gives 64
    assert_eq!(log2(1 << 63), 64);
    assert_eq!(log2(usize::MAX), 64);
}

#[test]
fn inner_and_outer_addresses_coincide() {
    assert_eq!(InnerPhysAddr::from_phys(PhysAddr(0x8300_1234)), InnerPhysAddr(0x8300_1234));
    assert_eq!(PhysAddr::from_inner(InnerPhysAddr(0x8300_1234)), PhysAddr(0x8300_1234));
}

#[test]
fn an_address_is_its_page_plus_its_offset() {
    let a = InnerPhysAddr(0x8765_4321);
    assert!(a.page_offset() < 4096);
    assert_eq!(a.0, a.floor().0 * 4096 + a.page_offset());
    let p = InnerPhysPageNum(0x87654);
    let b = InnerPhysAddr::from_page(p);
    assert_eq!(b.page_offset(), 0);
    assert!(b.aligned());
    assert_eq!(b.floor(), p);
}
