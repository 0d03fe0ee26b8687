use mmk::address::{InnerPhysAddr, InnerPhysPageNum, PhysPageNum, VirtAddr, VirtPageNum};
use mmk::flags::{MapPermission, MapType, PTEFlags, PTE_R, PTE_W, PTE_X};
use mmk::frame_allocator::StackFrameAllocator;
use mmk::memory_set::{KernelLayout, MapArea, MemorySet};
use mmk::page_table::{PageTable, PageTableRecord};
use mmk::phys_mem::PhysMem;

const BASE: usize = 0x80000;

fn setup(frames: usize) -> (PhysMem, StackFrameAllocator) {
    let mem = PhysMem::new(InnerPhysPageNum(BASE), frames);
    let mut a = StackFrameAllocator::new();
    a.init(InnerPhysPageNum(BASE), InnerPhysPageNum(BASE + frames));
    (mem, a)
}

fn rw() -> PTEFlags {
    PTEFlags::from_bits(PTE_R | PTE_W).unwrap()
}

#[test]
fn new_table_is_empty() {
    let (mut mem, mut a) = setup(8);
    let pt = PageTableRecord::new(3, &mut a, &mut mem);
    assert_eq!(pt.root_ppn, InnerPhysPageNum(BASE));
    assert_eq!(pt.id(), 3);
    assert_eq!(a.free_count(), 7);
    assert!(pt.translate(&mem, VirtPageNum(0x12345)).is_none());
    assert!(pt.find_pte(&mem, VirtPageNum(0)).is_none());
}

#[test]
fn token_holds_mode_id_and_root() {
    let (mut mem, mut a) = setup(8);
    let pt = PageTableRecord::new(3, &mut a, &mut mem);
    assert_eq!(pt.token(), (8u64 << 60) | (3u64 << 44) | BASE as u64);
    let handle = PageTable::from_record(&pt);
    assert_eq!(handle.id(), 3);
    // the handle's token carries no address-space id
    assert_eq!(handle.token(), (8u64 << 60) | BASE as u64);
}

#[test]
fn map_then_translate() {
    let (mut mem, mut a) = setup(8);
    let mut pt = PageTableRecord::new(1, &mut a, &mut mem);
    let vpn = VirtPageNum((1 << 18) | (2 << 9) | 3);
    pt.map(&mut mem, &mut a, vpn, InnerPhysPageNum(0x90000), rw());
    // two directory frames were created
    assert_eq!(a.free_count(), 5);
    let e = pt.translate(&mem, vpn).unwrap();
    // requested flags plus valid, accessed and dirty
    assert_eq!(e.bits, (0x90000u64 << 10) | 0xc7);
    assert_eq!(e.ppn(), InnerPhysPageNum(0x90000));
    let pa = pt.translate_va(&mem, VirtAddr(vpn.0 * 4096 + 0x678)).unwrap();
    assert_eq!(pa, InnerPhysAddr(0x90000 * 4096 + 0x678));
    // a neighbour page is not mapped, and needs no new directory
    assert!(pt.translate(&mem, VirtPageNum(vpn.0 + 1)).is_none());
    pt.map(&mut mem, &mut a, VirtPageNum(vpn.0 + 1), InnerPhysPageNum(0x90001), rw());
    assert_eq!(a.free_count(), 5);
    assert_eq!(pt.translate(&mem, vpn).unwrap().bits, (0x90000u64 << 10) | 0xc7);
}

#[test]
fn remapping_keeps_the_frame_and_replaces_the_flags() {
    let (mut mem, mut a) = setup(8);
    let mut pt = PageTableRecord::new(1, &mut a, &mut mem);
    let vpn = VirtPageNum(0x42);
    pt.map(&mut mem, &mut a, vpn, InnerPhysPageNum(0x90000), rw());
    pt.map(&mut mem, &mut a, vpn, InnerPhysPageNum(0x91111), PTEFlags::from_bits(PTE_R | PTE_X).unwrap());
    assert_eq!(pt.translate(&mem, vpn).unwrap().bits, (0x90000u64 << 10) | 0xcb);
}

#[test]
fn unmap_clears_the_leaf() {
    let (mut mem, mut a) = setup(8);
    let mut pt = PageTableRecord::new(1, &mut a, &mut mem);
    let vpn = VirtPageNum(0x1234);
    pt.map(&mut mem, &mut a, vpn, InnerPhysPageNum(0x90000), rw());
    pt.unmap(&mut mem, &mut a, vpn);
    assert!(pt.translate(&mem, vpn).is_none());
    assert!(pt.translate_va(&mem, VirtAddr(vpn.0 * 4096)).is_none());
}

#[test]
fn find_pte_level_walks_partway() {
    let (mut mem, mut a) = setup(8);
    let mut pt = PageTableRecord::new(1, &mut a, &mut mem);
    let vpn = VirtPageNum((5 << 18) | (6 << 9) | 7);
    pt.map(&mut mem, &mut a, vpn, InnerPhysPageNum(0x90000), rw());
    // the root entry points at the first created directory, valid only
    let l1 = pt.find_pte_level(&mem, vpn, 1).unwrap();
    assert_eq!(l1.ppn(), InnerPhysPageNum(BASE + 1));
    assert_eq!(l1.bits & 0x3ff, 0x1);
    let l2 = pt.find_pte_level(&mem, vpn, 2).unwrap();
    assert_eq!(l2.ppn(), InnerPhysPageNum(BASE + 2));
    let l3 = pt.find_pte_level(&mem, vpn, 3).unwrap();
    assert_eq!(l3.bits, (0x90000u64 << 10) | 0xc7);
    assert!(pt.find_pte_level(&mem, VirtPageNum(0), 1).is_none());
}

#[test]
fn cow_bits_and_flags() {
    let (mut mem, mut a) = setup(8);
    let mut pt = PageTableRecord::new(1, &mut a, &mut mem);
    let vpn = VirtPageNum(0x77);
    pt.map(&mut mem, &mut a, vpn, InnerPhysPageNum(0x90000), rw());
    pt.set_cow(&mut mem, &mut a, vpn);
    assert!(pt.translate(&mem, vpn).unwrap().is_cow());
    pt.reset_cow(&mut mem, &mut a, vpn);
    assert!(!pt.translate(&mem, vpn).unwrap().is_cow());
    pt.set_flags(&mut mem, &mut a, vpn, PTEFlags::from_bits(0x3).unwrap());
    assert_eq!(pt.translate(&mem, vpn).unwrap().bits, (0x90000u64 << 10) | 0x3);
    assert_eq!(pt.set_pte_flags(&mut mem, vpn, 0xc), 0);
    assert_eq!(pt.translate(&mem, vpn).unwrap().bits, (0x90000u64 << 10) | 0xd);
    // no leaf slot for a page in an untouched region
    assert_eq!(pt.set_pte_flags(&mut mem, VirtPageNum(1 << 18), 0xe), -1);
}

#[test]
fn remap_cow_gives_a_writable_private_copy() {
    let (mut mem, mut a) = setup(8);
    let mut pt = PageTableRecord::new(1, &mut a, &mut mem);
    let vpn = VirtPageNum(0x55);
    pt.map(&mut mem, &mut a, vpn, InnerPhysPageNum(0x90000), PTEFlags::from_bits(PTE_R).unwrap());
    pt.set_cow(&mut mem, &mut a, vpn);
    pt.remap_cow(&mut mem, &mut a, vpn, InnerPhysPageNum(0x90005));
    let e = pt.translate(&mem, vpn).unwrap();
    assert_eq!(e.ppn(), InnerPhysPageNum(0x90005));
    assert!(!e.is_cow());
    assert!(e.writable());
    assert!(e.readable());
}

#[test]
fn destroy_releases_the_directories() {
    let (mut mem, mut a) = setup(8);
    let mut pt = PageTableRecord::new(1, &mut a, &mut mem);
    pt.map(&mut mem, &mut a, VirtPageNum(0x10), InnerPhysPageNum(0x90000), rw());
    pt.map(&mut mem, &mut a, VirtPageNum(1 << 18), InnerPhysPageNum(0x90001), rw());
    assert_eq!(a.free_count(), 3);
    pt.destroy(&mut a);
    // the four directories go back; the root stays
    assert_eq!(a.free_count(), 7);
}

#[test]
fn identical_area_maps_pages_to_themselves() {
    let (mut mem, mut a) = setup(16);
    let mut pt = PageTableRecord::new(1, &mut a, &mut mem);
    let perm = MapPermission::from_bits(0x6).unwrap();
    let mut area = MapArea::new(VirtAddr(0x1000), VirtAddr(0x3001), MapType::Identical, perm);
    assert_eq!(area.start_vpn(), VirtPageNum(1));
    assert_eq!(area.end_vpn(), VirtPageNum(4));
    area.map(&mut pt, &mut mem, &mut a);
    for v in 1..4usize {
        let e = pt.translate(&mem, VirtPageNum(v)).unwrap();
        assert_eq!(e.bits, ((v as u64) << 10) | 0xc7);
    }
    assert!(pt.translate(&mem, VirtPageNum(0)).is_none());
    assert!(pt.translate(&mem, VirtPageNum(4)).is_none());
    assert!(area.frame(VirtPageNum(1)).is_none());
}

#[test]
fn specified_area_maps_every_page_to_one_frame() {
    let (mut mem, mut a) = setup(16);
    let mut pt = PageTableRecord::new(1, &mut a, &mut mem);
    let perm = MapPermission::from_bits(0x2).unwrap();
    let mut area = MapArea::new(VirtAddr(0x5000), VirtAddr(0x7000), MapType::Specified(PhysPageNum(0x90000)), perm);
    area.map(&mut pt, &mut mem, &mut a);
    assert_eq!(pt.translate(&mem, VirtPageNum(5)).unwrap().ppn(), InnerPhysPageNum(0x90000));
    assert_eq!(pt.translate(&mem, VirtPageNum(6)).unwrap().ppn(), InnerPhysPageNum(0x90000));
}

#[test]
fn framed_area_takes_fresh_frames() {
    let (mut mem, mut a) = setup(16);
    let mut pt = PageTableRecord::new(1, &mut a, &mut mem);
    let perm = MapPermission::from_bits(0x16).unwrap();
    let mut area = MapArea::new(VirtAddr(0x10_0000), VirtAddr(0x10_2000), MapType::Framed, perm);
    area.map_one(&mut pt, &mut mem, &mut a, VirtPageNum(0x100));
    // the data frame is taken first, then the two directories
    assert_eq!(area.frame(VirtPageNum(0x100)), Some(InnerPhysPageNum(BASE + 1)));
    let e = pt.translate(&mem, VirtPageNum(0x100)).unwrap();
    assert_eq!(e.bits, (((BASE + 1) as u64) << 10) | 0xd7);
    area.map_one(&mut pt, &mut mem, &mut a, VirtPageNum(0x101));
    assert_eq!(area.frame(VirtPageNum(0x101)), Some(InnerPhysPageNum(BASE + 4)));
    assert_eq!(a.free_count(), 11);
}

#[test]
fn inverted_area_maps_nothing() {
    let (mut mem, mut a) = setup(8);
    let mut pt = PageTableRecord::new(1, &mut a, &mut mem);
    let perm = MapPermission::from_bits(0x6).unwrap();
    let mut area = MapArea::new(VirtAddr(0x9000), VirtAddr(0x2000), MapType::Identical, perm);
    area.map(&mut pt, &mut mem, &mut a);
    assert_eq!(a.free_count(), 7);
    assert!(pt.translate(&mem, VirtPageNum(5)).is_none());
}

fn layout() -> KernelLayout {
    KernelLayout {
        stext: 0x8020_0000,
        etext: 0x8020_2000,
        srodata: 0x8020_2000,
        erodata: 0x8020_3000,
        sdata: 0x8020_3000,
        edata: 0x8020_3800,
        sbss_with_stack: 0x8020_4000,
        ebss: 0x8020_5000,
        sproxy: 0x8020_5000,
        eproxy: 0x8020_6000,
        ekernel: 0x8020_6000,
        strampoline: 0x8020_1000,
        snktrampoline: 0x8020_1000,
        trampoline: 0xffff_ffff_ffff_e000,
        nk_trampoline: 0xffff_ffff_ffff_f000,
        proxy_context: 0xffff_ffff_ffff_d000,
        nkspace_end: 0x8020_8000,
        okspace_end: 0x8020_a000,
        mmio: vec![(0x1000_0000, 0x1000)],
    }
}

#[test]
fn kernel_space_layout() {
    let (mut mem, mut a) = setup(64);
    let l = layout();
    let ms = MemorySet::new_kernel(&l, &mut a, &mut mem);
    let pt = ms.page_table();
    assert_eq!(pt.id(), 0xffff);
    assert_eq!(ms.token(), (8u64 << 60) | (0xffffu64 << 44) | BASE as u64);
    assert_eq!(ms.area_count(), 8);
    // text is readable, writable and executable, identical
    let e = pt.translate(&mem, VirtPageNum(0x80200)).unwrap();
    assert_eq!(e.bits, (0x80200u64 << 10) | 0xcf);
    // data is read-write; the page shared with bss start is mapped once
    let e = pt.translate(&mem, VirtPageNum(0x80203)).unwrap();
    assert_eq!(e.bits, (0x80203u64 << 10) | 0xc7);
    // outer kernel space and device registers
    assert_eq!(pt.translate(&mem, VirtPageNum(0x80209)).unwrap().ppn(), InnerPhysPageNum(0x80209));
    assert_eq!(pt.translate(&mem, VirtPageNum(0x10000)).unwrap().ppn(), InnerPhysPageNum(0x10000));
    assert!(pt.translate(&mem, VirtPageNum(0x8020a)).is_none());
    // trampolines
    let t = pt.translate(&mem, VirtAddr(l.trampoline).floor()).unwrap();
    assert_eq!(t.bits, (0x80201u64 << 10) | 0xcf);
    let n = pt.translate(&mem, VirtAddr(l.nk_trampoline).floor()).unwrap();
    assert_eq!(n.bits, (0x80201u64 << 10) | 0xcb);
    let p = pt.translate(&mem, VirtAddr(l.proxy_context).floor()).unwrap();
    assert_eq!(p.bits, (0x80205u64 << 10) | 0xc7);
}

#[test]
fn trace_address_reports_the_frame() {
    let (mut mem, mut a) = setup(8);
    let mut pt = PageTableRecord::new(1, &mut a, &mut mem);
    pt.map(&mut mem, &mut a, VirtPageNum(0x321), InnerPhysPageNum(0x90007), rw());
    assert_eq!(pt.trace_address(&mem, VirtAddr(0x321_abc)), Some(InnerPhysPageNum(0x90007)));
    assert_eq!(pt.trace_address(&mem, VirtAddr(0x322_000)), None);
}

#[test]
fn identical_mapping_translates_an_address_to_itself() {
    let (mut mem, mut a) = setup(8);
    let mut pt = PageTableRecord::new(1, &mut a, &mut mem);
    let va = VirtAddr(0x1000_0000_0336);
    let vpn = va.floor();
    assert!(pt.translate_va(&mem, va).is_none());
    pt.map(&mut mem, &mut a, vpn, InnerPhysPageNum(vpn.0), rw());
    assert_eq!(pt.translate_va(&mem, va), Some(InnerPhysAddr(0x1000_0000_0336)));
    let vb = VirtAddr(0x2000_5336);
    pt.map(&mut mem, &mut a, vb.floor(), InnerPhysPageNum(0x90000), rw());
    assert_eq!(pt.translate_va(&mem, vb), Some(InnerPhysAddr(0x90000 * 4096 + 0x336)));
}

#[test]
fn large_identical_area_needs_only_its_directories() {
    // 1024 pages span two 2 MiB regions of one 1 GiB region: three directories suffice
    let (mut mem, mut a) = setup(4);
    let mut pt = PageTableRecord::new(1, &mut a, &mut mem);
    let perm = MapPermission::from_bits(0x6).unwrap();
    let mut area = MapArea::new(VirtAddr(0x8000_0000), VirtAddr(0x8040_0000), MapType::Identical, perm);
    area.map(&mut pt, &mut mem, &mut a);
    assert_eq!(a.free_count(), 0);
    assert_eq!(pt.translate(&mem, VirtPageNum(0x80000)).unwrap().ppn(), InnerPhysPageNum(0x80000));
    assert_eq!(pt.translate(&mem, VirtPageNum(0x803ff)).unwrap().ppn(), InnerPhysPageNum(0x803ff));
}

#[test]
fn kernel_regions_are_shared() {
    let (mut mem, mut a) = setup(16);
    let mut kernel = PageTableRecord::new(0xffff, &mut a, &mut mem);
    let mut user = PageTableRecord::new(2, &mut a, &mut mem);
    let nk_end = 0x8300_0000usize;
    let tramp = 0xffff_ffff_ffff_e000usize;
    kernel.map(&mut mem, &mut a, VirtAddr(nk_end).floor(), InnerPhysPageNum(0x83000), rw());
    kernel.map(&mut mem, &mut a, VirtAddr(tramp).floor(), InnerPhysPageNum(0x80201), rw());
    user.map(&mut mem, &mut a, VirtPageNum(0x10), InnerPhysPageNum(0x90000), rw());
    assert!(user.translate(&mem, VirtAddr(nk_end).floor()).is_none());
    user.map_kernel_shared(&mut mem, &kernel, nk_end, tramp);
    assert_eq!(user.translate(&mem, VirtAddr(nk_end).floor()).unwrap().ppn(), InnerPhysPageNum(0x83000));
    assert_eq!(user.translate(&mem, VirtAddr(tramp).floor()).unwrap().ppn(), InnerPhysPageNum(0x80201));
    assert_eq!(user.translate(&mem, VirtPageNum(0x10)).unwrap().ppn(), InnerPhysPageNum(0x90000));
    assert!(kernel.translate(&mem, VirtPageNum(0x10)).is_none());
}
