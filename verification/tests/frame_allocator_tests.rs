use mmk::address::InnerPhysPageNum;
use mmk::frame_allocator::{frame_alloc, frame_dealloc, outer_frame_alloc, StackFrameAllocator};
use mmk::phys_mem::PhysMem;
use mmk::pte::PageTableEntry;

fn allocator(l: usize, r: usize) -> StackFrameAllocator {
    let mut a = StackFrameAllocator::new();
    a.init(InnerPhysPageNum(l), InnerPhysPageNum(r));
    a
}

#[test]
fn fresh_frames_in_order_then_exhausted() {
    let mut a = allocator(10, 13);
    assert_eq!(a.free_count(), 3);
    assert_eq!(a.alloc_frame(1), Some(InnerPhysPageNum(10)));
    assert_eq!(a.alloc_frame(1), Some(InnerPhysPageNum(11)));
    assert_eq!(a.alloc_frame(2), Some(InnerPhysPageNum(12)));
    assert_eq!(a.free_count(), 0);
    assert_eq!(a.alloc_frame(1), None);
}

#[test]
fn empty_allocator_has_nothing() {
    let mut a = StackFrameAllocator::new();
    assert_eq!(a.free_count(), 0);
    assert_eq!(a.alloc_frame(0), None);
}

#[test]
fn recycled_frames_come_first_last_in_first_out() {
    let mut a = allocator(100, 200);
    a.add_free(InnerPhysPageNum(5));
    a.add_free(InnerPhysPageNum(6));
    assert_eq!(a.free_count(), 102);
    assert_eq!(a.alloc_frame(1), Some(InnerPhysPageNum(6)));
    assert_eq!(a.alloc_frame(1), Some(InnerPhysPageNum(5)));
    assert_eq!(a.alloc_frame(1), Some(InnerPhysPageNum(100)));
}

#[test]
fn dealloc_then_alloc_gives_the_same_frame() {
    let mut a = allocator(10, 20);
    let p = a.alloc_frame(3).unwrap();
    let before = a.free_count();
    a.dealloc(p, 3);
    assert_eq!(a.free_count(), before + 1);
    assert_eq!(a.alloc_frame(4), Some(p));
    assert_eq!(a.enquire_ref(p), vec![4]);
}

#[test]
fn dealloc_by_another_user_keeps_the_frame() {
    let mut a = allocator(10, 20);
    let p = a.alloc_frame(3).unwrap();
    a.dealloc(p, 7);
    assert_eq!(a.enquire_ref(p), vec![3]);
    assert_eq!(a.free_count(), 9);
}

#[test]
fn dealloc_of_unknown_frame_does_nothing() {
    let mut a = allocator(10, 20);
    a.dealloc(InnerPhysPageNum(15), 1);
    assert_eq!(a.free_count(), 10);
    assert_eq!(a.enquire_ref(InnerPhysPageNum(15)), Vec::<u8>::new());
}

#[test]
fn add_ref_appends_an_owner() {
    let mut a = allocator(10, 20);
    let p = a.alloc_frame(1).unwrap();
    a.add_ref(p, 2);
    assert_eq!(a.enquire_ref(p), vec![1, 2]);
    a.dealloc(p, 1);
    assert_eq!(a.enquire_ref(p), vec![2]);
    a.dealloc(p, 2);
    assert_eq!(a.enquire_ref(p), Vec::<u8>::new());
    assert_eq!(a.free_count(), 10);
}

#[test]
fn fork_marks_the_frame_shared() {
    let mut a = allocator(10, 20);
    let p = a.alloc_frame(1).unwrap();
    a.fork(p, 1, 2);
    // the first owner shares: a leading 0 marks the frame as shared
    let owners = a.enquire_ref(p);
    assert_eq!(owners, vec![0, 1, 2]);
    a.fork(p, 5, 3);
    assert_eq!(a.enquire_ref(p), vec![0, 1, 2, 3]);
    a.dealloc(p, 1);
    a.dealloc(p, 3);
    // [0, 2] collapses to [2]
    assert_eq!(a.enquire_ref(p), vec![2]);
}

#[test]
fn only_the_owner_can_fork() {
    let mut a = allocator(10, 20);
    let p = a.alloc_frame(1).unwrap();
    a.fork(p, 9, 2);
    assert_eq!(a.enquire_ref(p), vec![1]);
}

#[test]
fn frame_alloc_zeroes_the_frame() {
    let mut mem = PhysMem::new(InnerPhysPageNum(0x100), 4);
    mem.write_entry(InnerPhysPageNum(0x100), 3, PageTableEntry::from_bits(0x1234));
    let mut a = allocator(0x100, 0x104);
    let p = frame_alloc(&mut a, &mut mem).unwrap();
    assert_eq!(p, InnerPhysPageNum(0x100));
    assert_eq!(mem.read_entry(p, 3).bits, 0);
    assert_eq!(a.enquire_ref(p), vec![0]);
    frame_dealloc(&mut a, p);
    assert_eq!(a.free_count(), 4);
}

#[test]
fn frame_alloc_when_exhausted() {
    let mut mem = PhysMem::new(InnerPhysPageNum(0x100), 1);
    let mut a = allocator(0x100, 0x100);
    assert_eq!(frame_alloc(&mut a, &mut mem), None);
}

#[test]
fn phys_mem_geometry() {
    let mut mem = PhysMem::new(InnerPhysPageNum(0x200), 3);
    assert_eq!(mem.base(), InnerPhysPageNum(0x200));
    assert_eq!(mem.frame_count(), 3);
    assert_eq!(mem.read_entry(InnerPhysPageNum(0x202), 511).bits, 0);
    mem.write_entry(InnerPhysPageNum(0x202), 511, PageTableEntry::from_bits(0x7));
    assert_eq!(mem.read_entry(InnerPhysPageNum(0x202), 511).bits, 0x7);
    mem.zero_frame(InnerPhysPageNum(0x202));
    assert_eq!(mem.read_entry(InnerPhysPageNum(0x202), 511).bits, 0);
}

#[test]
fn outer_allocator_takes_its_range_on_first_use() {
    let mut mem = PhysMem::new(InnerPhysPageNum(0x300), 4);
    let mut a = StackFrameAllocator::new();
    // [0x300800, 0x304000) holds the whole pages 0x301 to 0x303
    let p = outer_frame_alloc(&mut a, &mut mem, 5, 0x30_0800, 0x30_4000);
    assert_eq!(p, Some(InnerPhysPageNum(0x301)));
    assert_eq!(a.enquire_ref(InnerPhysPageNum(0x301)), vec![5]);
    assert_eq!(a.free_count(), 2);
    // the range is taken once: later calls ignore the arguments
    let q = outer_frame_alloc(&mut a, &mut mem, 6, 0x40_0000, 0x50_0000);
    assert_eq!(q, Some(InnerPhysPageNum(0x302)));
    assert_eq!(outer_frame_alloc(&mut a, &mut mem, 6, 0, 0), Some(InnerPhysPageNum(0x303)));
    assert_eq!(outer_frame_alloc(&mut a, &mut mem, 6, 0, 0), None);
}

#[test]
fn frames_in_use() {
    let mut a = allocator(10, 20);
    let p = a.alloc_frame(1).unwrap();
    assert!(a.in_use(p));
    assert!(!a.in_use(InnerPhysPageNum(11)));
    a.dealloc(p, 1);
    assert!(!a.in_use(p));
}

#[test]
fn outer_take_sets_the_range_once() {
    let mut a = StackFrameAllocator::new();
    assert_eq!(a.fresh_start().0, 0);
    let p = mmk::frame_allocator::outer_frame_take(&mut a, 3, 0x8800_0001, 0x8800_4000).unwrap();
    assert_eq!(p.0, 0x88001);
    assert_eq!(a.fresh_start().0, 0x88002);
    assert_eq!(a.enquire_ref(p), vec![3]);
    let q = mmk::frame_allocator::outer_frame_take(&mut a, 4, 0x9000_0000, 0x9000_8000).unwrap();
    assert_eq!(q.0, 0x88002);
    assert_eq!(mmk::frame_allocator::outer_frame_take(&mut a, 4, 0, 0).unwrap().0, 0x88003);
    assert!(mmk::frame_allocator::outer_frame_take(&mut a, 4, 0, 0).is_none());
}
