use breakcore::mm::addr::PhysPageNum;
use breakcore::mm::frame::{Frame, LinkedStackFrameAllocator};
use breakcore::mm::memory::PhysMemory;

fn machine() -> (PhysMemory, LinkedStackFrameAllocator) {
    let mem = PhysMemory::new(PhysPageNum(0x80000), 64).unwrap();
    let alloc = LinkedStackFrameAllocator::new(PhysPageNum(0x80010), PhysPageNum(0x80040));
    (mem, alloc)
}

#[test]
fn frame_allocator_test() {
    let (mut mem, mut alloc) = machine();
    let pn1 = alloc.allocate(&mem).unwrap();
    let pn2 = alloc.allocate(&mem).unwrap();
    let pn3 = alloc.allocate(&mem).unwrap();
    let pn3p1 = PhysPageNum(pn3.0 + 1);
    assert!(alloc.check_allocated(&mem, pn1));
    assert!(alloc.check_allocated(&mem, pn2));
    assert!(alloc.check_allocated(&mem, pn3));
    assert!(!alloc.check_allocated(&mem, pn3p1));
    assert_eq!(pn2.0, pn1.0 + 1);
    assert_eq!(pn3.0, pn2.0 + 1);
    alloc.dealloc(&mut mem, pn1);
    alloc.dealloc(&mut mem, pn3);
    assert!(!alloc.check_allocated(&mem, pn1));
    assert!(alloc.check_allocated(&mem, pn2));
    assert!(!alloc.check_allocated(&mem, pn3));
    assert!(!alloc.check_allocated(&mem, pn3p1));
    let pn3re = alloc.allocate(&mem).unwrap();
    let pn1re = alloc.allocate(&mem).unwrap();
    assert_eq!(pn3re, pn3);
    assert_eq!(pn1re, pn1);
    assert!(alloc.check_allocated(&mem, pn1));
    assert!(alloc.check_allocated(&mem, pn2));
    assert!(alloc.check_allocated(&mem, pn3));
    assert!(!alloc.check_allocated(&mem, pn3p1));
    alloc.dealloc(&mut mem, pn2);
    alloc.dealloc(&mut mem, pn3);
    alloc.dealloc(&mut mem, pn1);
    assert!(!alloc.check_allocated(&mem, pn1));
    assert!(!alloc.check_allocated(&mem, pn2));
    assert!(!alloc.check_allocated(&mem, pn3));
    assert!(!alloc.check_allocated(&mem, pn3p1));
    let pn1re2 = alloc.allocate(&mem).unwrap();
    assert_eq!(pn1re2, pn1);
    assert!(alloc.check_allocated(&mem, pn1));
    assert!(!alloc.check_allocated(&mem, pn2));
    assert!(!alloc.check_allocated(&mem, pn3));
    assert!(!alloc.check_allocated(&mem, pn3p1));
    alloc.dealloc(&mut mem, pn1);
    assert!(!alloc.check_allocated(&mem, pn1));
}

#[test]
fn frames_come_from_the_range_in_order() {
    let (mem, mut alloc) = machine();
    for i in 0..0x30u64 {
        assert_eq!(alloc.allocate(&mem), Some(PhysPageNum(0x80010 + i)));
    }
    assert_eq!(alloc.allocate(&mem), None);
    assert_eq!(alloc.allocate(&mem), None);
}

#[test]
fn a_freed_frame_is_the_next_frame() {
    let (mut mem, mut alloc) = machine();
    let a = alloc.allocate(&mem).unwrap();
    let b = alloc.allocate(&mem).unwrap();
    alloc.dealloc(&mut mem, a);
    assert_eq!(alloc.allocate(&mem), Some(a));
    alloc.dealloc(&mut mem, b);
    alloc.dealloc(&mut mem, a);
    assert_eq!(alloc.allocate(&mem), Some(a));
    assert_eq!(alloc.allocate(&mem), Some(b));
}

#[test]
fn the_link_lies_in_the_first_word_of_the_freed_frame() {
    let (mut mem, mut alloc) = machine();
    let a = alloc.allocate(&mem).unwrap();
    let b = alloc.allocate(&mem).unwrap();
    mem.write_word(a, 0, 0x1234);
    alloc.dealloc(&mut mem, a);
    assert_eq!(mem.read_word(a, 0), u64::MAX);
    alloc.dealloc(&mut mem, b);
    assert_eq!(mem.read_word(b, 0), a.0);
}

#[test]
fn an_empty_range_has_no_frame() {
    let mem = PhysMemory::new(PhysPageNum(0x80000), 4).unwrap();
    let mut alloc = LinkedStackFrameAllocator::new(PhysPageNum(0x80002), PhysPageNum(0x80002));
    assert_eq!(alloc.allocate(&mem), None);
}

#[test]
fn zeroed_frames_are_zero() {
    let (mut mem, mut alloc) = machine();
    mem.write_word(PhysPageNum(0x80010), 5, 77);
    let f = Frame::alloc_zeroes(&mut alloc, &mut mem).unwrap();
    assert_eq!(f.ppn(), PhysPageNum(0x80010));
    assert_eq!(mem.read_word(f.ppn(), 5), 0);
    let g = Frame::alloc_uninitialized(&mut alloc, &mem).unwrap();
    assert_eq!(g.ppn(), PhysPageNum(0x80011));
    let gp = g.ppn();
    g.release(&mut alloc, &mut mem);
    assert!(!alloc.check_allocated(&mem, gp));
    Frame::manually_drop(f.into_ppn(), &mut alloc, &mut mem);
    assert!(!alloc.check_allocated(&mem, PhysPageNum(0x80010)));
}

#[test]
fn init_rounds_the_range_to_pages() {
    let mem = PhysMemory::new(PhysPageNum(0x80000), 64).unwrap();
    let mut alloc = breakcore::mm::frame::init(0x8001_0800, 0x8001_2001);
    assert_eq!(alloc.allocate(&mem), Some(PhysPageNum(0x80010)));
    assert_eq!(alloc.allocate(&mem), Some(PhysPageNum(0x80011)));
    assert_eq!(alloc.allocate(&mem), Some(PhysPageNum(0x80012)));
    assert_eq!(alloc.allocate(&mem), None);
}
