use breakcore::error::KernelError;
use breakcore::mm::addr::{PhysAddr, PhysPageNum, PAGE_SIZE};
use breakcore::mm::frame::LinkedStackFrameAllocator;
use breakcore::mm::memory::PhysMemory;
use breakcore::mm::vmo::{VMObject, VMObjectPaged, VMObjectPhysical, Vmo};

fn machine(frames: u64) -> (PhysMemory, LinkedStackFrameAllocator) {
    let mem = PhysMemory::new(PhysPageNum(0x80000), 64).unwrap();
    let alloc = LinkedStackFrameAllocator::new(PhysPageNum(0x80010), PhysPageNum(0x80010 + frames));
    (mem, alloc)
}

fn pattern(len: usize) -> Vec<u8> {
    (0..len).map(|i| (i * 7 + 3) as u8).collect()
}

#[test]
fn physical_object_covers_the_pages_of_the_range() {
    let v = VMObjectPhysical::from_range(PhysAddr(0x8000_1800), PhysAddr(0x8000_3001));
    assert_eq!(v.page_count(), 3);
    assert_eq!(v.get_page(0), Some(PhysPageNum(0x80001)));
    assert_eq!(v.get_page(2), Some(PhysPageNum(0x80003)));
    assert_eq!(v.get_page(3), None);
}

#[test]
fn physical_object_of_an_empty_range_has_no_page() {
    let v = VMObjectPhysical::from_range(PhysAddr(0x8000_2000), PhysAddr(0x8000_2000));
    assert_eq!(v.page_count(), 0);
    assert_eq!(v.get_page(0), None);
}

#[test]
fn physical_object_reads_and_writes_memory_in_place() {
    let (mut mem, _) = machine(0);
    let v = VMObjectPhysical::from_range(PhysAddr(0x8000_2000), PhysAddr(0x8000_4000));
    let data = pattern(100);
    assert_eq!(v.write(&mut mem, 4090, &data), 100);
    assert_eq!(mem.read_byte(PhysPageNum(0x80002), 4090), data[0]);
    assert_eq!(mem.read_byte(PhysPageNum(0x80003), 0), data[6]);
    let mut out = vec![0u8; 100];
    assert_eq!(v.read(&mem, 4090, &mut out), 100);
    assert_eq!(out, data);
    let twin = v.duplicate();
    let mut again = vec![0u8; 100];
    assert_eq!(twin.read(&mem, 4090, &mut again), 100);
    assert_eq!(again, data);
}

#[test]
fn paged_object_starts_zeroed_in_frames_of_its_own() {
    let (mut mem, mut alloc) = machine(8);
    mem.write_word(PhysPageNum(0x80011), 1, 99);
    let v = VMObjectPaged::new(3, &mut mem, &mut alloc).unwrap();
    assert_eq!(v.page_count(), 3);
    assert_eq!(v.get_page(0), Some(PhysPageNum(0x80010)));
    assert_eq!(v.get_page(1), Some(PhysPageNum(0x80011)));
    assert_eq!(v.get_page(2), Some(PhysPageNum(0x80012)));
    assert_eq!(v.get_page(3), None);
    let mut out = vec![1u8; 3 * PAGE_SIZE];
    assert_eq!(v.read(&mem, 0, &mut out), 3 * PAGE_SIZE);
    assert!(out.iter().all(|b| *b == 0));
}

#[test]
fn paged_round_trip() {
    let (mut mem, mut alloc) = machine(8);
    for len in [0usize, 1, 4095, 4096, 4097, 3 * 4096] {
        let v = VMObjectPaged::new(breakcore::mm::addr::page_count(len), &mut mem, &mut alloc).unwrap();
        let buf = pattern(len);
        assert_eq!(v.write(&mut mem, 0, &buf), len);
        let mut out = vec![0u8; len];
        assert_eq!(v.read(&mem, 0, &mut out), len);
        assert_eq!(out, buf);
        v.release(&mut mem, &mut alloc);
    }
}

#[test]
fn paged_object_reads_and_writes_across_frames_at_any_offset() {
    let (mut mem, mut alloc) = machine(8);
    let v = VMObjectPaged::new(3, &mut mem, &mut alloc).unwrap();
    let data = pattern(5000);
    assert_eq!(v.write(&mut mem, 3000, &data), 5000);
    let mut out = vec![0u8; 5000];
    assert_eq!(v.read(&mem, 3000, &mut out), 5000);
    assert_eq!(out, data);
    assert_eq!(mem.read_byte(PhysPageNum(0x80010), 3000), data[0]);
    assert_eq!(mem.read_byte(PhysPageNum(0x80011), 0), data[1096]);
    assert_eq!(mem.read_byte(PhysPageNum(0x80011), 3904 - 1), data[4999]);
    assert_eq!(mem.read_byte(PhysPageNum(0x80011), 3904), 0);
}

#[test]
fn transfers_stop_at_the_end_of_the_object() {
    let (mut mem, mut alloc) = machine(8);
    let v = VMObjectPaged::new(2, &mut mem, &mut alloc).unwrap();
    let data = pattern(100);
    assert_eq!(v.write(&mut mem, 2 * PAGE_SIZE - 10, &data), 10);
    let mut out = vec![0xffu8; 100];
    assert_eq!(v.read(&mem, 2 * PAGE_SIZE - 10, &mut out), 10);
    assert_eq!(&out[..10], &data[..10]);
    assert!(out[10..].iter().all(|b| *b == 0xff));
    assert_eq!(v.read(&mem, 2 * PAGE_SIZE, &mut out), 0);
    assert_eq!(v.write(&mut mem, 2 * PAGE_SIZE, &data), 0);
    assert_eq!(v.read(&mem, 2 * PAGE_SIZE + 1, &mut out), 0);
    assert_eq!(v.write(&mut mem, 2 * PAGE_SIZE + 1, &data), 0);
}

#[test]
fn paged_object_fails_without_frames_and_keeps_none() {
    let (mut mem, mut alloc) = machine(2);
    let r = VMObjectPaged::new(3, &mut mem, &mut alloc);
    assert!(matches!(r, Err(KernelError::OutOfFrames)));
    assert!(!alloc.check_allocated(&mem, PhysPageNum(0x80010)));
    assert!(!alloc.check_allocated(&mem, PhysPageNum(0x80011)));
    let v = VMObjectPaged::new(2, &mut mem, &mut alloc).unwrap();
    assert_eq!(v.page_count(), 2);
}

#[test]
fn release_gives_the_frames_back() {
    let (mut mem, mut alloc) = machine(4);
    let v = VMObjectPaged::new(4, &mut mem, &mut alloc).unwrap();
    assert!(alloc.allocate(&mem).is_none());
    v.release(&mut mem, &mut alloc);
    for p in 0x80010..0x80014u64 {
        assert!(!alloc.check_allocated(&mem, PhysPageNum(p)));
    }
    assert!(alloc.allocate(&mem).is_some());
}

#[test]
fn either_kind_of_object_behaves_as_its_kind() {
    let (mut mem, mut alloc) = machine(4);
    let a = Vmo::Physical(VMObjectPhysical::from_range(PhysAddr(0x8000_1000), PhysAddr(0x8000_2000)));
    let b = Vmo::Paged(VMObjectPaged::new(2, &mut mem, &mut alloc).unwrap());
    assert!(!a.paged());
    assert!(b.paged());
    assert_eq!(a.page_count(), 1);
    assert_eq!(b.page_count(), 2);
    assert_eq!(a.get_page(0), Some(PhysPageNum(0x80001)));
    assert_eq!(b.get_page(1), Some(PhysPageNum(0x80011)));
    a.release(&mut mem, &mut alloc);
    assert!(alloc.check_allocated(&mem, PhysPageNum(0x80010)));
    b.release(&mut mem, &mut alloc);
    assert!(!alloc.check_allocated(&mem, PhysPageNum(0x80010)));
}
