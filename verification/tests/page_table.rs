use breakcore::error::KernelError;
use breakcore::mm::addr::{PhysPageNum, VirtPageNum};
use breakcore::mm::frame::LinkedStackFrameAllocator;
use breakcore::mm::memory::PhysMemory;
use breakcore::mm::page_table::{PTEFlags, PageTable, PageTableEntry, PageTableRef};

fn machine(frames: u64) -> (PhysMemory, LinkedStackFrameAllocator) {
    let mem = PhysMemory::new(PhysPageNum(0x80000), 64).unwrap();
    let alloc = LinkedStackFrameAllocator::new(PhysPageNum(0x80010), PhysPageNum(0x80010 + frames));
    (mem, alloc)
}

fn flags(bits: u8) -> PTEFlags {
    PTEFlags::from_bits_truncate(bits)
}

#[test]
fn flag_constants_are_the_bits_of_the_entry() {
    assert_eq!(PTEFlags::V, 1);
    assert_eq!(PTEFlags::R, 2);
    assert_eq!(PTEFlags::W, 4);
    assert_eq!(PTEFlags::X, 8);
    assert_eq!(PTEFlags::U, 16);
    assert_eq!(PTEFlags::G, 32);
    assert_eq!(PTEFlags::A, 64);
    assert_eq!(PTEFlags::D, 128);
    assert_eq!(PTEFlags::RWX, PTEFlags::R | PTEFlags::W | PTEFlags::X);
}

#[test]
fn flags_behave_as_sets() {
    let mut f = PTEFlags::empty();
    assert!(f.is_empty());
    f.insert(flags(PTEFlags::R));
    f.insert(flags(PTEFlags::U));
    assert_eq!(f.bits(), 18);
    assert!(f.contains(flags(PTEFlags::R)));
    assert!(f.contains(flags(PTEFlags::R | PTEFlags::U)));
    assert!(!f.contains(flags(PTEFlags::W)));
    assert!(!f.contains(flags(PTEFlags::R | PTEFlags::W)));
    assert_eq!(f.union(flags(PTEFlags::W)).bits(), 22);
    assert_eq!(f.intersection(flags(PTEFlags::RWX)).bits(), 2);
    assert!(f.intersection(flags(PTEFlags::X)).is_empty());
}

#[test]
fn entry_holds_page_number_and_flags() {
    let e = PageTableEntry::new(PhysPageNum(0x80123), flags(PTEFlags::V | PTEFlags::R | PTEFlags::X));
    assert_eq!(e.bits, (0x80123 << 10) | 0b1011);
    assert_eq!(e.ppn(), PhysPageNum(0x80123));
    assert_eq!(e.flags().bits(), 0b1011);
    assert!(e.valid());
    assert!(e.readable());
    assert!(!e.writable());
    assert!(e.executable());
}

#[test]
fn empty_entry_is_not_valid() {
    let e = PageTableEntry::new_empty();
    assert_eq!(e.bits, 0);
    assert!(!e.valid());
    assert_eq!(e.ppn(), PhysPageNum(0));
}

#[test]
fn entry_reads_forty_four_bits_of_page_number() {
    let e = PageTableEntry { bits: u64::MAX };
    assert_eq!(e.ppn(), PhysPageNum(0xfff_ffff_ffff));
    assert_eq!(e.flags().bits(), 0xff);
}

#[test]
fn query_after_map_gives_the_entry() {
    let (mut mem, mut alloc) = machine(16);
    let mut pt = PageTable::new(&mut mem, &mut alloc).unwrap();
    let vpn = VirtPageNum(0x10000);
    assert!(pt.raw.query(&mem, vpn).is_none());
    let r = pt.raw.map(&mut mem, &mut alloc, vpn, PhysPageNum(0x80005), flags(PTEFlags::R | PTEFlags::W));
    assert_eq!(r, Ok(()));
    let e = pt.raw.query(&mem, vpn).unwrap();
    assert!(e.valid());
    assert_eq!(e.ppn(), PhysPageNum(0x80005));
    assert_eq!(e.flags().bits(), PTEFlags::R | PTEFlags::W | PTEFlags::V);
}

#[test]
fn query_after_unmap_gives_an_invalid_entry() {
    let (mut mem, mut alloc) = machine(16);
    let mut pt = PageTable::new(&mut mem, &mut alloc).unwrap();
    let vpn = VirtPageNum(0x10000);
    pt.raw.map(&mut mem, &mut alloc, vpn, PhysPageNum(0x80005), flags(PTEFlags::R)).unwrap();
    pt.raw.unmap(&mut mem, &mut alloc, vpn);
    let e = pt.raw.query(&mem, vpn).unwrap();
    assert!(!e.valid());
    assert_eq!(e.bits, 0);
}

#[test]
fn map_leaves_other_pages_alone() {
    let (mut mem, mut alloc) = machine(16);
    let mut pt = PageTable::new(&mut mem, &mut alloc).unwrap();
    pt.raw.map(&mut mem, &mut alloc, VirtPageNum(1), PhysPageNum(0x80001), flags(PTEFlags::R)).unwrap();
    pt.raw.map(&mut mem, &mut alloc, VirtPageNum(2), PhysPageNum(0x80002), flags(PTEFlags::W)).unwrap();
    pt.raw.map(&mut mem, &mut alloc, VirtPageNum(0x40000), PhysPageNum(0x80003), flags(PTEFlags::X)).unwrap();
    assert_eq!(pt.raw.query(&mem, VirtPageNum(1)).unwrap().ppn(), PhysPageNum(0x80001));
    assert_eq!(pt.raw.query(&mem, VirtPageNum(2)).unwrap().ppn(), PhysPageNum(0x80002));
    assert_eq!(pt.raw.query(&mem, VirtPageNum(0x40000)).unwrap().ppn(), PhysPageNum(0x80003));
    assert!(!pt.raw.query(&mem, VirtPageNum(3)).unwrap().valid());
    assert!(pt.raw.query(&mem, VirtPageNum(0x200)).is_none());
    pt.raw.unmap(&mut mem, &mut alloc, VirtPageNum(1));
    assert!(!pt.raw.query(&mem, VirtPageNum(1)).unwrap().valid());
    assert_eq!(pt.raw.query(&mem, VirtPageNum(2)).unwrap().ppn(), PhysPageNum(0x80002));
}

#[test]
fn map_takes_frames_for_missing_tables() {
    let (mut mem, mut alloc) = machine(16);
    let mut pt = PageTable::new(&mut mem, &mut alloc).unwrap();
    assert!(alloc.check_allocated(&mem, PhysPageNum(0x80010)));
    assert!(!alloc.check_allocated(&mem, PhysPageNum(0x80011)));
    pt.raw.map(&mut mem, &mut alloc, VirtPageNum(0), PhysPageNum(0x80001), flags(PTEFlags::R)).unwrap();
    assert!(alloc.check_allocated(&mem, PhysPageNum(0x80011)));
    assert!(alloc.check_allocated(&mem, PhysPageNum(0x80012)));
    assert!(!alloc.check_allocated(&mem, PhysPageNum(0x80013)));
    pt.raw.map(&mut mem, &mut alloc, VirtPageNum(1), PhysPageNum(0x80002), flags(PTEFlags::R)).unwrap();
    assert!(!alloc.check_allocated(&mem, PhysPageNum(0x80013)));
}

#[test]
fn map_without_frames_fails_and_changes_no_translation() {
    let (mut mem, mut alloc) = machine(2);
    let mut pt = PageTable::new(&mut mem, &mut alloc).unwrap();
    let r = pt.raw.map(&mut mem, &mut alloc, VirtPageNum(0), PhysPageNum(0x80001), flags(PTEFlags::R));
    assert_eq!(r, Err(KernelError::OutOfFrames));
    assert!(pt.raw.query(&mem, VirtPageNum(0)).map_or(true, |e| !e.valid()));
}

#[test]
fn find_pte_without_create_finds_only_what_is_there() {
    let (mut mem, mut alloc) = machine(16);
    let mut pt = PageTable::new(&mut mem, &mut alloc).unwrap();
    assert_eq!(pt.raw.find_pte(&mut mem, &mut alloc, VirtPageNum(7), false), None);
    let slot = pt.raw.find_pte(&mut mem, &mut alloc, VirtPageNum(7), true).unwrap();
    assert_eq!(slot.1, 7);
    assert_eq!(pt.raw.find_pte(&mut mem, &mut alloc, VirtPageNum(7), false), Some(slot));
    assert_eq!(pt.raw.find_pte(&mut mem, &mut alloc, VirtPageNum(8), false), Some((slot.0, 8)));
}

#[test]
fn token_names_the_root_in_sv39_mode() {
    let (mut mem, mut alloc) = machine(16);
    let pt = PageTable::new(&mut mem, &mut alloc).unwrap();
    assert_eq!(pt.raw.token(), (8u64 << 60) | 0x80010);
    let r = PageTableRef::from_token(pt.raw.token());
    assert_eq!(r.raw.token(), pt.raw.token());
}

#[test]
fn a_borrowed_table_answers_queries() {
    let (mut mem, mut alloc) = machine(16);
    let mut pt = PageTable::new(&mut mem, &mut alloc).unwrap();
    pt.raw.map(&mut mem, &mut alloc, VirtPageNum(9), PhysPageNum(0x80009), flags(PTEFlags::R)).unwrap();
    let r = PageTableRef::from_token(pt.raw.token());
    assert_eq!(r.raw.query(&mem, VirtPageNum(9)).unwrap().ppn(), PhysPageNum(0x80009));
    let stray = PageTableRef::from_token(0x1234);
    assert!(stray.raw.query(&mem, VirtPageNum(9)).is_none());
}

#[test]
fn destroy_gives_back_every_table_frame() {
    let (mut mem, mut alloc) = machine(16);
    let mut pt = PageTable::new(&mut mem, &mut alloc).unwrap();
    pt.raw.map(&mut mem, &mut alloc, VirtPageNum(0), PhysPageNum(0x80001), flags(PTEFlags::R)).unwrap();
    pt.raw.map(&mut mem, &mut alloc, VirtPageNum(0x200), PhysPageNum(0x80002), flags(PTEFlags::R)).unwrap();
    pt.raw.map(&mut mem, &mut alloc, VirtPageNum(0x40000), PhysPageNum(0x80003), flags(PTEFlags::R)).unwrap();
    for p in 0x80010..0x80016u64 {
        assert!(alloc.check_allocated(&mem, PhysPageNum(p)));
    }
    assert!(!alloc.check_allocated(&mem, PhysPageNum(0x80016)));
    pt.destroy(&mut mem, &mut alloc);
    for p in 0x80010..0x80016u64 {
        assert!(!alloc.check_allocated(&mem, PhysPageNum(p)));
    }
}
