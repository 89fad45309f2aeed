use breakcore::error::KernelError;
use breakcore::mm::addr::{PhysAddr, PhysPageNum, VirtAddr, VirtPageNum, PAGE_SIZE};
use breakcore::mm::aspace::AddressSpace;
use breakcore::mm::frame::LinkedStackFrameAllocator;
use breakcore::mm::memory::PhysMemory;
use breakcore::mm::page_table::{PTEFlags, PageTableRef};
use breakcore::mm::vmo::{VMObjectPaged, VMObjectPhysical, Vmo};

const R: u8 = PTEFlags::R;
const W: u8 = PTEFlags::W;
const X: u8 = PTEFlags::X;
const U: u8 = PTEFlags::U;

fn machine(frames: u64) -> (PhysMemory, LinkedStackFrameAllocator) {
    let mem = PhysMemory::new(PhysPageNum(0x80000), 256).unwrap();
    let alloc = LinkedStackFrameAllocator::new(PhysPageNum(0x80010), PhysPageNum(0x80010 + frames));
    (mem, alloc)
}

fn flags(bits: u8) -> PTEFlags {
    PTEFlags::from_bits_truncate(bits)
}

fn paged(n: usize, mem: &mut PhysMemory, alloc: &mut LinkedStackFrameAllocator) -> Vmo {
    Vmo::Paged(VMObjectPaged::new(n, mem, alloc).unwrap())
}

fn allocated(mem: &PhysMemory, alloc: &LinkedStackFrameAllocator, frames: u64) -> Vec<u64> {
    (0x80010..0x80010 + frames).filter(|p| alloc.check_allocated(mem, PhysPageNum(*p))).collect()
}

fn pattern(len: usize) -> Vec<u8> {
    (0..len).map(|i| (i * 13 + 1) as u8).collect()
}

#[test]
fn map_records_the_mapping_and_fills_the_page_table() {
    let (mut mem, mut alloc) = machine(64);
    let mut space = AddressSpace::new(&mut mem, &mut alloc).unwrap();
    let vmo = paged(3, &mut mem, &mut alloc);
    let r = space.map(&mut mem, &mut alloc, vmo, 1, VirtPageNum(0x10000), None, flags(R | W | U));
    assert_eq!(r, Ok(()));
    assert_eq!(space.mapping_count(), 1);
    let m = space.mapping(0).unwrap();
    assert_eq!(m.base_vpn(), VirtPageNum(0x10000));
    assert_eq!(m.page_count(), 2);
    assert_eq!(m.flags().bits(), R | W | U);
    let table = PageTableRef::from_token(space.token());
    let e0 = table.raw.query(&mem, VirtPageNum(0x10000)).unwrap();
    let e1 = table.raw.query(&mem, VirtPageNum(0x10001)).unwrap();
    assert_eq!(e0.ppn(), PhysPageNum(0x80012));
    assert_eq!(e1.ppn(), PhysPageNum(0x80013));
    assert_eq!(e0.flags().bits(), R | W | U | PTEFlags::V);
    assert!(!table.raw.query(&mem, VirtPageNum(0x10002)).unwrap().valid());
}

#[test]
fn map_with_a_page_count_takes_that_many_pages() {
    let (mut mem, mut alloc) = machine(64);
    let mut space = AddressSpace::new(&mut mem, &mut alloc).unwrap();
    let vmo = paged(4, &mut mem, &mut alloc);
    space.map(&mut mem, &mut alloc, vmo, 1, VirtPageNum(5), Some(2), flags(R)).unwrap();
    assert_eq!(space.mapping(0).unwrap().page_count(), 2);
    assert_eq!(space.page_of(&mem, VirtAddr(5 * 4096), flags(R)), Some(PhysPageNum(0x80012)));
    assert_eq!(space.page_of(&mem, VirtAddr(6 * 4096 + 7), flags(R)), Some(PhysPageNum(0x80013)));
    assert_eq!(space.page_of(&mem, VirtAddr(7 * 4096), flags(R)), None);
}

#[test]
fn map_past_the_object_is_out_of_range() {
    let (mut mem, mut alloc) = machine(64);
    let mut space = AddressSpace::new(&mut mem, &mut alloc).unwrap();
    let before = allocated(&mem, &alloc, 64);
    let vmo = paged(2, &mut mem, &mut alloc);
    let r = space.map(&mut mem, &mut alloc, vmo, 1, VirtPageNum(5), Some(2), flags(R));
    assert_eq!(r, Err(KernelError::OutOfRange));
    let vmo = paged(2, &mut mem, &mut alloc);
    let r = space.map(&mut mem, &mut alloc, vmo, 3, VirtPageNum(5), None, flags(R));
    assert_eq!(r, Err(KernelError::OutOfRange));
    assert_eq!(space.mapping_count(), 0);
    assert_eq!(allocated(&mem, &alloc, 64), before);
}

#[test]
fn map_past_the_address_space_is_out_of_range() {
    let (mut mem, mut alloc) = machine(64);
    let mut space = AddressSpace::new(&mut mem, &mut alloc).unwrap();
    let vmo = paged(2, &mut mem, &mut alloc);
    let r = space.map(&mut mem, &mut alloc, vmo, 0, VirtPageNum(0x7ff_ffff), None, flags(R));
    assert_eq!(r, Err(KernelError::OutOfRange));
    let vmo = paged(1, &mut mem, &mut alloc);
    let r = space.map(&mut mem, &mut alloc, vmo, 0, VirtPageNum(0x7ff_ffff), None, flags(R));
    assert_eq!(r, Ok(()));
}

#[test]
fn overlapping_map_fails_and_leaves_the_state_unchanged() {
    let (mut mem, mut alloc) = machine(64);
    let mut space = AddressSpace::new(&mut mem, &mut alloc).unwrap();
    let vmo = paged(4, &mut mem, &mut alloc);
    space.map(&mut mem, &mut alloc, vmo, 0, VirtPageNum(100), None, flags(R | W)).unwrap();
    let before = allocated(&mem, &alloc, 64);
    for (base, n) in [(100u64, 1usize), (103, 1), (99, 2), (98, 8), (101, 2)] {
        let vmo = paged(n, &mut mem, &mut alloc);
        let r = space.map(&mut mem, &mut alloc, vmo, 0, VirtPageNum(base), None, flags(R));
        assert_eq!(r, Err(KernelError::Overlap));
        assert_eq!(space.mapping_count(), 1);
        assert_eq!(allocated(&mem, &alloc, 64), before);
    }
    let vmo = paged(1, &mut mem, &mut alloc);
    assert_eq!(space.map(&mut mem, &mut alloc, vmo, 0, VirtPageNum(104), None, flags(R)), Ok(()));
    let vmo = paged(1, &mut mem, &mut alloc);
    assert_eq!(space.map(&mut mem, &mut alloc, vmo, 0, VirtPageNum(99), None, flags(R)), Ok(()));
    assert_eq!(space.mapping_count(), 3);
}

#[test]
fn map_without_frames_for_tables_fails_and_takes_its_entries_back() {
    let (mut mem, mut alloc) = machine(3);
    let mut space = AddressSpace::new(&mut mem, &mut alloc).unwrap();
    let vmo = Vmo::Physical(VMObjectPhysical::from_range(PhysAddr(0x8000_0000), PhysAddr(0x8000_4000)));
    let r = space.map(&mut mem, &mut alloc, vmo, 0, VirtPageNum(0x1ff), None, flags(R));
    assert_eq!(r, Err(KernelError::OutOfFrames));
    assert_eq!(space.mapping_count(), 0);
    let table = PageTableRef::from_token(space.token());
    assert!(!table.raw.query(&mem, VirtPageNum(0x1ff)).unwrap().valid());
}

#[test]
fn unmap_takes_the_exact_mapping_away() {
    let (mut mem, mut alloc) = machine(64);
    let mut space = AddressSpace::new(&mut mem, &mut alloc).unwrap();
    let vmo = paged(2, &mut mem, &mut alloc);
    space.map(&mut mem, &mut alloc, vmo, 0, VirtPageNum(10), None, flags(R | U)).unwrap();
    let vmo = paged(1, &mut mem, &mut alloc);
    space.map(&mut mem, &mut alloc, vmo, 0, VirtPageNum(20), None, flags(R)).unwrap();
    assert_eq!(space.unmap(&mut mem, &mut alloc, VirtPageNum(10), 1, true), Err(KernelError::NotFound));
    assert_eq!(space.unmap(&mut mem, &mut alloc, VirtPageNum(11), 1, true), Err(KernelError::NotFound));
    assert_eq!(space.unmap(&mut mem, &mut alloc, VirtPageNum(20), 1, true), Err(KernelError::NotFound));
    assert_eq!(space.mapping_count(), 2);
    assert_eq!(space.unmap(&mut mem, &mut alloc, VirtPageNum(10), 2, true), Ok(()));
    assert_eq!(space.mapping_count(), 1);
    assert_eq!(space.mapping(0).unwrap().base_vpn(), VirtPageNum(20));
    let table = PageTableRef::from_token(space.token());
    assert!(!table.raw.query(&mem, VirtPageNum(10)).unwrap().valid());
    assert!(!table.raw.query(&mem, VirtPageNum(11)).unwrap().valid());
    assert!(table.raw.query(&mem, VirtPageNum(20)).unwrap().valid());
    assert_eq!(space.unmap(&mut mem, &mut alloc, VirtPageNum(20), 1, false), Ok(()));
    assert_eq!(space.mapping_count(), 0);
}

#[test]
fn unmap_gives_the_frames_of_the_object_back() {
    let (mut mem, mut alloc) = machine(64);
    let mut space = AddressSpace::new(&mut mem, &mut alloc).unwrap();
    let vmo = paged(1, &mut mem, &mut alloc);
    space.map(&mut mem, &mut alloc, vmo, 0, VirtPageNum(1), None, flags(R)).unwrap();
    let before = allocated(&mem, &alloc, 64);
    let vmo = paged(3, &mut mem, &mut alloc);
    space.map(&mut mem, &mut alloc, vmo, 0, VirtPageNum(2), None, flags(R)).unwrap();
    assert_eq!(allocated(&mem, &alloc, 64).len(), before.len() + 3);
    space.unmap(&mut mem, &mut alloc, VirtPageNum(2), 3, false).unwrap();
    assert_eq!(allocated(&mem, &alloc, 64), before);
}

#[test]
fn find_mapping_honours_range_and_flags() {
    let (mut mem, mut alloc) = machine(64);
    let mut space = AddressSpace::new(&mut mem, &mut alloc).unwrap();
    let vmo = paged(2, &mut mem, &mut alloc);
    space.map(&mut mem, &mut alloc, vmo, 0, VirtPageNum(10), None, flags(R)).unwrap();
    let vmo = paged(1, &mut mem, &mut alloc);
    space.map(&mut mem, &mut alloc, vmo, 0, VirtPageNum(12), None, flags(R | W | U)).unwrap();
    assert_eq!(space.find_mapping(VirtAddr(10 * 4096), flags(R)), Some(0));
    assert_eq!(space.find_mapping(VirtAddr(12 * 4096 - 1), flags(R)), Some(0));
    assert_eq!(space.find_mapping(VirtAddr(12 * 4096), flags(R)), Some(1));
    assert_eq!(space.find_mapping(VirtAddr(10 * 4096), flags(R | U)), None);
    assert_eq!(space.find_mapping(VirtAddr(10 * 4096), flags(W)), None);
    assert_eq!(space.find_mapping(VirtAddr(12 * 4096), flags(W | U)), Some(1));
    assert_eq!(space.find_mapping(VirtAddr(13 * 4096), flags(R)), None);
    assert_eq!(space.find_mapping(VirtAddr(9 * 4096 + 4095), flags(R)), None);
}

#[test]
fn write_then_read_through_two_mappings() {
    let (mut mem, mut alloc) = machine(64);
    let mut space = AddressSpace::new(&mut mem, &mut alloc).unwrap();
    let vmo = paged(1, &mut mem, &mut alloc);
    space.map(&mut mem, &mut alloc, vmo, 0, VirtPageNum(10), None, flags(R | W | U)).unwrap();
    let vmo = paged(2, &mut mem, &mut alloc);
    space.map(&mut mem, &mut alloc, vmo, 0, VirtPageNum(11), None, flags(R | W | U)).unwrap();
    let data = pattern(6000);
    let at = VirtAddr(10 * 4096 + 100);
    assert_eq!(space.write(&mut mem, at, &data, true), 6000);
    let mut out = vec![0u8; 6000];
    assert_eq!(space.read(&mem, at, &mut out, true), 6000);
    assert_eq!(out, data);
    let frame = space.page_of(&mem, VirtAddr(11 * 4096), flags(R)).unwrap();
    assert_eq!(mem.read_byte(frame, 0), data[4096 - 100]);
}

#[test]
fn transfers_stop_at_the_first_byte_without_a_mapping() {
    let (mut mem, mut alloc) = machine(64);
    let mut space = AddressSpace::new(&mut mem, &mut alloc).unwrap();
    let vmo = paged(1, &mut mem, &mut alloc);
    space.map(&mut mem, &mut alloc, vmo, 0, VirtPageNum(10), None, flags(R | W | U)).unwrap();
    let data = pattern(200);
    assert_eq!(space.write(&mut mem, VirtAddr(11 * 4096 - 50), &data, true), 50);
    let mut out = vec![0xeeu8; 200];
    assert_eq!(space.read(&mem, VirtAddr(11 * 4096 - 50), &mut out, true), 50);
    assert_eq!(&out[..50], &data[..50]);
    assert!(out[50..].iter().all(|b| *b == 0xee));
    assert_eq!(space.read(&mem, VirtAddr(9 * 4096), &mut out, true), 0);
    assert_eq!(space.write(&mut mem, VirtAddr(11 * 4096), &data, true), 0);
    assert_eq!(space.read(&mem, VirtAddr(u64::MAX - 3), &mut out, true), 0);
}

#[test]
fn transfers_honour_the_flags() {
    let (mut mem, mut alloc) = machine(64);
    let mut space = AddressSpace::new(&mut mem, &mut alloc).unwrap();
    let vmo = paged(1, &mut mem, &mut alloc);
    space.map(&mut mem, &mut alloc, vmo, 0, VirtPageNum(10), None, flags(R | U)).unwrap();
    let vmo = paged(1, &mut mem, &mut alloc);
    space.map(&mut mem, &mut alloc, vmo, 0, VirtPageNum(11), None, flags(R | W)).unwrap();
    let data = pattern(16);
    let mut out = vec![0u8; 16];
    assert_eq!(space.write(&mut mem, VirtAddr(10 * 4096), &data, true), 0);
    assert_eq!(space.write(&mut mem, VirtAddr(10 * 4096), &data, false), 0);
    assert_eq!(space.read(&mem, VirtAddr(10 * 4096), &mut out, true), 16);
    assert_eq!(space.write(&mut mem, VirtAddr(11 * 4096), &data, true), 0);
    assert_eq!(space.write(&mut mem, VirtAddr(11 * 4096), &data, false), 16);
    assert_eq!(space.read(&mem, VirtAddr(11 * 4096), &mut out, true), 0);
    assert_eq!(space.read(&mem, VirtAddr(11 * 4096), &mut out, false), 16);
    assert_eq!(out, data);
    assert_eq!(space.read(&mem, VirtAddr(10 * 4096 + 4090), &mut out, false), 16);
    assert_eq!(space.read(&mem, VirtAddr(10 * 4096 + 4090), &mut out, true), 6);
}

#[test]
fn read_cstr_stops_at_the_zero_byte() {
    let (mut mem, mut alloc) = machine(64);
    let mut space = AddressSpace::new(&mut mem, &mut alloc).unwrap();
    let vmo = paged(1, &mut mem, &mut alloc);
    space.map(&mut mem, &mut alloc, vmo, 0, VirtPageNum(10), None, flags(R | W | U)).unwrap();
    space.write(&mut mem, VirtAddr(10 * 4096 + 8), b"hello_world\0junk", true);
    assert_eq!(space.read_cstr(&mem, VirtAddr(10 * 4096 + 8), true), b"hello_world".to_vec());
    assert_eq!(space.read_cstr(&mem, VirtAddr(10 * 4096 + 19), true), Vec::<u8>::new());
    assert_eq!(space.read_cstr(&mem, VirtAddr(9 * 4096), true), Vec::<u8>::new());
    space.write(&mut mem, VirtAddr(11 * 4096 - 3), b"abc", true);
    assert_eq!(space.read_cstr(&mem, VirtAddr(11 * 4096 - 3), true), b"abc".to_vec());
}

#[test]
fn clean_user_keeps_what_is_not_for_the_user() {
    let (mut mem, mut alloc) = machine(64);
    let mut space = AddressSpace::new(&mut mem, &mut alloc).unwrap();
    for (vpn, f) in [(1u64, R | X), (2, R | W | U), (3, R | W), (4, R | U), (5, U)] {
        let vmo = paged(1, &mut mem, &mut alloc);
        space.map(&mut mem, &mut alloc, vmo, 0, VirtPageNum(vpn), None, flags(f)).unwrap();
    }
    space.clean_user(&mut mem, &mut alloc);
    assert_eq!(space.mapping_count(), 2);
    assert_eq!(space.mapping(0).unwrap().base_vpn(), VirtPageNum(1));
    assert_eq!(space.mapping(1).unwrap().base_vpn(), VirtPageNum(3));
    space.clean_user(&mut mem, &mut alloc);
    assert_eq!(space.mapping_count(), 2);
}

#[test]
fn destroy_returns_every_frame() {
    let (mut mem, mut alloc) = machine(64);
    assert!(allocated(&mem, &alloc, 64).is_empty());
    let mut space = AddressSpace::new(&mut mem, &mut alloc).unwrap();
    let vmo = paged(5, &mut mem, &mut alloc);
    space.map(&mut mem, &mut alloc, vmo, 0, VirtPageNum(0x10000), None, flags(R | W | U)).unwrap();
    let vmo = paged(2, &mut mem, &mut alloc);
    space.map(&mut mem, &mut alloc, vmo, 0, VirtPageNum(0x7ff_0000), None, flags(R)).unwrap();
    assert!(allocated(&mem, &alloc, 64).len() >= 8 + 3);
    space.destroy(&mut mem, &mut alloc);
    assert!(allocated(&mem, &alloc, 64).is_empty());
}

#[test]
fn map_fresh_maps_zeroed_pages_with_the_given_start() {
    let (mut mem, mut alloc) = machine(64);
    let mut space = AddressSpace::new(&mut mem, &mut alloc).unwrap();
    mem.write_word(PhysPageNum(0x80011), 0, 5);
    let init = pattern(10);
    let r = space.map_fresh(&mut mem, &mut alloc, VirtPageNum(7), 2, flags(R | W), 4090, &init);
    assert_eq!(r, Ok(()));
    let mut out = vec![1u8; 2 * PAGE_SIZE];
    assert_eq!(space.read(&mem, VirtAddr(7 * 4096), &mut out, false), 2 * PAGE_SIZE);
    assert!(out[..4090].iter().all(|b| *b == 0));
    assert_eq!(&out[4090..4100], &init[..]);
    assert!(out[4100..].iter().all(|b| *b == 0));
}

#[test]
fn map_fresh_says_why_it_fails() {
    let (mut mem, mut alloc) = machine(8);
    let mut space = AddressSpace::new(&mut mem, &mut alloc).unwrap();
    assert_eq!(space.map_fresh(&mut mem, &mut alloc, VirtPageNum(7), 8, flags(R), 0, &[]), Err(KernelError::OutOfFrames));
    assert_eq!(space.map_fresh(&mut mem, &mut alloc, VirtPageNum(0x7ff_ffff), 2, flags(R), 0, &[]), Err(KernelError::OutOfRange));
    assert_eq!(space.map_fresh(&mut mem, &mut alloc, VirtPageNum(7), 2, flags(R), 0, &[]), Ok(()));
    assert_eq!(space.map_fresh(&mut mem, &mut alloc, VirtPageNum(8), 1, flags(R), 0, &[]), Err(KernelError::Overlap));
    assert_eq!(space.mapping_count(), 1);
}

#[test]
fn fork_duplicates_owned_pages_and_shares_the_others() {
    let (mut mem, mut alloc) = machine(128);
    let mut parent = AddressSpace::new(&mut mem, &mut alloc).unwrap();
    let shared = Vmo::Physical(VMObjectPhysical::from_range(PhysAddr(0x8000_1000), PhysAddr(0x8000_2000)));
    parent.map(&mut mem, &mut alloc, shared, 0, VirtPageNum(0x7ff_ffff), None, flags(R | X)).unwrap();
    let vmo = paged(3, &mut mem, &mut alloc);
    parent.map(&mut mem, &mut alloc, vmo, 1, VirtPageNum(0x10), Some(2), flags(R | W | U)).unwrap();
    let data = pattern(2 * PAGE_SIZE);
    assert_eq!(parent.write(&mut mem, VirtAddr(0x10 * 4096), &data, true), 2 * PAGE_SIZE);
    mem.write_word(PhysPageNum(0x80001), 0, 0xabcd);

    let mut child = AddressSpace::new(&mut mem, &mut alloc).unwrap();
    assert_eq!(child.fork_from(&parent, &mut mem, &mut alloc), Ok(()));
    assert_eq!(child.mapping_count(), 2);
    assert_eq!(child.mapping(0).unwrap().base_vpn(), VirtPageNum(0x7ff_ffff));
    assert_eq!(child.mapping(0).unwrap().flags().bits(), R | X);
    assert_eq!(child.mapping(1).unwrap().base_vpn(), VirtPageNum(0x10));
    assert_eq!(child.mapping(1).unwrap().page_count(), 2);
    assert_eq!(child.mapping(1).unwrap().flags().bits(), R | W | U);
    assert_eq!(
        child.page_of(&mem, VirtAddr(0x7ff_ffff << 12), flags(R)),
        parent.page_of(&mem, VirtAddr(0x7ff_ffff << 12), flags(R)),
    );
    assert_ne!(
        child.page_of(&mem, VirtAddr(0x10 * 4096), flags(R)),
        parent.page_of(&mem, VirtAddr(0x10 * 4096), flags(R)),
    );
    let mut out = vec![0u8; 2 * PAGE_SIZE];
    assert_eq!(child.read(&mem, VirtAddr(0x10 * 4096), &mut out, true), 2 * PAGE_SIZE);
    assert_eq!(out, data);

    assert_eq!(parent.write(&mut mem, VirtAddr(0x10 * 4096), b"changed", true), 7);
    assert_eq!(child.read(&mem, VirtAddr(0x10 * 4096), &mut out, true), 2 * PAGE_SIZE);
    assert_eq!(out, data);
    assert_eq!(child.write(&mut mem, VirtAddr(0x11 * 4096), b"mine", true), 4);
    let mut theirs = vec![0u8; 4];
    parent.read(&mem, VirtAddr(0x11 * 4096), &mut theirs, true);
    assert_eq!(theirs, data[PAGE_SIZE..PAGE_SIZE + 4].to_vec());
}

#[test]
fn fork_into_an_occupied_range_fails() {
    let (mut mem, mut alloc) = machine(128);
    let mut parent = AddressSpace::new(&mut mem, &mut alloc).unwrap();
    let vmo = paged(1, &mut mem, &mut alloc);
    parent.map(&mut mem, &mut alloc, vmo, 0, VirtPageNum(0x10), None, flags(R | U)).unwrap();
    let mut child = AddressSpace::new(&mut mem, &mut alloc).unwrap();
    let vmo = paged(1, &mut mem, &mut alloc);
    child.map(&mut mem, &mut alloc, vmo, 0, VirtPageNum(0x10), None, flags(R)).unwrap();
    assert_eq!(child.fork_from(&parent, &mut mem, &mut alloc), Err(KernelError::Overlap));
    assert_eq!(child.mapping_count(), 1);
}

#[test]
fn map_fresh_succeeds_from_the_pages_and_the_missing_tables_on() {
    // One page at the start of an empty table: two tables are missing.
    for frames in 1u64..6 {
        let (mut mem, mut alloc) = machine(frames);
        let mut space = AddressSpace::new(&mut mem, &mut alloc).unwrap();
        let r = space.map_fresh(&mut mem, &mut alloc, VirtPageNum(0x10000), 1, flags(R | U), 0, &[]);
        if frames >= 1 + 1 + 2 {
            assert_eq!(r, Ok(()));
        } else {
            assert_eq!(r, Err(KernelError::OutOfFrames));
        }
    }
    // Two pages on both sides of the end of a leaf table: three tables.
    for frames in 1u64..8 {
        let (mut mem, mut alloc) = machine(frames);
        let mut space = AddressSpace::new(&mut mem, &mut alloc).unwrap();
        let r = space.map_fresh(&mut mem, &mut alloc, VirtPageNum(0x101ff), 2, flags(R | U), 0, &[]);
        if frames >= 1 + 2 + 3 {
            assert_eq!(r, Ok(()));
        } else {
            assert_eq!(r, Err(KernelError::OutOfFrames));
        }
    }
    // Beside a mapping that has brought the tables, a page needs its frame only.
    for frames in 4u64..8 {
        let (mut mem, mut alloc) = machine(frames);
        let mut space = AddressSpace::new(&mut mem, &mut alloc).unwrap();
        assert_eq!(
            space.map_fresh(&mut mem, &mut alloc, VirtPageNum(0x10000), 1, flags(R | U), 0, &[]),
            Ok(())
        );
        let r = space.map_fresh(&mut mem, &mut alloc, VirtPageNum(0x10001), 1, flags(R | U), 0, &[]);
        if frames >= 4 + 1 {
            assert_eq!(r, Ok(()));
        } else {
            assert_eq!(r, Err(KernelError::OutOfFrames));
        }
        // A page under another table below the root needs a leaf table too.
        let r = space.map_fresh(&mut mem, &mut alloc, VirtPageNum(0x10200), 1, flags(R | U), 0, &[]);
        if frames >= 4 + 1 + 2 {
            assert_eq!(r, Ok(()));
        } else {
            assert_eq!(r, Err(KernelError::OutOfFrames));
        }
    }
}
