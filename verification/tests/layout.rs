use breakcore::error::KernelError;
use breakcore::mm::addr::{PhysAddr, PhysPageNum, VirtAddr, VirtPageNum};
use breakcore::mm::aspace::AddressSpace;
use breakcore::mm::frame::LinkedStackFrameAllocator;
use breakcore::mm::layout::{
    create_user_aspace, identity_map, kernel_aspace_init, map_trampoline, trampoline_base_vpn,
    KernelLayout, Region, FLAGS_R, FLAGS_RW, FLAGS_RX,
};
use breakcore::mm::memory::PhysMemory;
use breakcore::mm::page_table::{PTEFlags, PageTableRef};
use breakcore::mm::vmo::VMObjectPhysical;

fn machine(frames: u64) -> (PhysMemory, LinkedStackFrameAllocator) {
    let mem = PhysMemory::new(PhysPageNum(0x80000), 256).unwrap();
    let alloc = LinkedStackFrameAllocator::new(PhysPageNum(0x80010), PhysPageNum(0x80010 + frames));
    (mem, alloc)
}

fn layout() -> KernelLayout {
    KernelLayout {
        stext: 0x8000_0000,
        etext: 0x8000_3ff0,
        srodata: 0x8000_4000,
        erodata: 0x8000_5001,
        sdata: 0x8000_6000,
        edata: 0x8000_8000,
        sstack: 0x8000_8000,
        estack: 0x8000_a000,
        sbss: 0x8000_a000,
        ebss: 0x8000_c000,
        sframe: 0x8001_0000,
        eframe: 0x8010_0000,
    }
}

fn trampoline() -> VMObjectPhysical {
    VMObjectPhysical::from_range(PhysAddr(0x8000_3000), PhysAddr(0x8000_4000))
}

fn allocated(mem: &PhysMemory, alloc: &LinkedStackFrameAllocator, frames: u64) -> usize {
    (0x80010..0x80010 + frames).filter(|p| alloc.check_allocated(mem, PhysPageNum(*p))).count()
}

#[test]
fn flag_sets_of_the_kernel_mappings() {
    assert_eq!(FLAGS_RX, PTEFlags::R | PTEFlags::X);
    assert_eq!(FLAGS_R, PTEFlags::R);
    assert_eq!(FLAGS_RW, PTEFlags::R | PTEFlags::W);
}

#[test]
fn trampoline_ends_at_the_top_of_the_address_space() {
    assert_eq!(trampoline_base_vpn(1), Some(VirtPageNum(0x7ff_ffff)));
    assert_eq!(trampoline_base_vpn(3), Some(VirtPageNum(0x7ff_fffd)));
    assert_eq!(trampoline_base_vpn(0), Some(VirtPageNum(0x800_0000)));
    assert_eq!(trampoline_base_vpn(0x800_0000), None);
}

#[test]
fn kernel_space_maps_every_region_at_its_own_address() {
    let (mut mem, mut alloc) = machine(0xf0);
    let space = kernel_aspace_init(&layout(), &mut mem, &mut alloc, &trampoline()).unwrap();
    assert_eq!(space.mapping_count(), 7);
    let expect = [
        (0x80000u64, 4usize, FLAGS_RX),
        (0x80004, 2, FLAGS_R),
        (0x80006, 2, FLAGS_RW),
        (0x80008, 2, FLAGS_RW),
        (0x8000a, 2, FLAGS_RW),
        (0x80010, 0xf0, FLAGS_RW),
        (0x7ff_ffff, 1, FLAGS_RX),
    ];
    for (k, (base, count, bits)) in expect.iter().enumerate() {
        let m = space.mapping(k).unwrap();
        assert_eq!(m.base_vpn(), VirtPageNum(*base));
        assert_eq!(m.page_count(), *count);
        assert_eq!(m.flags().bits(), *bits);
    }
    let table = PageTableRef::from_token(space.token());
    for vpn in [0x80000u64, 0x80003, 0x80005, 0x8000b, 0x80010, 0x800ff] {
        let e = table.raw.query(&mem, VirtPageNum(vpn)).unwrap();
        assert!(e.valid());
        assert_eq!(e.ppn(), PhysPageNum(vpn));
    }
    assert!(!table.raw.query(&mem, VirtPageNum(0x8000c)).unwrap().valid());
    let e = table.raw.query(&mem, VirtPageNum(0x7ff_ffff)).unwrap();
    assert_eq!(e.ppn(), PhysPageNum(0x80003));
    assert_eq!(e.flags().bits(), FLAGS_RX | PTEFlags::V);
}

#[test]
fn kernel_space_fails_on_a_region_that_ends_before_it_starts() {
    let (mut mem, mut alloc) = machine(0xf0);
    let mut bad = layout();
    bad.edata = bad.sdata - 1;
    let r = kernel_aspace_init(&bad, &mut mem, &mut alloc, &trampoline());
    assert!(matches!(r, Err(KernelError::InvalidArgument)));
    assert_eq!(allocated(&mem, &alloc, 0xf0), 0);
}

#[test]
fn kernel_space_fails_on_a_region_out_of_ram() {
    let (mut mem, mut alloc) = machine(0xf0);
    let mut bad = layout();
    bad.ebss = 0x9000_0000;
    let r = kernel_aspace_init(&bad, &mut mem, &mut alloc, &trampoline());
    assert!(matches!(r, Err(KernelError::OutOfRange)));
    assert_eq!(allocated(&mem, &alloc, 0xf0), 0);
}

#[test]
fn kernel_space_fails_on_regions_that_share_a_page() {
    let (mut mem, mut alloc) = machine(0xf0);
    let mut bad = layout();
    bad.srodata = 0x8000_3800;
    let r = kernel_aspace_init(&bad, &mut mem, &mut alloc, &trampoline());
    assert!(matches!(r, Err(KernelError::Overlap)));
    assert_eq!(allocated(&mem, &alloc, 0xf0), 0);
}

#[test]
fn kernel_space_fails_without_frames() {
    let (mut mem, mut alloc) = machine(2);
    let r = kernel_aspace_init(&layout(), &mut mem, &mut alloc, &trampoline());
    assert!(matches!(r, Err(KernelError::OutOfFrames)));
    assert_eq!(allocated(&mem, &alloc, 2), 0);
}

#[test]
fn identity_map_adds_one_region() {
    let (mut mem, mut alloc) = machine(16);
    let mut space = AddressSpace::new(&mut mem, &mut alloc).unwrap();
    let r = identity_map(&mut space, &mut mem, &mut alloc, Region { start: 0x8000_2010, end: 0x8000_4000, flags: FLAGS_R });
    assert_eq!(r, Ok(()));
    assert_eq!(space.mapping(0).unwrap().base_vpn(), VirtPageNum(0x80002));
    assert_eq!(space.mapping(0).unwrap().page_count(), 2);
    let r = identity_map(&mut space, &mut mem, &mut alloc, Region { start: 0x8000_3fff, end: 0x8000_4000, flags: FLAGS_R });
    assert_eq!(r, Err(KernelError::Overlap));
    let r = identity_map(&mut space, &mut mem, &mut alloc, Region { start: 0x7000_0000, end: 0x7000_1000, flags: FLAGS_R });
    assert_eq!(r, Err(KernelError::OutOfRange));
    assert_eq!(map_trampoline(&mut space, &mut mem, &mut alloc, &trampoline()), Ok(()));
    assert_eq!(space.mapping_count(), 2);
}

#[test]
fn user_space_starts_with_trampoline_and_trap_context() {
    let (mut mem, mut alloc) = machine(16);
    let (space, cx) = create_user_aspace(&mut mem, &mut alloc, &trampoline()).unwrap();
    assert_eq!(cx, VirtAddr(0x7ff_fffe << 12));
    assert_eq!(space.mapping_count(), 2);
    let t = space.mapping(0).unwrap();
    assert_eq!((t.base_vpn(), t.page_count(), t.flags().bits()), (VirtPageNum(0x7ff_ffff), 1, FLAGS_RX));
    let c = space.mapping(1).unwrap();
    assert_eq!((c.base_vpn(), c.page_count(), c.flags().bits()), (VirtPageNum(0x7ff_fffe), 1, FLAGS_RW));
    let mut out = vec![1u8; 4096];
    assert_eq!(space.read(&mem, cx, &mut out, false), 4096);
    assert!(out.iter().all(|b| *b == 0));
    assert_eq!(space.read(&mem, cx, &mut out, true), 0);
    assert_eq!(
        space.page_of(&mem, VirtAddr(0x7ff_ffff << 12), PTEFlags::from_bits_truncate(PTEFlags::X)),
        Some(PhysPageNum(0x80003)),
    );
}

#[test]
fn user_space_without_frames_fails_and_keeps_none() {
    for frames in 0..4u64 {
        let (mut mem, mut alloc) = machine(frames);
        let r = create_user_aspace(&mut mem, &mut alloc, &trampoline());
        assert!(matches!(r, Err(KernelError::OutOfFrames)), "with {} frames", frames);
        assert_eq!(allocated(&mem, &alloc, frames), 0);
    }
    let (mut mem, mut alloc) = machine(4);
    assert!(create_user_aspace(&mut mem, &mut alloc, &trampoline()).is_ok());
}
