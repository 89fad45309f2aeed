use breakcore::error::KernelError;
use breakcore::loader::{
    check_aligned, load_segments, pte_flags_from_ph_flags, same_bytes, segment_bytes, AppInfo,
    AppManager, ElfHeader, ElfSegment, LoadedElf, EM_RISCV, ET_EXEC, PF_R, PF_W, PF_X,
    PT_GNU_STACK, PT_INTERP, PT_LOAD, USER_STACK_SIZE,
};
use breakcore::mm::addr::{PhysPageNum, VirtAddr, VirtPageNum};
use breakcore::mm::aspace::AddressSpace;
use breakcore::mm::frame::LinkedStackFrameAllocator;
use breakcore::mm::memory::PhysMemory;
use breakcore::mm::page_table::PTEFlags;

const R: u8 = PTEFlags::R;
const W: u8 = PTEFlags::W;
const X: u8 = PTEFlags::X;
const U: u8 = PTEFlags::U;

struct Seg {
    p_type: u32,
    flags: u32,
    vaddr: u64,
    data: Vec<u8>,
    memsz: u64,
}

fn build_elf(entry: u64, machine: u16, file_type: u16, segs: &[Seg]) -> Vec<u8> {
    let mut out = vec![0x7f, b'E', b'L', b'F', 2, 1, 1, 0, 0, 0, 0, 0, 0, 0, 0, 0];
    out.extend_from_slice(&file_type.to_le_bytes());
    out.extend_from_slice(&machine.to_le_bytes());
    out.extend_from_slice(&1u32.to_le_bytes());
    out.extend_from_slice(&entry.to_le_bytes());
    out.extend_from_slice(&64u64.to_le_bytes());
    out.extend_from_slice(&0u64.to_le_bytes());
    out.extend_from_slice(&0u32.to_le_bytes());
    out.extend_from_slice(&64u16.to_le_bytes());
    out.extend_from_slice(&56u16.to_le_bytes());
    out.extend_from_slice(&(segs.len() as u16).to_le_bytes());
    out.extend_from_slice(&0u16.to_le_bytes());
    out.extend_from_slice(&0u16.to_le_bytes());
    out.extend_from_slice(&0u16.to_le_bytes());
    assert_eq!(out.len(), 64);
    let mut offset = 64 + 56 * segs.len() as u64;
    for s in segs {
        out.extend_from_slice(&s.p_type.to_le_bytes());
        out.extend_from_slice(&s.flags.to_le_bytes());
        out.extend_from_slice(&offset.to_le_bytes());
        out.extend_from_slice(&s.vaddr.to_le_bytes());
        out.extend_from_slice(&s.vaddr.to_le_bytes());
        out.extend_from_slice(&(s.data.len() as u64).to_le_bytes());
        out.extend_from_slice(&s.memsz.to_le_bytes());
        out.extend_from_slice(&4096u64.to_le_bytes());
        offset += s.data.len() as u64;
    }
    for s in segs {
        out.extend_from_slice(&s.data);
    }
    out
}

fn pattern(len: usize, seed: u8) -> Vec<u8> {
    (0..len).map(|i| (i as u8).wrapping_mul(3).wrapping_add(seed)).collect()
}

fn hello() -> Vec<u8> {
    build_elf(
        0x1_0040,
        EM_RISCV,
        ET_EXEC,
        &[
            Seg { p_type: PT_LOAD, flags: PF_R | PF_X, vaddr: 0x1_0000, data: pattern(5000, 1), memsz: 5000 },
            Seg { p_type: PT_LOAD, flags: PF_R | PF_W, vaddr: 0x1_2000, data: pattern(100, 9), memsz: 0x1800 },
            Seg { p_type: PT_GNU_STACK, flags: PF_R | PF_W, vaddr: 0, data: vec![], memsz: 0 },
        ],
    )
}

fn machine() -> (PhysMemory, LinkedStackFrameAllocator) {
    let mem = PhysMemory::new(PhysPageNum(0x80000), 256).unwrap();
    let alloc = LinkedStackFrameAllocator::new(PhysPageNum(0x80010), PhysPageNum(0x80100));
    (mem, alloc)
}

fn manager(apps: Vec<(&str, Vec<u8>)>) -> AppManager {
    AppManager::new(apps.into_iter().map(|(n, d)| AppInfo { name: n.as_bytes().to_vec(), data: d }).collect())
}

fn read(space: &AddressSpace, mem: &PhysMemory, at: u64, len: usize) -> Vec<u8> {
    let mut out = vec![0xccu8; len];
    let n = space.read(mem, VirtAddr(at), &mut out, true);
    out.truncate(n);
    out
}

#[test]
fn flags_of_a_segment_become_page_flags() {
    assert_eq!(pte_flags_from_ph_flags(0).bits(), 0);
    assert_eq!(pte_flags_from_ph_flags(PF_R).bits(), R);
    assert_eq!(pte_flags_from_ph_flags(PF_W).bits(), W);
    assert_eq!(pte_flags_from_ph_flags(PF_X).bits(), X);
    assert_eq!(pte_flags_from_ph_flags(PF_R | PF_W | PF_X).bits(), R | W | X);
    assert_eq!(pte_flags_from_ph_flags(0xffff_fff8 | PF_X).bits(), X);
}

#[test]
fn app_table_finds_programs_by_name() {
    let apps = manager(vec![("a", vec![1]), ("hello_world", vec![2]), ("a", vec![3])]);
    assert_eq!(apps.app_num(), 3);
    assert_eq!(apps.find(b"a"), Some(0));
    assert_eq!(apps.find(b"hello_world"), Some(1));
    assert_eq!(apps.find(b"hello"), None);
    assert_eq!(apps.find(b""), None);
    assert_eq!(apps.init_app(), Some(&b"a".to_vec()));
    assert_eq!(apps.name_of(1), Some(&b"hello_world".to_vec()));
    assert_eq!(apps.name_of(3), None);
    assert_eq!(manager(vec![]).init_app(), None);
    assert!(same_bytes(b"abc", b"abc"));
    assert!(!same_bytes(b"abc", b"abd"));
    assert!(!same_bytes(b"abc", b"ab"));
}

#[test]
fn load_elf_maps_segments_and_stack() {
    let (mut mem, mut alloc) = machine();
    let mut space = AddressSpace::new(&mut mem, &mut alloc).unwrap();
    let apps = manager(vec![("hello_world", hello())]);
    let loaded = apps.load_elf(b"hello_world", &mut space, &mut mem, &mut alloc).unwrap();
    assert_eq!(loaded, LoadedElf { entry: 0x1_0040, user_sp: 0x1_5000 + USER_STACK_SIZE as u64 });
    assert_eq!(space.mapping_count(), 3);
    let text = space.mapping(0).unwrap();
    assert_eq!((text.base_vpn(), text.page_count(), text.flags().bits()), (VirtPageNum(0x10), 2, R | X | U));
    let data = space.mapping(1).unwrap();
    assert_eq!((data.base_vpn(), data.page_count(), data.flags().bits()), (VirtPageNum(0x12), 2, R | W | U));
    let stack = space.mapping(2).unwrap();
    assert_eq!((stack.base_vpn(), stack.page_count(), stack.flags().bits()), (VirtPageNum(0x15), 16, R | W | U));

    let mut want = pattern(5000, 1);
    want.resize(2 * 4096, 0);
    assert_eq!(read(&space, &mem, 0x1_0000, 2 * 4096), want);
    let mut want = pattern(100, 9);
    want.resize(2 * 4096, 0);
    assert_eq!(read(&space, &mem, 0x1_2000, 2 * 4096), want);
    assert_eq!(read(&space, &mem, 0x1_4000, 16), Vec::<u8>::new());
    assert_eq!(read(&space, &mem, 0x1_5000, USER_STACK_SIZE), vec![0u8; USER_STACK_SIZE]);
    assert_eq!(space.write(&mut mem, VirtAddr(0x1_0000), b"x", true), 0);
    assert_eq!(space.write(&mut mem, VirtAddr(0x1_5000 + USER_STACK_SIZE as u64 - 1), b"x", true), 1);
}

#[test]
fn load_elf_replaces_the_user_mappings_only() {
    let (mut mem, mut alloc) = machine();
    let mut space = AddressSpace::new(&mut mem, &mut alloc).unwrap();
    let kernel_only = PTEFlags::from_bits_truncate(R | W);
    let user = PTEFlags::from_bits_truncate(R | W | U);
    space.map_fresh(&mut mem, &mut alloc, VirtPageNum(0x7ff_fffe), 1, kernel_only, 0, b"kept").unwrap();
    space.map_fresh(&mut mem, &mut alloc, VirtPageNum(0x10), 1, user, 0, b"old").unwrap();
    let apps = manager(vec![("hello_world", hello())]);
    apps.load_elf(b"hello_world", &mut space, &mut mem, &mut alloc).unwrap();
    assert_eq!(space.mapping_count(), 4);
    assert_eq!(space.mapping(0).unwrap().base_vpn(), VirtPageNum(0x7ff_fffe));
    let mut out = vec![0u8; 4];
    space.read(&mem, VirtAddr(0x7ff_fffe << 12), &mut out, false);
    assert_eq!(out, b"kept".to_vec());
    assert_eq!(read(&space, &mem, 0x1_0000, 3), pattern(3, 1));
}

#[test]
fn load_elf_of_an_unknown_name_changes_nothing() {
    let (mut mem, mut alloc) = machine();
    let mut space = AddressSpace::new(&mut mem, &mut alloc).unwrap();
    let user = PTEFlags::from_bits_truncate(R | U);
    space.map_fresh(&mut mem, &mut alloc, VirtPageNum(0x10), 1, user, 0, b"old").unwrap();
    let apps = manager(vec![("hello_world", hello())]);
    let r = apps.load_elf(b"non_exist", &mut space, &mut mem, &mut alloc);
    assert_eq!(r, Err(KernelError::NotFound));
    assert_eq!(space.mapping_count(), 1);
    assert_eq!(read(&space, &mem, 0x1_0000, 3), b"old".to_vec());
}

#[test]
fn load_elf_rejects_what_is_not_a_program_for_the_machine() {
    let (mut mem, mut alloc) = machine();
    let mut space = AddressSpace::new(&mut mem, &mut alloc).unwrap();
    let user = PTEFlags::from_bits_truncate(R | U);
    space.map_fresh(&mut mem, &mut alloc, VirtPageNum(0x10), 1, user, 0, b"old").unwrap();
    let seg = || vec![Seg { p_type: PT_LOAD, flags: PF_R, vaddr: 0x2_0000, data: vec![1, 2, 3], memsz: 3 }];
    let mut big_endian = hello();
    big_endian[5] = 2;
    let mut class_32 = hello();
    class_32[4] = 1;
    let mut bad_magic = hello();
    bad_magic[1] = b'X';
    let apps = manager(vec![
        ("garbage", b"not an elf file at all, but long enough to hold a header ...........".to_vec()),
        ("short", hello()[..40].to_vec()),
        ("x86", build_elf(0, 62, ET_EXEC, &seg())),
        ("shared", build_elf(0, EM_RISCV, 3, &seg())),
        ("big_endian", big_endian),
        ("class_32", class_32),
        ("bad_magic", bad_magic),
        ("empty", vec![]),
    ]);
    for name in ["garbage", "short", "x86", "shared", "big_endian", "class_32", "bad_magic", "empty"] {
        let r = apps.load_elf(name.as_bytes(), &mut space, &mut mem, &mut alloc);
        assert_eq!(r, Err(KernelError::ElfMalformed), "{}", name);
        assert_eq!(space.mapping_count(), 1, "{}", name);
        assert_eq!(read(&space, &mem, 0x1_0000, 3), b"old".to_vec(), "{}", name);
    }
}

#[test]
fn load_elf_rejects_a_segment_that_does_not_start_a_page() {
    let (mut mem, mut alloc) = machine();
    let mut space = AddressSpace::new(&mut mem, &mut alloc).unwrap();
    let elf = build_elf(0, EM_RISCV, ET_EXEC, &[Seg { p_type: PT_LOAD, flags: PF_R, vaddr: 0x2_0010, data: vec![1], memsz: 1 }]);
    let apps = manager(vec![("odd", elf)]);
    assert_eq!(apps.load_elf(b"odd", &mut space, &mut mem, &mut alloc), Err(KernelError::ElfMalformed));
    assert_eq!(space.mapping_count(), 0);
}

#[test]
fn load_elf_does_not_take_a_dynamic_linker() {
    let (mut mem, mut alloc) = machine();
    let mut space = AddressSpace::new(&mut mem, &mut alloc).unwrap();
    let elf = build_elf(
        0,
        EM_RISCV,
        ET_EXEC,
        &[
            Seg { p_type: PT_LOAD, flags: PF_R, vaddr: 0x2_0000, data: vec![1], memsz: 1 },
            Seg { p_type: PT_INTERP, flags: PF_R, vaddr: 0, data: b"/lib/ld.so\0".to_vec(), memsz: 11 },
        ],
    );
    let apps = manager(vec![("dyn", elf)]);
    assert_eq!(apps.load_elf(b"dyn", &mut space, &mut mem, &mut alloc), Err(KernelError::Unsupported));
}

#[test]
fn load_elf_rejects_bytes_that_do_not_fit() {
    let (mut mem, mut alloc) = machine();
    let mut space = AddressSpace::new(&mut mem, &mut alloc).unwrap();
    let too_long = build_elf(0, EM_RISCV, ET_EXEC, &[Seg { p_type: PT_LOAD, flags: PF_R, vaddr: 0x2_0000, data: vec![7; 5000], memsz: 10 }]);
    let mut cut = build_elf(0, EM_RISCV, ET_EXEC, &[Seg { p_type: PT_LOAD, flags: PF_R, vaddr: 0x2_0000, data: vec![7; 500], memsz: 500 }]);
    cut.truncate(cut.len() - 1);
    let apps = manager(vec![("too_long", too_long), ("cut", cut)]);
    assert_eq!(apps.load_elf(b"too_long", &mut space, &mut mem, &mut alloc), Err(KernelError::ElfMalformed));
    assert_eq!(apps.load_elf(b"cut", &mut space, &mut mem, &mut alloc), Err(KernelError::ElfMalformed));
}

#[test]
fn load_elf_fails_on_segments_that_share_a_page() {
    let (mut mem, mut alloc) = machine();
    let mut space = AddressSpace::new(&mut mem, &mut alloc).unwrap();
    let elf = build_elf(
        0,
        EM_RISCV,
        ET_EXEC,
        &[
            Seg { p_type: PT_LOAD, flags: PF_R, vaddr: 0x2_0000, data: vec![1], memsz: 0x1001 },
            Seg { p_type: PT_LOAD, flags: PF_R, vaddr: 0x2_1000, data: vec![1], memsz: 1 },
        ],
    );
    let apps = manager(vec![("clash", elf)]);
    assert_eq!(apps.load_elf(b"clash", &mut space, &mut mem, &mut alloc), Err(KernelError::Overlap));
}

#[test]
fn stack_flags_come_from_the_stack_segment() {
    let (mut mem, mut alloc) = machine();
    let mut space = AddressSpace::new(&mut mem, &mut alloc).unwrap();
    let elf = build_elf(
        0x3_0000,
        EM_RISCV,
        ET_EXEC,
        &[
            Seg { p_type: PT_GNU_STACK, flags: PF_R, vaddr: 0, data: vec![], memsz: 0 },
            Seg { p_type: PT_LOAD, flags: PF_X, vaddr: 0x3_0000, data: vec![1], memsz: 1 },
            Seg { p_type: 4, flags: PF_R | PF_W | PF_X, vaddr: 0x99, data: vec![5, 5], memsz: 2 },
        ],
    );
    let apps = manager(vec![("s", elf)]);
    let loaded = apps.load_elf(b"s", &mut space, &mut mem, &mut alloc).unwrap();
    assert_eq!(loaded.entry, 0x3_0000);
    assert_eq!(loaded.user_sp, 0x3_2000 + USER_STACK_SIZE as u64);
    assert_eq!(space.mapping_count(), 2);
    assert_eq!(space.mapping(0).unwrap().flags().bits(), X | U);
    assert_eq!(space.mapping(1).unwrap().flags().bits(), R | U);
}

#[test]
fn a_program_without_segments_gets_a_stack_above_the_first_page() {
    let (mut mem, mut alloc) = machine();
    let mut space = AddressSpace::new(&mut mem, &mut alloc).unwrap();
    let apps = manager(vec![("none", build_elf(5, EM_RISCV, ET_EXEC, &[]))]);
    let loaded = apps.load_elf(b"none", &mut space, &mut mem, &mut alloc).unwrap();
    assert_eq!(loaded, LoadedElf { entry: 5, user_sp: 0x1000 + USER_STACK_SIZE as u64 });
    assert_eq!(space.mapping(0).unwrap().base_vpn(), VirtPageNum(1));
    assert_eq!(space.mapping(0).unwrap().flags().bits(), U);
}

#[test]
fn segment_bytes_are_a_range_of_the_file() {
    let data: Vec<u8> = (0..100).collect();
    let seg = |offset: u64, filesz: u64| ElfSegment { p_type: PT_LOAD, flags: 0, offset, vaddr: 0, filesz, memsz: filesz };
    assert_eq!(segment_bytes(&seg(10, 5), &data), Some(&data[10..15]));
    assert_eq!(segment_bytes(&seg(0, 100), &data), Some(&data[..]));
    assert_eq!(segment_bytes(&seg(100, 0), &data), Some(&data[0..0]));
    assert_eq!(segment_bytes(&seg(5000, 0), &data), Some(&data[0..0]));
    assert_eq!(segment_bytes(&seg(99, 2), &data), None);
    assert_eq!(segment_bytes(&seg(101, 1), &data), None);
    assert_eq!(segment_bytes(&seg(u64::MAX, 2), &data), None);
}

#[test]
fn load_segments_works_on_headers_given_by_hand() {
    let (mut mem, mut alloc) = machine();
    let mut space = AddressSpace::new(&mut mem, &mut alloc).unwrap();
    let header = ElfHeader { little_endian: true, class_64: true, machine: EM_RISCV, file_type: ET_EXEC, entry: 0x77 };
    let data = pattern(64, 0);
    let segs = vec![
        ElfSegment { p_type: PT_LOAD, flags: PF_R | PF_W, offset: 8, vaddr: 0x5000, filesz: 16, memsz: 32 },
    ];
    assert!(check_aligned(&segs));
    let loaded = load_segments(&mut space, &mut mem, &mut alloc, &header, &segs, &data).unwrap();
    assert_eq!(loaded, LoadedElf { entry: 0x77, user_sp: 0x7000 + USER_STACK_SIZE as u64 });
    assert_eq!(read(&space, &mem, 0x5000, 16), data[8..24].to_vec());
    assert_eq!(read(&space, &mem, 0x5010, 16), vec![0u8; 16]);

    let bad = ElfHeader { machine: 3, ..header };
    let mut other = AddressSpace::new(&mut mem, &mut alloc).unwrap();
    assert_eq!(load_segments(&mut other, &mut mem, &mut alloc, &bad, &segs, &data), Err(KernelError::ElfMalformed));
    assert_eq!(other.mapping_count(), 0);
    assert!(!check_aligned(&vec![ElfSegment { vaddr: 0x5001, ..segs[0] }]));
    assert!(check_aligned(&vec![ElfSegment { p_type: PT_GNU_STACK, vaddr: 0x5001, ..segs[0] }]));
}
