//! The programs that are built into the kernel, and the loader that puts
//! one of them into an address space.
//!
//! A program is a 64-bit little-endian executable for RISC-V. Its file
//! header and program headers are decoded by the `object` crate; what the
//! loader does with them is decided here.

use vstd::prelude::*;
use vstd::slice::slice_subrange;
use object::read::elf::{FileHeader, ProgramHeader};
use crate::error::{failure, KernelError};
use crate::mm::addr::{
    page_count, spec_page_count, VirtPageNum, PAGE_SIZE, PAGE_SIZE_U64, VPN_LIMIT,
};
use crate::mm::aspace::{
    clashes, fresh_contents, fresh_outcome, fresh_view, lemma_contents_frame, overlaps,
    views_owned, without_user, zeros, AddressSpace, MappingView,
};
use crate::mm::frame::{changes, lemma_changes_trans, LinkedStackFrameAllocator};
use crate::mm::memory::PhysMemory;
use crate::mm::page_table::{
    depth, depths, lemma_tables_needed_agree, range_depth, tables_needed_by, PTEFlags,
};
use crate::mm::vmo::contents;

verus! {

/// Bytes of the stack of a user program.
pub const USER_STACK_SIZE: usize = 4096 * 16;

/// The most programs that can be built in.
pub const MAX_APP_NUM: usize = 16;

/// The machine number of RISC-V in a file header.
pub const EM_RISCV: u16 = 243;

/// The file type of an executable in a file header.
pub const ET_EXEC: u16 = 2;

/// The type of a segment that is loaded into memory.
pub const PT_LOAD: u32 = 1;

/// The type of the segment that names the dynamic linker.
pub const PT_INTERP: u32 = 3;

/// The type of the segment that carries the flags of the stack.
pub const PT_GNU_STACK: u32 = 0x6474_e551;

/// The flag of a segment that can be executed.
pub const PF_X: u32 = 1;

/// The flag of a segment that can be written.
pub const PF_W: u32 = 2;

/// The flag of a segment that can be read.
pub const PF_R: u32 = 4;

/// What the loader reads of the file header of a program.
#[derive(Copy, Clone, Debug, PartialEq, Eq, Structural)]
pub struct ElfHeader {
    /// Whether the file says that its numbers have the low byte first.
    pub little_endian: bool,
    /// Whether the file says that it is a 64-bit file.
    pub class_64: bool,
    /// The machine that the program is for.
    pub machine: u16,
    /// The kind of file.
    pub file_type: u16,
    /// The address at which the program starts.
    pub entry: u64,
}

/// What the loader reads of one program header.
#[derive(Copy, Clone, Debug, PartialEq, Eq, Structural)]
pub struct ElfSegment {
    /// The type of the segment.
    pub p_type: u32,
    /// The flags of the segment.
    pub flags: u32,
    /// Where the bytes of the segment start in the file.
    pub offset: u64,
    /// The virtual address of the segment.
    pub vaddr: u64,
    /// The number of bytes of the segment in the file.
    pub filesz: u64,
    /// The number of bytes of the segment in memory.
    pub memsz: u64,
}

/// The file header that the `object` crate reads from the bytes `data` as
/// the header of a 64-bit little-endian file, or nothing where it rejects
/// them.
pub uninterp spec fn elf_header_of(data: Seq<u8>) -> Option<ElfHeader>;

/// The program headers that the `object` crate reads from the bytes `data`
/// of a 64-bit little-endian file, or nothing where it rejects the file
/// header or the table of program headers.
pub uninterp spec fn elf_segments_of(data: Seq<u8>) -> Option<Seq<ElfSegment>>;

/// Calls `FileHeader64::<LittleEndian>::parse` of the `object` crate on the
/// bytes and copies out the fields that the loader reads. The result is
/// trusted to depend on the bytes alone; nothing more is claimed of it.
#[verifier::external_body]
fn parse_elf_header(data: &[u8]) -> (r: Option<ElfHeader>)
    ensures
        r == elf_header_of(data@),
{
    let e = object::LittleEndian;
    match object::elf::FileHeader64::<object::LittleEndian>::parse(data) {
        Ok(h) => Some(
            ElfHeader {
                little_endian: h.is_little_endian(),
                class_64: h.is_class_64(),
                machine: h.e_machine(e).0,
                file_type: h.e_type(e).0,
                entry: h.e_entry(e),
            },
        ),
        Err(_) => None,
    }
}

/// Calls `FileHeader::program_headers` of the `object` crate on the header
/// that it reads from the bytes, and copies out the fields of each program
/// header that the loader reads. The result is trusted to depend on the
/// bytes alone; nothing more is claimed of it.
#[verifier::external_body]
fn parse_elf_segments(data: &[u8]) -> (r: Option<Vec<ElfSegment>>)
    ensures
        (match r {
            Some(v) => Some(v@),
            None => None,
        }) == elf_segments_of(data@),
{
    let e = object::LittleEndian;
    let h = object::elf::FileHeader64::<object::LittleEndian>::parse(data).ok()?;
    let phs = h.program_headers(e, data).ok()?;
    Some(phs.iter().map(|p| ElfSegment {
        p_type: p.p_type(e).0,
        flags: p.p_flags(e).0,
        offset: p.p_offset(e),
        vaddr: p.p_vaddr(e),
        filesz: p.p_filesz(e),
        memsz: p.p_memsz(e),
    }).collect())
}

/// Where a loaded program starts and where its stack ends.
#[derive(Copy, Clone, Debug, PartialEq, Eq, Structural)]
pub struct LoadedElf {
    /// The address of the first instruction.
    pub entry: u64,
    /// The address just above the stack.
    pub user_sp: u64,
}

/// The page-table flags of a segment with the program-header flags
/// `ph_flags`: read, write and execute as the segment has them.
pub open spec fn spec_pte_flags(ph_flags: u32) -> u8 {
    (if ph_flags & PF_R != 0 {
        PTEFlags::R
    } else {
        0u8
    }) | (if ph_flags & PF_W != 0 {
        PTEFlags::W
    } else {
        0u8
    }) | (if ph_flags & PF_X != 0 {
        PTEFlags::X
    } else {
        0u8
    })
}

/// The page-table flags of a segment with the program-header flags
/// `ph_flags`.
pub fn pte_flags_from_ph_flags(ph_flags: u32) -> (f: PTEFlags)
    ensures
        f@ == spec_pte_flags(ph_flags),
{
    let r: u8 = if ph_flags & PF_R != 0 {
        PTEFlags::R
    } else {
        0u8
    };
    let w: u8 = if ph_flags & PF_W != 0 {
        PTEFlags::W
    } else {
        0u8
    };
    let x: u8 = if ph_flags & PF_X != 0 {
        PTEFlags::X
    } else {
        0u8
    };
    PTEFlags::from_bits_truncate(r | w | x)
}

/// Whether the file header is that of a program that the loader takes: a
/// 64-bit little-endian executable for RISC-V.
pub open spec fn header_ok(h: ElfHeader) -> bool {
    h.little_endian && h.class_64 && h.machine == EM_RISCV && h.file_type == ET_EXEC
}

/// The bytes of a segment in the file `data`: none for an empty segment,
/// else those from its offset on, and nothing where they reach past the end
/// of the file.
pub open spec fn segment_data(seg: ElfSegment, data: Seq<u8>) -> Option<Seq<u8>> {
    if seg.filesz == 0 {
        Some(Seq::empty())
    } else if seg.offset + seg.filesz <= data.len() {
        Some(data.subrange(seg.offset as int, seg.offset + seg.filesz))
    } else {
        None
    }
}

/// The bytes of a segment in the file.
pub fn segment_bytes<'a>(seg: &ElfSegment, data: &'a [u8]) -> (r: Option<&'a [u8]>)
    ensures
        (match r {
            Some(b) => Some(b@),
            None => None,
        }) == segment_data(*seg, data@),
{
    if seg.filesz == 0 {
        let empty = slice_subrange(data, 0, 0);
        assert(empty@ =~= Seq::<u8>::empty());
        return Some(empty);
    }
    let len: usize = data.len();
    if seg.offset > len as u64 || seg.filesz > len as u64 - seg.offset {
        return None;
    }
    Some(slice_subrange(data, seg.offset as usize, (seg.offset + seg.filesz) as usize))
}

/// The number of pages that a segment takes in memory.
pub open spec fn load_pages(seg: ElfSegment) -> int {
    spec_page_count(seg.memsz as int)
}

/// What is wrong with a segment, if anything: a segment to load whose bytes
/// reach past the end of the file or do not fit the memory of the segment,
/// or whose memory cannot be counted or reaches past the end of the address
/// range, is malformed, and a segment that names a dynamic linker is not
/// supported.
pub open spec fn segment_fault(seg: ElfSegment, data: Seq<u8>) -> Option<KernelError> {
    if seg.p_type == PT_LOAD {
        if segment_data(seg, data).is_none() || seg.memsz > usize::MAX || load_pages(seg)
            * PAGE_SIZE > usize::MAX || seg.filesz > load_pages(seg) * PAGE_SIZE || seg.vaddr
            + seg.memsz > u64::MAX {
            Some(KernelError::ElfMalformed)
        } else {
            None
        }
    } else if seg.p_type == PT_INTERP {
        Some(KernelError::Unsupported)
    } else {
        None
    }
}

/// The number of segments to load among the first `n`.
pub open spec fn loads_before(segs: Seq<ElfSegment>, n: int) -> int
    decreases n,
{
    if n <= 0 {
        0
    } else {
        loads_before(segs, n - 1) + (if segs[n - 1].p_type == PT_LOAD {
            1int
        } else {
            0int
        })
    }
}

/// The flags of the stack that the first `n` segments ask for: user, and
/// what the stack segments among them carry.
pub open spec fn stack_flags_upto(segs: Seq<ElfSegment>, n: int) -> u8
    decreases n,
{
    if n <= 0 {
        PTEFlags::U
    } else if segs[n - 1].p_type == PT_GNU_STACK {
        stack_flags_upto(segs, n - 1) | spec_pte_flags(segs[n - 1].flags)
    } else {
        stack_flags_upto(segs, n - 1)
    }
}

/// The highest address that the first `n` segments reach in memory.
pub open spec fn vaddr_end_upto(segs: Seq<ElfSegment>, n: int) -> int
    decreases n,
{
    if n <= 0 {
        0
    } else if segs[n - 1].p_type == PT_LOAD && segs[n - 1].vaddr + segs[n - 1].memsz
        > vaddr_end_upto(segs, n - 1) {
        segs[n - 1].vaddr + segs[n - 1].memsz
    } else {
        vaddr_end_upto(segs, n - 1)
    }
}

/// Whether every segment to load starts at the start of a page.
pub open spec fn aligned_loads(segs: Seq<ElfSegment>) -> bool {
    forall|i: int|
        0 <= i < segs.len() && (#[trigger] segs[i]).p_type == PT_LOAD ==> segs[i].vaddr
            % PAGE_SIZE_U64 == 0
}

/// Whether every segment to load starts at the start of a page.
pub fn check_aligned(segments: &Vec<ElfSegment>) -> (b: bool)
    ensures
        b == aligned_loads(segments@),
{
    let mut i: usize = 0;
    while i < segments.len()
        invariant
            i <= segments@.len(),
            forall|j: int|
                0 <= j < i && (#[trigger] segments@[j]).p_type == PT_LOAD ==> segments@[j].vaddr
                    % PAGE_SIZE_U64 == 0,
        decreases segments@.len() - i,
    {
        if segments[i].p_type == PT_LOAD && segments[i].vaddr % PAGE_SIZE_U64 != 0 {
            return false;
        }
        i += 1;
    }
    true
}

/// Whether `view` is the mapping of the segment `seg` of the file `data`:
/// pages of its own at the pages of the segment, with the flags of the
/// segment and the user flag, holding the bytes of the segment and zero
/// bytes behind them.
pub open spec fn loaded_as(
    view: MappingView,
    m: crate::mm::memory::MemoryView,
    seg: ElfSegment,
    data: Seq<u8>,
) -> bool {
    &&& view == fresh_view(
        spec_pte_flags(seg.flags) | PTEFlags::U,
        seg.vaddr / PAGE_SIZE_U64,
        load_pages(seg) as nat,
        view.pages,
    )
    &&& view.pages.len() == load_pages(seg)
    &&& contents(view.pages, m) == fresh_contents(
        load_pages(seg),
        0,
        segment_data(seg, data).unwrap(),
    )
}

/// Whether the mappings `views` are those of `base` and then those of the
/// program with the header `h` and the segments `segs` of the file `data`:
/// one mapping for each segment to load, in their order, and then the
/// stack, sixteen zeroed pages one page above the last segment; and `l`
/// says where the program starts and where its stack ends.
pub open spec fn program_loaded(
    base: Seq<MappingView>,
    views: Seq<MappingView>,
    m: crate::mm::memory::MemoryView,
    h: ElfHeader,
    segs: Seq<ElfSegment>,
    data: Seq<u8>,
    l: LoadedElf,
) -> bool {
    let n = segs.len() as int;
    let top = stack_vpn(vaddr_end_upto(segs, n));
    &&& l.entry == h.entry
    &&& l.user_sp == top * PAGE_SIZE + USER_STACK_SIZE
    &&& views.len() == base.len() + loads_before(segs, n) + 1
    &&& views.subrange(0, base.len() as int) == base
    &&& forall|k: int|
        base.len() <= k < views.len() ==> (#[trigger] views[k]).paged && views[k].allows(
            PTEFlags::U,
        )
    &&& forall|i: int|
        0 <= i < n && (#[trigger] segs[i]).p_type == PT_LOAD ==> loaded_as(
            views[base.len() + loads_before(segs, i)],
            m,
            segs[i],
            data,
        )
    &&& views.last() == fresh_view(stack_flags_upto(segs, n), top as u64, 16, views.last().pages)
    &&& contents(views.last().pages, m) == zeros(USER_STACK_SIZE as int)
}

/// Whether the mappings `views` are those of `base` and then those of the
/// built-in program named `name`, as `program_loaded` says, for the header
/// and the segments that the `object` crate reads from the file.
pub open spec fn app_loaded(
    apps: Seq<AppInfo>,
    name: Seq<u8>,
    base: Seq<MappingView>,
    views: Seq<MappingView>,
    m: crate::mm::memory::MemoryView,
    l: LoadedElf,
) -> bool {
    match find_app(apps, name, 0) {
        None => false,
        Some(k) => {
            let data = apps[k].data@;
            match (elf_header_of(data), elf_segments_of(data)) {
                (Some(h), Some(segs)) => header_ok(h) && aligned_loads(segs) && program_loaded(
                    base,
                    views,
                    m,
                    h,
                    segs,
                    data,
                    l,
                ),
                _ => false,
            }
        },
    }
}

/// A program stays loaded while the pages of its own mappings stay as
/// they are.
pub proof fn lemma_app_loaded_kept(
    apps: Seq<AppInfo>,
    name: Seq<u8>,
    base: Seq<MappingView>,
    views: Seq<MappingView>,
    m0: crate::mm::memory::MemoryView,
    m1: crate::mm::memory::MemoryView,
    l: LoadedElf,
)
    requires
        app_loaded(apps, name, base, views, m0, l),
        forall|k: int, j: int|
            base.len() <= k < views.len() && 0 <= j < views[k].pages.len() ==> m1.page(
                #[trigger] views[k].pages[j],
            ) == m0.page(views[k].pages[j]),
    ensures
        app_loaded(apps, name, base, views, m1, l),
{
    let k = find_app(apps, name, 0).unwrap();
    let data = apps[k].data@;
    let segs = elf_segments_of(data).unwrap();
    let n = segs.len() as int;
    lemma_loads_nonneg(segs, n);
    assert forall|i: int| 0 <= i < n && (#[trigger] segs[i]).p_type == PT_LOAD implies loaded_as(
        views[base.len() + loads_before(segs, i)],
        m1,
        segs[i],
        data,
    ) by {
        lemma_loads_monotone(segs, i, n);
        let v = views[base.len() + loads_before(segs, i)];
        crate::mm::aspace::lemma_contents_frame(v.pages, m0, m1);
    }
    crate::mm::aspace::lemma_contents_frame(views.last().pages, m0, m1);
}

/// The mapping that a segment to load asks for, whatever frames it gets.
pub open spec fn segment_view(seg: ElfSegment) -> MappingView {
    fresh_view(
        spec_pte_flags(seg.flags) | PTEFlags::U,
        seg.vaddr / PAGE_SIZE_U64,
        load_pages(seg) as nat,
        Seq::empty(),
    )
}

/// The mapping that the stack of a program with the segments `segs` asks
/// for, whatever frames it gets.
pub open spec fn stack_view(segs: Seq<ElfSegment>) -> MappingView {
    fresh_view(
        stack_flags_upto(segs, segs.len() as int),
        stack_vpn(vaddr_end_upto(segs, segs.len() as int)) as u64,
        16,
        Seq::empty(),
    )
}

/// The mappings that are in place when the first `n` segments are loaded
/// beside the mappings `base`, whatever frames they got.
pub open spec fn placed(base: Seq<MappingView>, segs: Seq<ElfSegment>, n: int) -> Seq<MappingView>
    decreases n,
{
    if n <= 0 {
        base
    } else if segs[n - 1].p_type == PT_LOAD {
        placed(base, segs, n - 1).push(segment_view(segs[n - 1]))
    } else {
        placed(base, segs, n - 1)
    }
}

/// Whether two lists of mappings cover the same virtual ranges, one by
/// one.
pub open spec fn same_ranges(a: Seq<MappingView>, b: Seq<MappingView>) -> bool {
    &&& a.len() == b.len()
    &&& forall|j: int|
        0 <= j < a.len() ==> (#[trigger] a[j]).base_vpn == b[j].base_vpn && a[j].page_count
            == b[j].page_count
}

/// The mapping that step `i` of loading asks for: that of segment `i`, and
/// that of the stack behind the last segment.
pub open spec fn step_view(segs: Seq<ElfSegment>, i: int) -> MappingView {
    if i < segs.len() {
        segment_view(segs[i])
    } else {
        stack_view(segs)
    }
}

/// The number of tables on the way of page `v`, where it was `d`, once the
/// first `i` segments are loaded.
pub open spec fn load_depth(d: int, v: u64, segs: Seq<ElfSegment>, i: int) -> int
    decreases i,
{
    if i <= 0 {
        d
    } else if segs[i - 1].p_type == PT_LOAD {
        range_depth(
            load_depth(d, v, segs, i - 1),
            v,
            segs[i - 1].vaddr / PAGE_SIZE_U64,
            load_pages(segs[i - 1]),
        )
    } else {
        load_depth(d, v, segs, i - 1)
    }
}

/// For each page, the number of tables on its way once the first `i`
/// segments are loaded, where `d` tells the numbers before.
pub open spec fn load_depths(d: spec_fn(u64) -> int, segs: Seq<ElfSegment>, i: int) -> spec_fn(
    u64,
) -> int {
    |v: u64| load_depth(d(v), v, segs, i)
}

/// The number of frames that loading the first `i` segments takes: their
/// pages, and the tables that are missing on the ways to them.
pub open spec fn load_cost(d: spec_fn(u64) -> int, segs: Seq<ElfSegment>, i: int) -> int
    decreases i,
{
    if i <= 0 {
        0
    } else if segs[i - 1].p_type == PT_LOAD {
        load_cost(d, segs, i - 1) + load_pages(segs[i - 1]) + tables_needed_by(
            load_depths(d, segs, i - 1),
            segs[i - 1].vaddr / PAGE_SIZE_U64,
            load_pages(segs[i - 1]),
        )
    } else {
        load_cost(d, segs, i - 1)
    }
}

/// How the mapping of step `i` of loading ends, where the steps are the
/// segments and then the stack: as the mapping of fresh pages ends beside
/// the mappings that are in place, with the frames that the steps before
/// have left of the `available` ones. The stack, in addition, must lie
/// below the end of the address range.
pub open spec fn step_error(
    base: Seq<MappingView>,
    available: int,
    d: spec_fn(u64) -> int,
    segs: Seq<ElfSegment>,
    i: int,
) -> Option<KernelError> {
    let n = segs.len() as int;
    let view = step_view(segs, i);
    if i == n && vaddr_end_upto(segs, n) + 2 * PAGE_SIZE > u64::MAX {
        Some(KernelError::OutOfRange)
    } else {
        fresh_outcome(
            placed(base, segs, i),
            available - load_cost(d, segs, i),
            load_depths(d, segs, i),
            view.base_vpn,
            view.page_count as int,
        )
    }
}

/// How step `i` of loading ends: with the fault of the segment where it is
/// faulty, as its mapping ends where it is a segment to load or the stack,
/// and else well.
pub open spec fn step_result(
    base: Seq<MappingView>,
    available: int,
    d: spec_fn(u64) -> int,
    segs: Seq<ElfSegment>,
    data: Seq<u8>,
    i: int,
) -> Option<KernelError> {
    if i < segs.len() {
        match segment_fault(segs[i], data) {
            Some(f) => Some(f),
            None => if segs[i].p_type == PT_LOAD {
                step_error(base, available, d, segs, i)
            } else {
                None
            },
        }
    } else {
        step_error(base, available, d, segs, i)
    }
}

/// How loading the segments `segs` of the file `data` beside the mappings
/// `base` ends from step `i` on, when `available` frames are left before
/// the first step and `d` tells how many tables each page has on its way:
/// as the first step ends that does not end well.
pub open spec fn load_outcome(
    base: Seq<MappingView>,
    available: int,
    d: spec_fn(u64) -> int,
    segs: Seq<ElfSegment>,
    data: Seq<u8>,
    i: int,
) -> Option<KernelError>
    decreases segs.len() + 1 - i,
{
    if i < 0 || i > segs.len() {
        None
    } else {
        match step_result(base, available, d, segs, data, i) {
            Some(e) => Some(e),
            None => load_outcome(base, available, d, segs, data, i + 1),
        }
    }
}

/// The mapping of a step ends as the mapping of fresh pages ends beside
/// mappings with the ranges of those that are in place, in a page table
/// with the tables that the steps before have left.
proof fn lemma_step_error(
    base: Seq<MappingView>,
    available: int,
    d: spec_fn(u64) -> int,
    segs: Seq<ElfSegment>,
    i: int,
    views: Seq<MappingView>,
    m: crate::mm::memory::MemoryView,
    root: u64,
)
    requires
        0 <= i <= segs.len(),
        same_ranges(views, placed(base, segs, i)),
        forall|v: u64| v < VPN_LIMIT ==> #[trigger] depth(m, root, v) == load_depth(d(v), v, segs, i),
        i == segs.len() ==> vaddr_end_upto(segs, segs.len() as int) + 2 * PAGE_SIZE <= u64::MAX,
    ensures
        step_error(base, available, d, segs, i) == fresh_outcome(
            views,
            available - load_cost(d, segs, i),
            depths(m, root),
            step_view(segs, i).base_vpn,
            step_view(segs, i).page_count as int,
        ),
{
    let view = step_view(segs, i);
    let before = placed(base, segs, i);
    let probe = fresh_view(0, view.base_vpn, view.page_count, Seq::empty());
    if clashes(views, view.base_vpn, view.page_count as int) {
        let k = choose|k: int| 0 <= k < views.len() && overlaps(#[trigger] views[k], probe);
        assert(overlaps(before[k], probe));
    }
    if clashes(before, view.base_vpn, view.page_count as int) {
        let k = choose|k: int| 0 <= k < before.len() && overlaps(#[trigger] before[k], probe);
        assert(overlaps(views[k], probe));
    }
    if view.base_vpn + view.page_count <= VPN_LIMIT {
        lemma_tables_needed_agree(
            depths(m, root),
            load_depths(d, segs, i),
            view.base_vpn,
            view.page_count as int,
        );
    }
}

/// Whether none of the first `n` segments is faulty.
pub open spec fn no_fault_before(segs: Seq<ElfSegment>, data: Seq<u8>, n: int) -> bool {
    forall|j: int| 0 <= j < n && j < segs.len() ==> segment_fault(#[trigger] segs[j], data).is_none()
}

/// The first page of the stack of a program whose segments reach up to
/// `vaddr_end`: one unmapped page lies between the segments and the stack.
pub open spec fn stack_vpn(vaddr_end: int) -> int {
    (vaddr_end + PAGE_SIZE + PAGE_SIZE - 1) / (PAGE_SIZE as int)
}

/// Puts the program with the file header `header`, the program headers
/// `segments` and the file bytes `data` into the address space, in place of
/// every mapping of a user program that was there: each segment to load
/// into pages of its own, and above them the stack.
///
/// Fails with `ElfMalformed` when the header is not that of a program for
/// this machine, and then changes nothing. Else fails with the fault of the
/// first faulty segment, or with the error of a mapping that cannot be
/// made; the mappings of a user program are then gone, or some of the new
/// ones are there.
pub fn load_segments(
    space: &mut AddressSpace,
    mem: &mut PhysMemory,
    alloc: &mut LinkedStackFrameAllocator,
    header: &ElfHeader,
    segments: &Vec<ElfSegment>,
    data: &[u8],
) -> (r: Result<LoadedElf, KernelError>)
    requires
        old(mem).wf(),
        old(alloc).wf(old(mem)@),
        old(space).wf(old(mem)@, old(alloc)@),
        aligned_loads(segments@),
    ensures
        final(mem).wf(),
        final(alloc).wf(final(mem)@),
        final(space).wf(final(mem)@, final(alloc)@),
        final(space).table().spec_root() == old(space).table().spec_root(),
        changes(
            old(space).owned(),
            old(mem)@,
            old(alloc)@,
            final(space).owned(),
            final(mem)@,
            final(alloc)@,
        ),
        forall|p: u64|
            views_owned(without_user(old(space).views())).contains(p) ==> #[trigger] final(mem)@.page(p) == old(mem)@.page(p),
        !header_ok(*header) ==> r == Err::<LoadedElf, KernelError>(KernelError::ElfMalformed)
            && final(space).views() == old(space).views() && final(mem)@ == old(mem)@,
        header_ok(*header) ==> {
            let base = without_user(old(space).views());
            let views = final(space).views();
            &&& views.len() >= base.len()
            &&& views.subrange(0, base.len() as int) == base
            &&& forall|k: int|
                base.len() <= k < views.len() ==> (#[trigger] views[k]).paged && views[k].allows(
                    PTEFlags::U,
                )
        },
        header_ok(*header) ==> (r matches Ok(l) ==> program_loaded(
            without_user(old(space).views()),
            final(space).views(),
            final(mem)@,
            *header,
            segments@,
            data@,
            l,
        )),
        header_ok(*header) ==> failure(r) == load_outcome(
            without_user(old(space).views()),
            old(alloc)@.available() + old(space).user_frames(),
            depths(old(mem)@, old(space).table().spec_root()),
            segments@,
            data@,
            0,
        ),
        r.is_ok() ==> no_fault_before(segments@, data@, segments@.len() as int),
        !header_ok(*header) ==> *final(space) == *old(space) && *final(mem) == *old(mem)
            && *final(alloc) == *old(alloc),
{
    let ghost m0 = mem@;
    let ghost a0 = alloc@;
    let ghost own0 = space.owned();
    if !header.little_endian || !header.class_64 || header.machine != EM_RISCV || header.file_type
        != ET_EXEC {
        proof {
            space.lemma_owned_allocated(m0, a0);
            crate::mm::frame::lemma_changes_refl(own0, m0, a0);
        }
        return Err(KernelError::ElfMalformed);
    }
    proof {
        lemma_base_owned(space.views());
    }
    space.clean_user(mem, alloc);
    let ghost base = space.views();
    let ghost mc = mem@;
    let ghost segs = segments@;
    let ghost root = space.table().spec_root();
    let ghost d0 = depths(m0, root);
    let ghost left = alloc@.available();
    let mut elf_vaddr_end: u64 = 0;
    let mut stack_pte_flags = PTEFlags::from_bits_truncate(PTEFlags::U);
    let mut i: usize = 0;
    proof {
        assert(space.views().subrange(0, base.len() as int) =~= base);
        assert(same_ranges(space.views(), placed(base, segs, 0)));
    }
    while i < segments.len()
        invariant
            i <= segments@.len(),
            segs == segments@,
            aligned_loads(segs),
            m0 == old(mem)@,
            a0 == old(alloc)@,
            own0 == old(space).owned(),
            base == without_user(old(space).views()),
            header_ok(*header),
            mem.wf(),
            alloc.wf(mem@),
            space.wf(mem@, alloc@),
            space.table().spec_root() == old(space).table().spec_root(),
            changes(own0, m0, a0, space.owned(), mem@, alloc@),
            forall|p: u64| views_owned(base).contains(p) ==> #[trigger] mem@.page(p) == m0.page(p),
            forall|p: u64|
                views_owned(base).contains(p) ==> #[trigger] views_owned(space.views()).contains(p),
            elf_vaddr_end == vaddr_end_upto(segs, i as int),
            stack_pte_flags@ == stack_flags_upto(segs, i as int),
            0 <= loads_before(segs, i as int),
            space.views().len() == base.len() + loads_before(segs, i as int),
            space.views().subrange(0, base.len() as int) == base,
            forall|k: int|
                base.len() <= k < space.views().len() ==> (#[trigger] space.views()[k]).paged
                    && space.views()[k].allows(PTEFlags::U),
            forall|j: int|
                0 <= j < i && (#[trigger] segs[j]).p_type == PT_LOAD ==> loaded_as(
                    space.views()[base.len() + loads_before(segs, j)],
                    mem@,
                    segs[j],
                    data@,
                ),
            no_fault_before(segs, data@, i as int),
            same_ranges(space.views(), placed(base, segs, i as int)),
            root == space.table().spec_root(),
            d0 == depths(m0, root),
            left == a0.available() + old(space).user_frames(),
            alloc@.available() == left - load_cost(d0, segs, i as int),
            forall|v: u64|
                v < VPN_LIMIT ==> #[trigger] depth(mem@, root, v) == load_depth(
                    d0(v),
                    v,
                    segs,
                    i as int,
                ),
            load_outcome(base, left, d0, segs, data@, 0) == load_outcome(
                base,
                left,
                d0,
                segs,
                data@,
                i as int,
            ),
        decreases segments@.len() - i,
    {
        let seg = segments[i];
        let ghost m1 = mem@;
        let ghost a1 = alloc@;
        let ghost own1 = space.owned();
        let ghost views1 = space.views();
        if seg.p_type == PT_LOAD {
            let bytes = match segment_bytes(&seg, data) {
                Some(b) => b,
                None => {
                    assert(step_result(base, left, d0, segs, data@, i as int) == Some(
                        KernelError::ElfMalformed,
                    ));
                    return Err(KernelError::ElfMalformed);
                },
            };
            if seg.memsz > usize::MAX as u64 || seg.vaddr > u64::MAX - seg.memsz {
                assert(step_result(base, left, d0, segs, data@, i as int) == Some(
                    KernelError::ElfMalformed,
                ));
                return Err(KernelError::ElfMalformed);
            }
            let pages: usize = page_count(seg.memsz as usize);
            if pages > usize::MAX / PAGE_SIZE || bytes.len() > pages * PAGE_SIZE {
                assert(segment_fault(segs[i as int], data@) == Some(KernelError::ElfMalformed));
                assert(step_result(base, left, d0, segs, data@, i as int) == Some(
                    KernelError::ElfMalformed,
                ));
                return Err(KernelError::ElfMalformed);
            }
            assert(segment_fault(segs[i as int], data@).is_none());
            let mut pte_flags = pte_flags_from_ph_flags(seg.flags);
            pte_flags.insert(PTEFlags::from_bits_truncate(PTEFlags::U));
            let r = space.map_fresh(
                mem,
                alloc,
                VirtPageNum(seg.vaddr / PAGE_SIZE_U64),
                pages,
                pte_flags,
                0,
                bytes,
            );
            proof {
                lemma_changes_trans(own0, m0, a0, own1, m1, a1, space.owned(), mem@, alloc@);
                assert forall|p: u64| views_owned(base).contains(p) implies #[trigger] mem@.page(p)
                    == m0.page(p) by {
                    assert(views_owned(views1).contains(p));
                    assert(m1.page(p) == m0.page(p));
                }
                assert(step_view(segs, i as int) == segment_view(seg));
                lemma_step_error(base, left, d0, segs, i as int, views1, m1, root);
                assert(step_result(base, left, d0, segs, data@, i as int) == failure(r));
                if r.is_ok() {
                    assert forall|v: u64| v < VPN_LIMIT implies #[trigger] depth(mem@, root, v)
                        == load_depth(d0(v), v, segs, i + 1) by {
                        assert(depth(m1, root, v) == load_depth(d0(v), v, segs, i as int));
                    }
                    lemma_tables_needed_agree(
                        depths(m1, root),
                        load_depths(d0, segs, i as int),
                        (seg.vaddr / PAGE_SIZE_U64) as u64,
                        pages as int,
                    );
                }
            }
            match r {
                Ok(()) => {},
                Err(e) => {
                    return Err(e);
                },
            }
            proof {
                let after = placed(base, segs, i + 1);
                assert(after == placed(base, segs, i as int).push(segment_view(seg)));
                let views2 = space.views();
                assert forall|j: int| 0 <= j < views2.len() implies (#[trigger] views2[j]).base_vpn
                    == after[j].base_vpn && views2[j].page_count == after[j].page_count by {
                    if j < views1.len() {
                        assert(views2.drop_last()[j] == views1[j]);
                    }
                }
            }
            proof {
                let views2 = space.views();
                assert forall|p: u64| views_owned(base).contains(p) implies #[trigger] views_owned(
                    views2,
                ).contains(p) by {
                    assert(views_owned(views1).contains(p));
                    let j = choose|j: int|
                        0 <= j < views1.len() && #[trigger] views1[j].owned().contains(p);
                    assert(views2.drop_last()[j] == views1[j]);
                    assert(views2[j].owned().contains(p));
                }
                let f = pte_flags@;
                let g = spec_pte_flags(seg.flags);
                assert(f & 16u8 == 16u8) by (bit_vector)
                    requires
                        f == g | 16u8,
                ;
                assert(views2.subrange(0, base.len() as int) =~= base) by {
                    assert forall|k: int| 0 <= k < base.len() implies views2[k] == base[k] by {
                        assert(views2.drop_last()[k] == views1[k]);
                        assert(views1.subrange(0, base.len() as int)[k] == base[k]);
                    }
                }
                assert forall|k: int| base.len() <= k < views2.len() implies (#[trigger] views2[k]).paged
                    && views2[k].allows(PTEFlags::U) by {
                    if k < views1.len() {
                        assert(views2.drop_last()[k] == views1[k]);
                    }
                }
                assert(bytes@.subrange(0, bytes@.len() as int) =~= bytes@);
                assert forall|j: int| 0 <= j < i + 1 && (#[trigger] segs[j]).p_type == PT_LOAD
                    implies loaded_as(
                    views2[base.len() + loads_before(segs, j)],
                    mem@,
                    segs[j],
                    data@,
                ) by {
                    if j < i {
                        lemma_loads_monotone(segs, j, i as int);
                        let at = base.len() + loads_before(segs, j);
                        let view = views1[at];
                        assert(views2.drop_last()[at] == view);
                        assert(loaded_as(view, m1, segs[j], data@));
                        assert forall|x: int| 0 <= x < view.pages.len() implies mem@.page(
                            #[trigger] view.pages[x],
                        ) == m1.page(view.pages[x]) by {
                            assert(view.pages.contains(view.pages[x]));
                            assert(views1[at].owned().contains(view.pages[x]));
                            assert(views_owned(views1).contains(view.pages[x]));
                        }
                        lemma_contents_frame(view.pages, m1, mem@);
                    } else {
                        assert(views2[base.len() + loads_before(segs, j)] == views2.last());
                    }
                }
            }
            if seg.vaddr + seg.memsz > elf_vaddr_end {
                elf_vaddr_end = seg.vaddr + seg.memsz;
            }
        } else if seg.p_type == PT_GNU_STACK {
            stack_pte_flags.insert(pte_flags_from_ph_flags(seg.flags));
        } else if seg.p_type == PT_INTERP {
            assert(step_result(base, left, d0, segs, data@, i as int) == Some(
                KernelError::Unsupported,
            ));
            return Err(KernelError::Unsupported);
        }
        proof {
            if seg.p_type != PT_LOAD {
                assert(placed(base, segs, i + 1) == placed(base, segs, i as int));
                assert(step_result(base, left, d0, segs, data@, i as int).is_none());
            }
        }
        i += 1;
    }
    if elf_vaddr_end > u64::MAX - 2 * PAGE_SIZE_U64 {
        assert(step_result(base, left, d0, segs, data@, segs.len() as int) == Some(
            KernelError::OutOfRange,
        ));
        return Err(KernelError::OutOfRange);
    }
    let top: u64 = (elf_vaddr_end + PAGE_SIZE_U64 + PAGE_SIZE_U64 - 1) / PAGE_SIZE_U64;
    let ghost m1 = mem@;
    let ghost a1 = alloc@;
    let ghost own1 = space.owned();
    let ghost views1 = space.views();
    let none = slice_subrange(data, 0, 0);
    let r = space.map_fresh(
        mem,
        alloc,
        VirtPageNum(top),
        USER_STACK_SIZE / PAGE_SIZE,
        stack_pte_flags,
        0,
        none,
    );
    proof {
        lemma_changes_trans(own0, m0, a0, own1, m1, a1, space.owned(), mem@, alloc@);
        lemma_stack_flags_user(segs, segs.len() as int);
        assert forall|p: u64| views_owned(base).contains(p) implies #[trigger] mem@.page(p)
            == m0.page(p) by {
            assert(views_owned(views1).contains(p));
            assert(m1.page(p) == m0.page(p));
        }
        let n = segs.len() as int;
        assert(step_view(segs, n) == stack_view(segs));
        lemma_step_error(base, left, d0, segs, n, views1, m1, root);
        assert(step_result(base, left, d0, segs, data@, n) == failure(r));
        assert(load_outcome(base, left, d0, segs, data@, n + 1).is_none());
    }
    match r {
        Ok(()) => {},
        Err(e) => {
            return Err(e);
        },
    }
    proof {
        let views2 = space.views();
        assert(views2.subrange(0, base.len() as int) =~= base) by {
            assert forall|k: int| 0 <= k < base.len() implies views2[k] == base[k] by {
                assert(views2.drop_last()[k] == views1[k]);
                assert(views1.subrange(0, base.len() as int)[k] == base[k]);
            }
        }
        assert forall|k: int| base.len() <= k < views2.len() implies (#[trigger] views2[k]).paged
            && views2[k].allows(PTEFlags::U) by {
            if k < views1.len() {
                assert(views2.drop_last()[k] == views1[k]);
            }
        }
        assert forall|j: int| 0 <= j < segs.len() && (#[trigger] segs[j]).p_type == PT_LOAD
            implies loaded_as(views2[base.len() + loads_before(segs, j)], mem@, segs[j], data@) by {
            lemma_loads_monotone(segs, j, segs.len() as int);
            let at = base.len() + loads_before(segs, j);
            let view = views1[at];
            assert(views2.drop_last()[at] == view);
            assert(loaded_as(view, m1, segs[j], data@));
            assert forall|x: int| 0 <= x < view.pages.len() implies mem@.page(
                #[trigger] view.pages[x],
            ) == m1.page(view.pages[x]) by {
                assert(view.pages.contains(view.pages[x]));
                assert(views1[at].owned().contains(view.pages[x]));
                assert(views_owned(views1).contains(view.pages[x]));
            }
            lemma_contents_frame(view.pages, m1, mem@);
        }
        assert(contents(views2.last().pages, mem@) =~= zeros(USER_STACK_SIZE as int));
    }
    Ok(LoadedElf { entry: header.entry, user_sp: top * PAGE_SIZE_U64 + USER_STACK_SIZE as u64 })
}

/// What the mappings own that are left when those of a user program are
/// taken away, the mappings owned before.
pub proof fn lemma_base_owned(views: Seq<MappingView>)
    ensures
        forall|p: u64| #[trigger]
            views_owned(without_user(views)).contains(p) ==> views_owned(views).contains(p),
{
    crate::mm::aspace::lemma_without_user(views);
    let base = without_user(views);
    assert forall|p: u64| #[trigger] views_owned(base).contains(p) implies views_owned(
        views,
    ).contains(p) by {
        let j = choose|j: int| 0 <= j < base.len() && #[trigger] base[j].owned().contains(p);
        assert(views.contains(base[j]));
        let k = choose|k: int| 0 <= k < views.len() && views[k] == base[j];
        assert(views[k].owned().contains(p));
    }
}

/// A segment to load among the first `n` is counted before the `n`th.
pub proof fn lemma_loads_monotone(segs: Seq<ElfSegment>, j: int, n: int)
    requires
        0 <= j < n <= segs.len(),
        segs[j].p_type == PT_LOAD,
    ensures
        0 <= loads_before(segs, j) < loads_before(segs, n),
    decreases n,
{
    lemma_loads_nonneg(segs, j);
    if n - 1 > j {
        lemma_loads_monotone(segs, j, n - 1);
    }
}

/// The number of segments to load among the first `n` is not negative.
pub proof fn lemma_loads_nonneg(segs: Seq<ElfSegment>, n: int)
    ensures
        0 <= loads_before(segs, n),
    decreases n,
{
    if n > 0 {
        lemma_loads_nonneg(segs, n - 1);
    }
}

/// The flags of the stack carry the user flag.
pub proof fn lemma_stack_flags_user(segs: Seq<ElfSegment>, n: int)
    ensures
        stack_flags_upto(segs, n) & PTEFlags::U == PTEFlags::U,
    decreases n,
{
    if n <= 0 {
        assert(16u8 & 16u8 == 16u8) by (bit_vector);
    } else {
        lemma_stack_flags_user(segs, n - 1);
        let a = stack_flags_upto(segs, n - 1);
        let b = spec_pte_flags(segs[n - 1].flags);
        assert((a | b) & 16u8 == 16u8) by (bit_vector)
            requires
                a & 16u8 == 16u8,
        ;
    }
}

/// One built-in program: its name and the bytes of its file.
pub struct AppInfo {
    pub name: Vec<u8>,
    pub data: Vec<u8>,
}

/// The programs that are built into the kernel.
pub struct AppManager {
    apps: Vec<AppInfo>,
}

/// The position of the first program from position `from` on whose name is
/// `name`.
pub open spec fn find_app(apps: Seq<AppInfo>, name: Seq<u8>, from: int) -> Option<int>
    decreases apps.len() - from,
{
    if from < 0 || from >= apps.len() {
        None
    } else if apps[from].name@ == name {
        Some(from)
    } else {
        find_app(apps, name, from + 1)
    }
}

/// Whether two runs of bytes are the same.
pub fn same_bytes(a: &[u8], b: &[u8]) -> (r: bool)
    ensures
        r == (a@ == b@),
{
    if a.len() != b.len() {
        return false;
    }
    let mut i: usize = 0;
    while i < a.len()
        invariant
            i <= a@.len(),
            a@.len() == b@.len(),
            forall|j: int| 0 <= j < i ==> a@[j] == b@[j],
        decreases a@.len() - i,
    {
        if a[i] != b[i] {
            return false;
        }
        i += 1;
    }
    assert(a@ =~= b@);
    true
}

/// Whether `e` is the error that loading the program named `name` from
/// the programs `apps` ends with, beside the mappings `views`, where
/// `available` frames are left once the mappings of a user program are
/// given back and `d` tells how many tables each page has on its way:
/// there is no program of that name; the file is rejected, is not a
/// program for the machine, or has a segment to load that does not start a
/// page; or a step of the loading does not end well, and `e` is what the
/// first such step ends with.
pub open spec fn elf_load_error(
    apps: Seq<AppInfo>,
    name: Seq<u8>,
    views: Seq<MappingView>,
    available: int,
    d: spec_fn(u64) -> int,
    e: KernelError,
) -> bool {
    match find_app(apps, name, 0) {
        None => e == KernelError::NotFound,
        Some(k) => {
            let data = apps[k].data@;
            match (elf_header_of(data), elf_segments_of(data)) {
                (Some(h), Some(segs)) => if aligned_loads(segs) && header_ok(h) {
                    load_outcome(without_user(views), available, d, segs, data, 0) == Some(e)
                } else {
                    e == KernelError::ElfMalformed
                },
                _ => e == KernelError::ElfMalformed,
            }
        },
    }
}

/// Whether loading the program named `name` from the programs `apps` ends
/// well beside the mappings `views`, where `available` frames are left once
/// the mappings of a user program are given back and `d` tells how many
/// tables each page has on its way: there is such a program, the file is a
/// program for the machine, and every step of the loading ends well.
pub open spec fn elf_loads(
    apps: Seq<AppInfo>,
    name: Seq<u8>,
    views: Seq<MappingView>,
    available: int,
    d: spec_fn(u64) -> int,
) -> bool {
    match find_app(apps, name, 0) {
        None => false,
        Some(k) => {
            let data = apps[k].data@;
            match (elf_header_of(data), elf_segments_of(data)) {
                (Some(h), Some(segs)) => aligned_loads(segs) && header_ok(h) && load_outcome(
                    without_user(views),
                    available,
                    d,
                    segs,
                    data,
                    0,
                ).is_none(),
                _ => false,
            }
        },
    }
}

/// Whether the program named `name` is turned away before anything is
/// done: there is no program of that name, the `object` crate rejects the
/// file, a segment to load does not start a page, or the file is not a
/// program for the machine.
pub open spec fn elf_rejected(apps: Seq<AppInfo>, name: Seq<u8>) -> bool {
    match find_app(apps, name, 0) {
        None => true,
        Some(k) => {
            let data = apps[k].data@;
            match (elf_header_of(data), elf_segments_of(data)) {
                (Some(h), Some(segs)) => !aligned_loads(segs) || !header_ok(h),
                _ => true,
            }
        },
    }
}

/// Whether the program named `name` has a faulty segment, one that is
/// malformed or names a dynamic linker.
pub open spec fn elf_faulty(apps: Seq<AppInfo>, name: Seq<u8>) -> bool {
    match find_app(apps, name, 0) {
        None => false,
        Some(k) => {
            let data = apps[k].data@;
            match (elf_header_of(data), elf_segments_of(data)) {
                (Some(h), Some(segs)) => !no_fault_before(segs, data, segs.len() as int),
                _ => false,
            }
        },
    }
}

impl AppManager {
    /// The programs, in their order.
    pub closed spec fn apps(&self) -> Seq<AppInfo> {
        self.apps@
    }

    /// The table of the programs `apps`, of which there must be no more
    /// than the table holds.
    pub fn new(apps: Vec<AppInfo>) -> (m: AppManager)
        requires
            apps@.len() <= MAX_APP_NUM,
        ensures
            m.apps() == apps@,
    {
        AppManager { apps }
    }

    /// The number of programs.
    pub fn app_num(&self) -> (n: usize)
        ensures
            n == self.apps().len(),
    {
        self.apps.len()
    }

    /// The name of the program that is started first: that of the first
    /// program.
    pub fn init_app(&self) -> (r: Option<&Vec<u8>>)
        ensures
            r.is_some() == (self.apps().len() > 0),
            r matches Some(name) ==> name@ == self.apps()[0].name@,
    {
        if self.apps.len() > 0 {
            Some(&self.apps[0].name)
        } else {
            None
        }
    }

    /// The name of the program at position `id`.
    pub fn name_of(&self, id: usize) -> (r: Option<&Vec<u8>>)
        ensures
            r.is_some() == (id < self.apps().len()),
            r matches Some(name) ==> name@ == self.apps()[id as int].name@,
    {
        if id < self.apps.len() {
            Some(&self.apps[id].name)
        } else {
            None
        }
    }

    /// The position of the first program named `name`.
    pub fn find(&self, name: &[u8]) -> (r: Option<usize>)
        ensures
            (match r {
                Some(k) => Some(k as int),
                None => None,
            }) == find_app(self.apps(), name@, 0),
            r matches Some(k) ==> k < self.apps().len(),
    {
        let mut i: usize = 0;
        while i < self.apps.len()
            invariant
                i <= self.apps@.len(),
                find_app(self.apps(), name@, 0) == find_app(self.apps(), name@, i as int),
            decreases self.apps@.len() - i,
        {
            if same_bytes(self.apps[i].name.as_slice(), name) {
                return Some(i);
            }
            i += 1;
        }
        None
    }

    /// Puts the program named `name` into the address space, in place of
    /// every mapping of a user program that was there.
    ///
    /// Fails with `NotFound`, and changes nothing, when there is no program
    /// of that name; with `ElfMalformed`, and changes nothing, when the
    /// `object` crate rejects the file, a segment to load does not start at
    /// the start of a page, or the file is not a program for the machine;
    /// and else as the loading of the segments fails, which it does where a
    /// segment is faulty.
    pub fn load_elf(
        &self,
        name: &[u8],
        space: &mut AddressSpace,
        mem: &mut PhysMemory,
        alloc: &mut LinkedStackFrameAllocator,
    ) -> (r: Result<LoadedElf, KernelError>)
        requires
            old(mem).wf(),
            old(alloc).wf(old(mem)@),
            old(space).wf(old(mem)@, old(alloc)@),
        ensures
            final(mem).wf(),
            final(alloc).wf(final(mem)@),
            final(space).wf(final(mem)@, final(alloc)@),
            final(space).table().spec_root() == old(space).table().spec_root(),
            changes(
                old(space).owned(),
                old(mem)@,
                old(alloc)@,
                final(space).owned(),
                final(mem)@,
                final(alloc)@,
            ),
            ({
                let base = without_user(old(space).views());
                let views = final(space).views();
                views == old(space).views() || {
                    &&& views.len() >= base.len()
                    &&& views.subrange(0, base.len() as int) == base
                    &&& forall|k: int|
                        base.len() <= k < views.len() ==> (#[trigger] views[k]).paged
                            && views[k].allows(PTEFlags::U)
                }
            }),
            forall|p: u64|
                views_owned(without_user(old(space).views())).contains(p) ==> #[trigger] final(mem)@.page(p) == old(mem)@.page(p),
            r matches Err(e) ==> elf_load_error(
                self.apps(),
                name@,
                old(space).views(),
                old(alloc)@.available() + old(space).user_frames(),
                depths(old(mem)@, old(space).table().spec_root()),
                e,
            ),
            r.is_ok() ==> elf_loads(
                self.apps(),
                name@,
                old(space).views(),
                old(alloc)@.available() + old(space).user_frames(),
                depths(old(mem)@, old(space).table().spec_root()),
            ),
            r matches Ok(l) ==> app_loaded(
                self.apps(),
                name@,
                without_user(old(space).views()),
                final(space).views(),
                final(mem)@,
                l,
            ),
            elf_rejected(self.apps(), name@) ==> r.is_err() && *final(space) == *old(space)
                && *final(mem) == *old(mem) && *final(alloc) == *old(alloc),
            elf_faulty(self.apps(), name@) ==> r.is_err(),
            find_app(self.apps(), name@, 0).is_none() ==> r == Err::<LoadedElf, KernelError>(
                KernelError::NotFound,
            ) && final(space).views() == old(space).views(),
            find_app(self.apps(), name@, 0) matches Some(k) ==> {
                let data = self.apps()[k].data@;
                match (elf_header_of(data), elf_segments_of(data)) {
                    (Some(h), Some(segs)) => if aligned_loads(segs) {
                        &&& header_ok(h) ==> (r matches Ok(l) ==> l.entry == h.entry && l.user_sp
                            == stack_vpn(vaddr_end_upto(segs, segs.len() as int)) * PAGE_SIZE
                            + USER_STACK_SIZE)
                        &&& !header_ok(h) ==> r == Err::<LoadedElf, KernelError>(
                            KernelError::ElfMalformed,
                        )
                    } else {
                        r == Err::<LoadedElf, KernelError>(KernelError::ElfMalformed) && final(space).views() == old(space).views()
                    },
                    _ => r == Err::<LoadedElf, KernelError>(KernelError::ElfMalformed) && final(space).views() == old(space).views(),
                }
            },
    {
        proof {
            space.lemma_owned_allocated(mem@, alloc@);
            crate::mm::frame::lemma_changes_refl(space.owned(), mem@, alloc@);
        }
        let k = match self.find(name) {
            Some(k) => k,
            None => {
                return Err(KernelError::NotFound);
            },
        };
        let data = self.apps[k].data.as_slice();
        let header = match parse_elf_header(data) {
            Some(h) => h,
            None => {
                return Err(KernelError::ElfMalformed);
            },
        };
        let segments = match parse_elf_segments(data) {
            Some(s) => s,
            None => {
                return Err(KernelError::ElfMalformed);
            },
        };
        if !check_aligned(&segments) {
            return Err(KernelError::ElfMalformed);
        }
        load_segments(space, mem, alloc, &header, &segments, data)
    }
}

} // verus!
