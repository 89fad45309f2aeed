//! The address spaces that the kernel builds: its own, with the kernel
//! image mapped where it lies, and the one that every user program starts
//! from.

use vstd::prelude::*;
use crate::error::{failure, KernelError};
use super::addr::{PhysAddr, VirtAddr, VirtPageNum, PAGE_SIZE, PAGE_SIZE_U64, VPN_LIMIT};
use super::aspace::{fresh_view, map_outcome, confined, overlaps, AddressSpace, MappingView};
use super::frame::{
    changes, lemma_changes_lift, lemma_changes_refl, lemma_changes_shape, lemma_changes_trans,
    LinkedStackFrameAllocator,
};
use super::memory::{zero_page, MemoryView, PhysMemory};
use super::page_table::{
    depth, depths, lemma_range_depth_bounds, lemma_range_depth_outside, lemma_tables_needed_agree,
    lemma_tables_needed_by,
    mapped_depths, range_depth, tables_needed, tables_needed_by, PTEFlags,
};
use super::vmo::{pages_in, Vmo, VMObject, VMObjectPaged, VMObjectPhysical};

verus! {

/// Flags of a mapping that can be read and executed.
pub const FLAGS_RX: u8 = 10;

/// Flags of a mapping that can be read.
pub const FLAGS_R: u8 = 2;

/// Flags of a mapping that can be read and written.
pub const FLAGS_RW: u8 = 6;

/// Where the parts of the kernel image and the frames of the allocator lie
/// in physical memory: for each part its first byte and the byte after its
/// last.
pub struct KernelLayout {
    pub stext: u64,
    pub etext: u64,
    pub srodata: u64,
    pub erodata: u64,
    pub sdata: u64,
    pub edata: u64,
    pub sstack: u64,
    pub estack: u64,
    pub sbss: u64,
    pub ebss: u64,
    pub sframe: u64,
    pub eframe: u64,
}

/// One part of the kernel image: its first byte, the byte after its last,
/// and the flags that it is mapped with.
pub struct Region {
    pub start: u64,
    pub end: u64,
    pub flags: u8,
}

/// The first page after the bytes up to `end`.
pub open spec fn ceil_page(end: u64) -> int {
    (end + PAGE_SIZE - 1) / (PAGE_SIZE as int)
}

/// The mapping that shows the pages of a region at their own addresses.
pub open spec fn identity_view(r: Region) -> MappingView {
    MappingView {
        flags: r.flags,
        base_vpn: r.start / PAGE_SIZE_U64,
        page_count: (ceil_page(r.end) - r.start / PAGE_SIZE_U64) as nat,
        vmo_page_offset: 0,
        pages: Seq::new(
            (ceil_page(r.end) - r.start / PAGE_SIZE_U64) as nat,
            |i: int| (r.start / PAGE_SIZE_U64 + i) as u64,
        ),
        paged: false,
    }
}

/// Why a region cannot be mapped at its own addresses beside the mappings
/// `views`, if it cannot: its end lies before its start, it reaches out of
/// RAM or out of the virtual address space, or it shares a page with one of
/// the mappings.
pub open spec fn identity_fault(views: Seq<MappingView>, m: MemoryView, r: Region) -> Option<
    KernelError,
> {
    if r.end < r.start {
        Some(KernelError::InvalidArgument)
    } else if !(m.base <= r.start / PAGE_SIZE_U64 && ceil_page(r.end) <= m.base + m.pages.len()) {
        Some(KernelError::OutOfRange)
    } else if ceil_page(r.end) > VPN_LIMIT {
        Some(KernelError::OutOfRange)
    } else if exists|k: int| 0 <= k < views.len() && overlaps(#[trigger] views[k], identity_view(r)) {
        Some(KernelError::Overlap)
    } else {
        None
    }
}

/// Maps the pages of a region at their own addresses.
pub fn identity_map(
    space: &mut AddressSpace,
    mem: &mut PhysMemory,
    alloc: &mut LinkedStackFrameAllocator,
    region: Region,
) -> (r: Result<(), KernelError>)
    requires
        old(mem).wf(),
        old(alloc).wf(old(mem)@),
        old(space).wf(old(mem)@, old(alloc)@),
    ensures
        final(mem).wf(),
        final(alloc).wf(final(mem)@),
        final(space).wf(final(mem)@, final(alloc)@),
        final(space).table().spec_root() == old(space).table().spec_root(),
        changes(
            old(space).owned(),
            old(mem)@,
            old(alloc)@,
            final(space).owned(),
            final(mem)@,
            final(alloc)@,
        ),
        r.is_ok() ==> final(space).views() == old(space).views().push(identity_view(region)),
        r.is_err() ==> final(space).views() == old(space).views(),
        identity_fault(old(space).views(), old(mem)@, region) matches Some(e) ==> r == Err::<
            (),
            KernelError,
        >(e),
        failure(r) == place_outcome(
            identity_fault(old(space).views(), old(mem)@, region),
            old(alloc)@.available(),
            depths(old(mem)@, old(space).table().spec_root()),
            identity_view(region),
        ),
        r.is_ok() ==> final(alloc)@.available() == old(alloc)@.available() - tables_needed(
            old(mem)@,
            old(space).table().spec_root(),
            identity_view(region).base_vpn,
            identity_view(region).page_count as int,
        ),
        r.is_ok() ==> depths(final(mem)@, final(space).table().spec_root()) == mapped_depths(
            depths(old(mem)@, old(space).table().spec_root()),
            identity_view(region).base_vpn,
            identity_view(region).page_count as int,
        ),
{
    if region.end < region.start {
        proof {
            space.lemma_owned_allocated(mem@, alloc@);
            lemma_changes_refl(space.owned(), mem@, alloc@);
        }
        return Err(KernelError::InvalidArgument);
    }
    let base_page: u64 = region.start / PAGE_SIZE_U64;
    let end_page: u64 = if region.end % PAGE_SIZE_U64 == 0 {
        region.end / PAGE_SIZE_U64
    } else {
        region.end / PAGE_SIZE_U64 + 1
    };
    let ram_base: u64 = mem.base().0;
    let ram_count: usize = mem.page_count();
    if !(ram_base <= base_page && end_page <= ram_base + ram_count as u64) {
        proof {
            space.lemma_owned_allocated(mem@, alloc@);
            lemma_changes_refl(space.owned(), mem@, alloc@);
        }
        return Err(KernelError::OutOfRange);
    }
    let vmo = VMObjectPhysical::from_range(PhysAddr(region.start), PhysAddr(region.end));
    let ghost view = identity_view(region);
    proof {
        assert(vmo.pages() =~= view.pages);
        assert(pages_in(vmo.pages(), mem@));
        space.lemma_owned_allocated(mem@, alloc@);
    }
    let whole = Vmo::Physical(vmo);
    proof {
        assert(space.owned().union(whole.owned()) =~= space.owned());
    }
    let ghost m0 = mem@;
    let ghost root = space.table().spec_root();
    let ghost views0 = space.views();
    let r = space.map(
        mem,
        alloc,
        whole,
        0,
        VirtPageNum(base_page),
        None,
        PTEFlags::from_bits_truncate(region.flags),
    );
    proof {
        let probe = fresh_view(0, view.base_vpn, view.page_count, Seq::empty());
        assert forall|k: int| 0 <= k < views0.len() implies overlaps(#[trigger] views0[k], probe)
            == overlaps(views0[k], view) by {}
        if r.is_ok() {
            lemma_mapped_depths(m0, mem@, root, view.base_vpn, view.page_count as int);
        }
    }
    r
}

/// Where every page of the address space has in memory `m1` the tables on
/// its way that mapping `n` pages from `base` on leaves of those in `m0`,
/// the numbers of tables are those after the mapping.
pub proof fn lemma_mapped_depths(m0: MemoryView, m1: MemoryView, root: u64, base: u64, n: int)
    requires
        base + n <= VPN_LIMIT,
        forall|v: u64|
            v < VPN_LIMIT ==> #[trigger] depth(m1, root, v) == range_depth(
                depth(m0, root, v),
                v,
                base,
                n,
            ),
    ensures
        depths(m1, root) == mapped_depths(depths(m0, root), base, n),
{
    assert forall|v: u64| #[trigger] depths(m1, root)(v) == mapped_depths(
        depths(m0, root),
        base,
        n,
    )(v) by {
        if v >= VPN_LIMIT {
            lemma_range_depth_outside(0, v, base, n);
        }
    }
    assert(depths(m1, root) =~= mapped_depths(depths(m0, root), base, n));
}

/// How the mapping of `view` ends where `fault` tells what is wrong with
/// it, if anything, `available` frames are left and `d` tells how many
/// tables each page has on its way: with the fault where there is one, else
/// with `OutOfFrames` where the frames are fewer than the tables that are
/// missing, and else well.
pub open spec fn place_outcome(
    fault: Option<KernelError>,
    available: int,
    d: spec_fn(u64) -> int,
    view: MappingView,
) -> Option<KernelError> {
    match fault {
        Some(e) => Some(e),
        None => if available < tables_needed_by(d, view.base_vpn, view.page_count as int) {
            Some(KernelError::OutOfFrames)
        } else {
            None
        },
    }
}

/// The mapping of step `i` of building the kernel's address space.
pub open spec fn kernel_view(layout: KernelLayout, trampoline: Seq<u64>, i: int) -> MappingView {
    if i < 6 {
        identity_view(kernel_regions(layout)[i])
    } else {
        trampoline_view(trampoline)
    }
}

/// For each page, the number of tables on its way once the first `i`
/// steps of building the kernel's address space are done.
pub open spec fn kernel_depths(layout: KernelLayout, trampoline: Seq<u64>, i: int) -> spec_fn(
    u64,
) -> int
    decreases i,
{
    if i <= 0 {
        zero_depths()
    } else {
        mapped_depths(
            kernel_depths(layout, trampoline, i - 1),
            kernel_view(layout, trampoline, i - 1).base_vpn,
            kernel_view(layout, trampoline, i - 1).page_count as int,
        )
    }
}

/// The number of frames that the first `i` steps of building the kernel's
/// address space take for tables below the root.
pub open spec fn kernel_cost(layout: KernelLayout, trampoline: Seq<u64>, i: int) -> int
    decreases i,
{
    if i <= 0 {
        0
    } else {
        kernel_cost(layout, trampoline, i - 1) + tables_needed_by(
            kernel_depths(layout, trampoline, i - 1),
            kernel_view(layout, trampoline, i - 1).base_vpn,
            kernel_view(layout, trampoline, i - 1).page_count as int,
        )
    }
}

/// How the building of the kernel's address space ends from step `i` on,
/// when `available` frames are left before the root of the page table is
/// made: as the first step ends that does not end well.
pub open spec fn kernel_steps_outcome(
    layout: KernelLayout,
    m: MemoryView,
    trampoline: Seq<u64>,
    available: int,
    i: int,
) -> Option<KernelError>
    decreases 7 - i,
{
    if i < 0 || i > 6 {
        None
    } else {
        match place_outcome(
            kernel_step_fault(layout, m, trampoline, i),
            available - 1 - kernel_cost(layout, trampoline, i),
            kernel_depths(layout, trampoline, i),
            kernel_view(layout, trampoline, i),
        ) {
            Some(e) => Some(e),
            None => kernel_steps_outcome(layout, m, trampoline, available, i + 1),
        }
    }
}

/// How the building of the kernel's address space ends when `available`
/// frames are left: with `OutOfFrames` where there is none for the root of
/// the page table, and else as its steps end.
pub open spec fn kernel_outcome(
    layout: KernelLayout,
    m: MemoryView,
    trampoline: Seq<u64>,
    available: int,
) -> Option<KernelError> {
    if available < 1 {
        Some(KernelError::OutOfFrames)
    } else {
        kernel_steps_outcome(layout, m, trampoline, available, 0)
    }
}

/// The parts of the kernel image in the order in which they are mapped,
/// each with its flags: code, constants, data, the boot stack, zeroed
/// data, and the frames of the allocator.
pub open spec fn kernel_regions(layout: KernelLayout) -> Seq<Region> {
    seq![
        Region { start: layout.stext, end: layout.etext, flags: FLAGS_RX },
        Region { start: layout.srodata, end: layout.erodata, flags: FLAGS_R },
        Region { start: layout.sdata, end: layout.edata, flags: FLAGS_RW },
        Region { start: layout.sstack, end: layout.estack, flags: FLAGS_RW },
        Region { start: layout.sbss, end: layout.ebss, flags: FLAGS_RW },
        Region { start: layout.sframe, end: layout.eframe, flags: FLAGS_RW },
    ]
}

/// The mappings of the first `n` regions.
pub open spec fn region_views(regions: Seq<Region>, n: int) -> Seq<MappingView> {
    Seq::new(n as nat, |i: int| identity_view(regions[i]))
}

/// The mapping of the trampoline: its pages, readable and executable, at
/// the top of the virtual address space.
pub open spec fn trampoline_view(pages: Seq<u64>) -> MappingView {
    MappingView {
        flags: FLAGS_RX,
        base_vpn: (VPN_LIMIT - pages.len()) as u64,
        page_count: pages.len(),
        vmo_page_offset: 0,
        pages,
        paged: false,
    }
}

/// Why the trampoline cannot be mapped beside the mappings `views`, if it
/// cannot.
pub open spec fn trampoline_fault(views: Seq<MappingView>, pages: Seq<u64>) -> Option<
    KernelError,
> {
    if pages.len() >= VPN_LIMIT {
        Some(KernelError::OutOfRange)
    } else if exists|k: int|
        0 <= k < views.len() && overlaps(#[trigger] views[k], trampoline_view(pages)) {
        Some(KernelError::Overlap)
    } else {
        None
    }
}

/// The first virtual page of a trampoline of `pages` pages; `None` when
/// the trampoline would fill the address space.
pub fn trampoline_base_vpn(pages: usize) -> (r: Option<VirtPageNum>)
    ensures
        r == (if pages < VPN_LIMIT {
            Some(VirtPageNum((VPN_LIMIT - pages) as u64))
        } else {
            None::<VirtPageNum>
        }),
{
    if (pages as u64) < VPN_LIMIT {
        Some(VirtPageNum(VPN_LIMIT - pages as u64))
    } else {
        None
    }
}

/// Maps the trampoline at the top of the address space.
pub fn map_trampoline(
    space: &mut AddressSpace,
    mem: &mut PhysMemory,
    alloc: &mut LinkedStackFrameAllocator,
    trampoline: &VMObjectPhysical,
) -> (r: Result<(), KernelError>)
    requires
        old(mem).wf(),
        old(alloc).wf(old(mem)@),
        old(space).wf(old(mem)@, old(alloc)@),
        pages_in(trampoline.pages(), old(mem)@),
    ensures
        final(mem).wf(),
        final(alloc).wf(final(mem)@),
        final(space).wf(final(mem)@, final(alloc)@),
        final(space).table().spec_root() == old(space).table().spec_root(),
        changes(
            old(space).owned(),
            old(mem)@,
            old(alloc)@,
            final(space).owned(),
            final(mem)@,
            final(alloc)@,
        ),
        r.is_ok() ==> final(space).views() == old(space).views().push(
            trampoline_view(trampoline.pages()),
        ),
        r.is_err() ==> final(space).views() == old(space).views(),
        trampoline_fault(old(space).views(), trampoline.pages()) matches Some(e) ==> r == Err::<
            (),
            KernelError,
        >(e),
        trampoline.pages().len() < VPN_LIMIT ==> failure(r) == map_outcome(
            old(space).views(),
            old(alloc)@.available(),
            depths(old(mem)@, old(space).table().spec_root()),
            trampoline.pages().len(),
            0,
            (VPN_LIMIT - trampoline.pages().len()) as u64,
            trampoline.pages().len() as int,
        ),
        r.is_ok() ==> final(alloc)@.available() == old(alloc)@.available() - tables_needed(
            old(mem)@,
            old(space).table().spec_root(),
            (VPN_LIMIT - trampoline.pages().len()) as u64,
            trampoline.pages().len() as int,
        ),
        r.is_ok() ==> forall|v: u64|
            v < VPN_LIMIT ==> #[trigger] depth(final(mem)@, final(space).table().spec_root(), v)
                == range_depth(
                depth(old(mem)@, old(space).table().spec_root(), v),
                v,
                (VPN_LIMIT - trampoline.pages().len()) as u64,
                trampoline.pages().len() as int,
            ),
        failure(r) == place_outcome(
            trampoline_fault(old(space).views(), trampoline.pages()),
            old(alloc)@.available(),
            depths(old(mem)@, old(space).table().spec_root()),
            trampoline_view(trampoline.pages()),
        ),
        r.is_ok() ==> depths(final(mem)@, final(space).table().spec_root()) == mapped_depths(
            depths(old(mem)@, old(space).table().spec_root()),
            trampoline_view(trampoline.pages()).base_vpn,
            trampoline_view(trampoline.pages()).page_count as int,
        ),
{
    let count: usize = trampoline.page_count();
    let base = match trampoline_base_vpn(count) {
        Some(b) => b,
        None => {
            proof {
                space.lemma_owned_allocated(mem@, alloc@);
                lemma_changes_refl(space.owned(), mem@, alloc@);
            }
            return Err(KernelError::OutOfRange);
        },
    };
    let shared = Vmo::Physical(trampoline.duplicate());
    proof {
        assert(space.owned().union(shared.owned()) =~= space.owned());
    }
    let ghost m0 = mem@;
    let ghost root = space.table().spec_root();
    let ghost views0 = space.views();
    let ghost view = trampoline_view(trampoline.pages());
    let r = space.map(mem, alloc, shared, 0, base, None, PTEFlags::from_bits_truncate(FLAGS_RX));
    proof {
        let probe = fresh_view(0, view.base_vpn, view.page_count, Seq::empty());
        assert forall|k: int| 0 <= k < views0.len() implies overlaps(#[trigger] views0[k], probe)
            == overlaps(views0[k], view) by {}
        if r.is_ok() {
            lemma_mapped_depths(m0, mem@, root, view.base_vpn, view.page_count as int);
        }
    }
    r
}

/// The mappings of the kernel's own address space.
pub open spec fn kernel_views(layout: KernelLayout, trampoline: Seq<u64>) -> Seq<MappingView> {
    region_views(kernel_regions(layout), 6).push(trampoline_view(trampoline))
}

/// Why step `i` of building the kernel's address space cannot be done, if
/// it cannot: the steps map the six regions and then the trampoline.
pub open spec fn kernel_step_fault(
    layout: KernelLayout,
    m: MemoryView,
    trampoline: Seq<u64>,
    i: int,
) -> Option<KernelError> {
    if i < 6 {
        identity_fault(
            region_views(kernel_regions(layout), i),
            m,
            kernel_regions(layout)[i],
        )
    } else {
        trampoline_fault(region_views(kernel_regions(layout), 6), trampoline)
    }
}

/// The kernel's own address space: every part of the kernel image and the
/// frames of the allocator at their own addresses, and the trampoline at
/// the top.
///
/// Fails with the fault of the first step that cannot be done, or with
/// `OutOfFrames` when the page table needs more frames than are left. On
/// failure no frame stays handed out.
pub fn kernel_aspace_init(
    layout: &KernelLayout,
    mem: &mut PhysMemory,
    alloc: &mut LinkedStackFrameAllocator,
    trampoline: &VMObjectPhysical,
) -> (r: Result<AddressSpace, KernelError>)
    requires
        old(mem).wf(),
        old(alloc).wf(old(mem)@),
        pages_in(trampoline.pages(), old(mem)@),
    ensures
        final(mem).wf(),
        final(alloc).wf(final(mem)@),
        r matches Ok(s) ==> {
            &&& s.wf(final(mem)@, final(alloc)@)
            &&& s.views() == kernel_views(*layout, trampoline.pages())
            &&& changes(
                Set::<u64>::empty(),
                old(mem)@,
                old(alloc)@,
                s.owned(),
                final(mem)@,
                final(alloc)@,
            )
        },
        r matches Err(e) ==> {
            &&& changes(
                Set::<u64>::empty(),
                old(mem)@,
                old(alloc)@,
                Set::<u64>::empty(),
                final(mem)@,
                final(alloc)@,
            )
        },
        failure(r) == kernel_outcome(
            *layout,
            old(mem)@,
            trampoline.pages(),
            old(alloc)@.available(),
        ),
{
    let ghost m0 = mem@;
    let ghost a0 = alloc@;
    let ghost regions = kernel_regions(*layout);
    let ghost all = kernel_views(*layout, trampoline.pages());
    let ghost none = Set::<u64>::empty();
    proof {
        a0.lemma_alloc_fresh();
    }
    let mut space = match AddressSpace::new(mem, alloc) {
        Some(s) => s,
        None => {
            proof {
                lemma_changes_refl(none, m0, a0);
            }
            return Err(KernelError::OutOfFrames);
        },
    };
    let mut parts: Vec<Region> = Vec::new();
    parts.push(Region { start: layout.stext, end: layout.etext, flags: FLAGS_RX });
    parts.push(Region { start: layout.srodata, end: layout.erodata, flags: FLAGS_R });
    parts.push(Region { start: layout.sdata, end: layout.edata, flags: FLAGS_RW });
    parts.push(Region { start: layout.sstack, end: layout.estack, flags: FLAGS_RW });
    parts.push(Region { start: layout.sbss, end: layout.ebss, flags: FLAGS_RW });
    parts.push(Region { start: layout.sframe, end: layout.eframe, flags: FLAGS_RW });
    proof {
        assert(parts@ =~= regions);
        assert(space.views() =~= region_views(regions, 0));
        lemma_changes_shape(none, m0, a0, space.owned(), mem@, alloc@);
        assert forall|k: int| 0 <= k < trampoline.pages().len() implies mem@.contains(
            #[trigger] trampoline.pages()[k],
        ) by {
            assert(m0.contains(trampoline.pages()[k]));
        }
        assert(depths(mem@, space.table().spec_root()) =~= zero_depths());
    }
    let mut i: usize = 0;
    while i < 6
        invariant
            i <= 6,
            parts@ == regions,
            regions == kernel_regions(*layout),
            all == kernel_views(*layout, trampoline.pages()),
            m0 == old(mem)@,
            a0 == old(alloc)@,
            none == Set::<u64>::empty(),
            mem.wf(),
            alloc.wf(mem@),
            mem@.same_shape(m0),
            space.wf(mem@, alloc@),
            pages_in(trampoline.pages(), mem@),
            space.views() == region_views(regions, i as int),
            changes(none, m0, a0, space.owned(), mem@, alloc@),
            a0.available() >= 1,
            alloc@.available() == a0.available() - 1 - kernel_cost(
                *layout,
                trampoline.pages(),
                i as int,
            ),
            depths(mem@, space.table().spec_root()) == kernel_depths(
                *layout,
                trampoline.pages(),
                i as int,
            ),
            kernel_steps_outcome(*layout, m0, trampoline.pages(), a0.available(), 0)
                == kernel_steps_outcome(*layout, m0, trampoline.pages(), a0.available(), i as int),
        decreases 6 - i,
    {
        let ghost m1 = mem@;
        let ghost a1 = alloc@;
        let ghost own1 = space.owned();
        let ghost views1 = space.views();
        let part = Region { start: parts[i].start, end: parts[i].end, flags: parts[i].flags };
        assert(part == regions[i as int]);
        let r = identity_map(&mut space, mem, alloc, part);
        proof {
            lemma_changes_trans(none, m0, a0, own1, m1, a1, space.owned(), mem@, alloc@);
            lemma_changes_shape(own1, m1, a1, space.owned(), mem@, alloc@);
            assert forall|k: int| 0 <= k < trampoline.pages().len() implies mem@.contains(
                #[trigger] trampoline.pages()[k],
            ) by {
                assert(m1.contains(trampoline.pages()[k]));
            }
            assert(identity_fault(views1, m1, part) == identity_fault(views1, m0, part));
            assert(kernel_step_fault(*layout, m0, trampoline.pages(), i as int) == identity_fault(
                views1,
                m0,
                part,
            ));
        }
        match r {
            Ok(()) => {
                proof {
                    assert(space.views() =~= region_views(regions, i + 1));
                    assert(space.views().drop_last() =~= views1);
                }
            },
            Err(e) => {
                let ghost m2 = mem@;
                let ghost a2 = alloc@;
                let ghost own2 = space.owned();
                space.destroy(mem, alloc);
                proof {
                    lemma_changes_trans(none, m0, a0, own2, m2, a2, none, mem@, alloc@);
                }
                return Err(e);
            },
        }
        i += 1;
    }
    let ghost m1 = mem@;
    let ghost a1 = alloc@;
    let ghost own1 = space.owned();
    let ghost views1 = space.views();
    let r = map_trampoline(&mut space, mem, alloc, trampoline);
    proof {
        lemma_changes_trans(none, m0, a0, own1, m1, a1, space.owned(), mem@, alloc@);
        assert(kernel_step_fault(*layout, m0, trampoline.pages(), 6) == trampoline_fault(
            views1,
            trampoline.pages(),
        ));
        assert(kernel_view(*layout, trampoline.pages(), 6) == trampoline_view(trampoline.pages()));
        assert(failure(r) == place_outcome(
            kernel_step_fault(*layout, m0, trampoline.pages(), 6),
            a0.available() - 1 - kernel_cost(*layout, trampoline.pages(), 6),
            kernel_depths(*layout, trampoline.pages(), 6),
            kernel_view(*layout, trampoline.pages(), 6),
        ));
        assert(kernel_steps_outcome(*layout, m0, trampoline.pages(), a0.available(), 7).is_none());
    }
    match r {
        Ok(()) => Ok(space),
        Err(e) => {
            let ghost m2 = mem@;
            let ghost a2 = alloc@;
            let ghost own2 = space.owned();
            space.destroy(mem, alloc);
            proof {
                lemma_changes_trans(none, m0, a0, own2, m2, a2, none, mem@, alloc@);
            }
            Err(e)
        },
    }
}

/// The mapping of the page that holds the trap context of a user program:
/// one frame of its own, readable and writable by the kernel, just below
/// the trampoline.
pub open spec fn trap_context_view(trampoline_pages: nat, frame: u64) -> MappingView {
    MappingView {
        flags: FLAGS_RW,
        base_vpn: (VPN_LIMIT - trampoline_pages - 1) as u64,
        page_count: 1,
        vmo_page_offset: 0,
        pages: seq![frame],
        paged: true,
    }
}

/// No table on any way: the ways in a page table that has its root only.
pub open spec fn zero_depths() -> spec_fn(u64) -> int {
    |v: u64| 0int
}

/// For each page, the number of tables on its way in a page table that
/// maps a trampoline of `tp` pages and nothing else.
pub open spec fn trampoline_depths(tp: nat) -> spec_fn(u64) -> int {
    mapped_depths(zero_depths(), (VPN_LIMIT - tp) as u64, tp as int)
}

/// For each page, the number of tables on its way in the page table of
/// the address space that a user program starts from, where the trampoline
/// has `tp` pages.
pub open spec fn user_space_depths(tp: nat) -> spec_fn(u64) -> int {
    mapped_depths(trampoline_depths(tp), (VPN_LIMIT - tp - 1) as u64, 1)
}

/// The number of frames that the address space takes that a user program
/// starts from, where the trampoline has `tp` pages: the root of the page
/// table, the page of the trap context, and the tables on the ways to the
/// trampoline and to that page.
pub open spec fn user_space_cost(tp: nat) -> int {
    2 + tables_needed_by(zero_depths(), (VPN_LIMIT - tp) as u64, tp as int) + tables_needed_by(
        trampoline_depths(tp),
        (VPN_LIMIT - tp - 1) as u64,
        1,
    )
}

/// How the making of the address space ends that a user program starts
/// from, when `available` frames are left and the trampoline has `tp`
/// pages: with `OutOfRange` where the trampoline leaves no room below it,
/// else with `OutOfFrames` where the frames are fewer than it takes, and
/// else well.
pub open spec fn user_space_outcome(available: int, tp: nat) -> Option<KernelError> {
    if tp >= VPN_LIMIT - 1 {
        Some(KernelError::OutOfRange)
    } else if available < user_space_cost(tp) {
        Some(KernelError::OutOfFrames)
    } else {
        None
    }
}

/// The address space that a user program starts from: the trampoline at
/// the top, and below it a zeroed page for the trap context. Returns the
/// address space and the virtual address of that page.
///
/// Fails with `OutOfRange` when the trampoline leaves no room below it, and
/// with `OutOfFrames` when fewer frames are left than the page table and
/// the page need. On failure no frame stays handed out.
pub fn create_user_aspace(
    mem: &mut PhysMemory,
    alloc: &mut LinkedStackFrameAllocator,
    trampoline: &VMObjectPhysical,
) -> (r: Result<(AddressSpace, VirtAddr), KernelError>)
    requires
        old(mem).wf(),
        old(alloc).wf(old(mem)@),
        pages_in(trampoline.pages(), old(mem)@),
    ensures
        final(mem).wf(),
        final(alloc).wf(final(mem)@),
        r matches Ok((s, cx)) ==> {
            &&& s.wf(final(mem)@, final(alloc)@)
            &&& confined(s.views(), final(alloc)@)
            &&& s.views().len() == 2
            &&& s.views()[0] == trampoline_view(trampoline.pages())
            &&& s.views()[1] == trap_context_view(trampoline.pages().len(), s.views()[1].pages[0])
            &&& final(mem)@.page(s.views()[1].pages[0]) == zero_page()
            &&& cx.0 == (VPN_LIMIT - trampoline.pages().len() - 1) * PAGE_SIZE
            &&& changes(
                Set::<u64>::empty(),
                old(mem)@,
                old(alloc)@,
                s.owned(),
                final(mem)@,
                final(alloc)@,
            )
        },
        r matches Err(e) ==> {
            &&& changes(
                Set::<u64>::empty(),
                old(mem)@,
                old(alloc)@,
                Set::<u64>::empty(),
                final(mem)@,
                final(alloc)@,
            )
        },
        failure(r) == user_space_outcome(old(alloc)@.available(), trampoline.pages().len()),
        r.is_ok() ==> final(alloc)@.available() == old(alloc)@.available() - user_space_cost(
            trampoline.pages().len(),
        ),
        r matches Ok((s, cx)) ==> forall|v: u64|
            v < VPN_LIMIT ==> #[trigger] depth(final(mem)@, s.table().spec_root(), v)
                == user_space_depths(trampoline.pages().len())(v),
{
    let ghost m0 = mem@;
    let ghost a0 = alloc@;
    let ghost none = Set::<u64>::empty();
    let ghost tp = trampoline.pages();
    let ghost tb = #[verifier::truncate] ((VPN_LIMIT - tp.len()) as u64);
    proof {
        if tp.len() < VPN_LIMIT - 1 {
            lemma_tables_needed_by(zero_depths(), tb, 0, tp.len() as int);
            assert forall|v: u64| 0 <= #[trigger] trampoline_depths(tp.len())(v) <= 2 by {
                lemma_range_depth_bounds(0, v, tb, tp.len() as int);
            }
            lemma_tables_needed_by(trampoline_depths(tp.len()), (tb - 1) as u64, 0, 1);
        }
    }
    let count: usize = trampoline.page_count();
    if count as u64 >= VPN_LIMIT - 1 {
        proof {
            lemma_changes_refl(none, m0, a0);
        }
        return Err(KernelError::OutOfRange);
    }
    proof {
        a0.lemma_alloc_fresh();
    }
    let mut space = match AddressSpace::new(mem, alloc) {
        Some(s) => s,
        None => {
            proof {
                lemma_changes_refl(none, m0, a0);
            }
            return Err(KernelError::OutOfFrames);
        },
    };
    let ghost m1 = mem@;
    let ghost a1 = alloc@;
    let ghost own1 = space.owned();
    proof {
        lemma_changes_shape(none, m0, a0, own1, m1, a1);
        assert forall|k: int| 0 <= k < tp.len() implies m1.contains(#[trigger] tp[k]) by {
            assert(m0.contains(tp[k]));
        }
        lemma_tables_needed_agree(
            depths(m1, space.table().spec_root()),
            zero_depths(),
            tb,
            tp.len() as int,
        );
    }
    match map_trampoline(&mut space, mem, alloc, trampoline) {
        Ok(()) => {},
        Err(e) => {
            let ghost m2 = mem@;
            let ghost a2 = alloc@;
            let ghost own2 = space.owned();
            proof {
                lemma_changes_trans(none, m0, a0, own1, m1, a1, own2, m2, a2);
            }
            space.destroy(mem, alloc);
            proof {
                lemma_changes_trans(none, m0, a0, own2, m2, a2, none, mem@, alloc@);
            }
            return Err(e);
        },
    }
    let ghost m2 = mem@;
    let ghost a2 = alloc@;
    let ghost own2 = space.owned();
    let ghost views2 = space.views();
    proof {
        lemma_changes_trans(none, m0, a0, own1, m1, a1, own2, m2, a2);
        space.lemma_owned_allocated(m2, a2);
        assert(views2 =~= seq![trampoline_view(tp)]);
    }
    let page = match VMObjectPaged::new(1, mem, alloc) {
        Ok(p) => p,
        Err(e) => {
            let ghost m3 = mem@;
            let ghost a3 = alloc@;
            proof {
                lemma_changes_lift(none, m2, a2, none, m3, a3, own2);
                assert(none.union(own2) =~= own2);
                lemma_changes_shape(none, m2, a2, none, m3, a3);
                assert forall|p: u64| #[trigger] space.owned().contains(p) implies a3.is_allocated(
                    p,
                ) by {
                    assert(own2.contains(p));
                }
                space.lemma_wf_frame(m2, a2, m3, a3);
                lemma_changes_trans(none, m0, a0, own2, m2, a2, own2, m3, a3);
            }
            space.destroy(mem, alloc);
            proof {
                lemma_changes_trans(none, m0, a0, own2, m3, a3, none, mem@, alloc@);
            }
            return Err(e);
        },
    };
    let ghost m3 = mem@;
    let ghost a3 = alloc@;
    let ghost frame = page.pages()[0];
    let ghost fresh = page.pages().to_set();
    proof {
        lemma_changes_lift(none, m2, a2, fresh, m3, a3, own2);
        assert(none.union(own2) =~= own2);
        lemma_changes_shape(none, m2, a2, fresh, m3, a3);
        assert forall|p: u64| #[trigger] space.owned().contains(p) implies a3.is_allocated(p) by {
            assert(own2.contains(p));
        }
        space.lemma_wf_frame(m2, a2, m3, a3);
        assert(page.pages() =~= seq![frame]);
        let root = space.table().spec_root();
        assert forall|p: u64| space.table().frames().contains(p) implies #[trigger] m3.page(p)
            == m2.page(p) by {
            assert(own2.contains(p));
            reveal(changes);
        }
        space.table().lemma_inv_frame(m2, m3);
        assert forall|v: u64| v < VPN_LIMIT implies #[trigger] depth(m3, root, v)
            == trampoline_depths(tp.len())(v) by {
            assert(depth(m2, root, v) == range_depth(depth(m1, root, v), v, tb, tp.len() as int));
        }
        lemma_tables_needed_agree(
            depths(m3, root),
            trampoline_depths(tp.len()),
            (tb - 1) as u64,
            1,
        );
    }
    let owned_page = Vmo::Paged(page);
    let base = VirtPageNum(VPN_LIMIT - count as u64 - 1);
    proof {
        assert(owned_page.owned() == fresh);
        assert forall|p: u64| #[trigger] owned_page.owned().contains(p) implies !space.owned().contains(
            p,
        ) by {
            if own2.contains(p) {
                assert(a3.is_allocated(p) && !fresh.union(own2).contains(p)) by {
                    reveal(changes);
                };
            }
        }
        assert(fresh.union(own2) =~= own2.union(owned_page.owned()));
        lemma_changes_trans(none, m0, a0, own2, m2, a2, own2.union(owned_page.owned()), m3, a3);
        assert(!overlaps(views2[0], trap_context_view(tp.len(), frame)));
    }
    let ghost mid = own2.union(owned_page.owned());
    match space.map(
        mem,
        alloc,
        owned_page,
        0,
        base,
        None,
        PTEFlags::from_bits_truncate(FLAGS_RW),
    ) {
        Ok(()) => {},
        Err(e) => {
            let ghost m4 = mem@;
            let ghost a4 = alloc@;
            let ghost own4 = space.owned();
            proof {
                lemma_changes_trans(none, m0, a0, mid, m3, a3, own4, m4, a4);
            }
            space.destroy(mem, alloc);
            proof {
                lemma_changes_trans(none, m0, a0, own4, m4, a4, none, mem@, alloc@);
            }
            return Err(e);
        },
    }
    proof {
        lemma_changes_trans(none, m0, a0, mid, m3, a3, space.owned(), mem@, alloc@);
        let views = space.views();
        let root = space.table().spec_root();
        assert forall|v: u64| v < VPN_LIMIT implies #[trigger] depth(mem@, root, v)
            == user_space_depths(tp.len())(v) by {
            assert(depth(m3, root, v) == trampoline_depths(tp.len())(v));
        }
        assert(views[1] == trap_context_view(tp.len(), frame));
        assert(fresh.contains(frame));
        assert(FLAGS_RX & PTEFlags::W != PTEFlags::W) by (bit_vector);
    }
    let cx = VirtAddr(base.0 * PAGE_SIZE_U64);
    Ok((space, cx))
}

} // verus!
