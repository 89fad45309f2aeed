//! Memory management: addresses, physical memory, frames, page tables,
//! memory objects and address spaces.

pub mod addr;
pub mod memory;
pub mod frame;
pub mod page_table;
pub mod vmo;
pub mod aspace;
pub mod layout;

use vstd::prelude::*;
use addr::{PhysAddr, PAGE_SIZE_U64, VPN_LIMIT};
use layout::{ceil_page, kernel_aspace_init, kernel_outcome, kernel_views, KernelLayout};
use memory::PhysMemory;
use vmo::{pages_in, VMObject, VMObjectPhysical};
use crate::error::{failure, KernelError};
use crate::machine::Machine;
use crate::task::pid::StackPidAllocator;

verus! {

/// Whether the pages that hold the bytes from `start` up to `end` are
/// pages of the memory `m`, with `end` not before `start`.
pub open spec fn in_ram(m: memory::MemoryView, start: u64, end: u64) -> bool {
    start <= end && m.base <= start / PAGE_SIZE_U64 && ceil_page(end) <= m.base + m.pages.len()
}

/// The numbers of the pages that hold the bytes from `start` up to `end`.
pub open spec fn range_pages(start: u64, end: u64) -> Seq<u64> {
    Seq::new(
        (ceil_page(end) - start / PAGE_SIZE_U64) as nat,
        |i: int| (start / PAGE_SIZE_U64 + i) as u64,
    )
}

/// Whether the frames of the layout or the trampoline do not lie in the
/// memory `m`, or the trampoline fills the address space.
pub open spec fn misplaced(
    m: memory::MemoryView,
    layout: KernelLayout,
    strampoline: u64,
    etrampoline: u64,
) -> bool {
    ||| !in_ram(m, layout.sframe, layout.eframe)
    ||| !in_ram(m, strampoline, etrampoline)
    ||| ceil_page(etrampoline) - strampoline / PAGE_SIZE_U64 >= VPN_LIMIT - 1
}

/// How the building of the machine ends: with `OutOfRange` where
/// something is misplaced, and else as the building of the kernel's
/// address space ends with the frames of the layout.
pub open spec fn boot_outcome(
    m: memory::MemoryView,
    layout: KernelLayout,
    strampoline: u64,
    etrampoline: u64,
) -> Option<KernelError> {
    if misplaced(m, layout, strampoline, etrampoline) {
        Some(KernelError::OutOfRange)
    } else {
        kernel_outcome(
            layout,
            m,
            range_pages(strampoline, etrampoline),
            ceil_page(layout.eframe) - layout.sframe / PAGE_SIZE_U64,
        )
    }
}

/// The state of the machine at boot: the frame allocator for the frames of
/// the layout, no process identifier in use, and the kernel's own address
/// space with the kernel image and the trampoline mapped. The trampoline is
/// the code in the bytes from `strampoline` up to `etrampoline`.
///
/// Fails with `OutOfRange` when the frames or the trampoline do not lie in
/// memory or the trampoline fills the address space, and else as the
/// building of the kernel's address space fails.
pub fn init(
    mem: PhysMemory,
    layout: &KernelLayout,
    strampoline: u64,
    etrampoline: u64,
    launch: u64,
    trap_handler: u64,
) -> (r: Result<Machine, KernelError>)
    requires
        mem.wf(),
    ensures
        misplaced(mem@, *layout, strampoline, etrampoline) ==> r == Err::<Machine, KernelError>(
            KernelError::OutOfRange,
        ),
        failure(r) == boot_outcome(mem@, *layout, strampoline, etrampoline),
        r matches Ok(mc) ==> {
            &&& mc.wf()
            &&& mc.mem@.same_shape(mem@)
            &&& mc.launch == launch
            &&& mc.trap_handler == trap_handler
            &&& mc.frames@.start == layout.sframe / PAGE_SIZE_U64
            &&& mc.frames@.end == ceil_page(layout.eframe)
            &&& mc.trampoline.spec_base() == strampoline / PAGE_SIZE_U64
            &&& mc.trampoline.spec_count() == ceil_page(etrampoline) - strampoline / PAGE_SIZE_U64
            &&& mc.trampoline.pages() == range_pages(strampoline, etrampoline)
            &&& mc.kernel_space.views() == kernel_views(*layout, mc.trampoline.pages())
            &&& forall|q: usize| !mc.pids@.in_use(q)
            &&& forall|p: u64| #[trigger]
                mc.frames@.is_allocated(p) ==> mc.kernel_space.owned().contains(p)
        },
{
    let base: u64 = mem.base().0;
    let count: usize = mem.page_count();
    if layout.sframe > layout.eframe || strampoline > etrampoline {
        return Err(KernelError::OutOfRange);
    }
    let first: u64 = layout.sframe / PAGE_SIZE_U64;
    let last: u64 = if layout.eframe % PAGE_SIZE_U64 == 0 {
        layout.eframe / PAGE_SIZE_U64
    } else {
        layout.eframe / PAGE_SIZE_U64 + 1
    };
    let tfirst: u64 = strampoline / PAGE_SIZE_U64;
    let tlast: u64 = if etrampoline % PAGE_SIZE_U64 == 0 {
        etrampoline / PAGE_SIZE_U64
    } else {
        etrampoline / PAGE_SIZE_U64 + 1
    };
    if first < base || last > base + count as u64 || tfirst < base || tlast > base + count as u64
        || tlast - tfirst >= VPN_LIMIT - 1 {
        return Err(KernelError::OutOfRange);
    }
    let mut mem = mem;
    let mut frames = frame::init(layout.sframe, layout.eframe);
    let trampoline = VMObjectPhysical::from_range(PhysAddr(strampoline), PhysAddr(etrampoline));
    proof {
        let tp = trampoline.pages();
        assert(pages_in(tp, mem@));
        assert(tp =~= range_pages(strampoline, etrampoline));
    }
    let ghost m0 = mem@;
    let ghost a0 = frames@;
    let kernel_space = match kernel_aspace_init(layout, &mut mem, &mut frames, &trampoline) {
        Ok(s) => s,
        Err(e) => {
            return Err(e);
        },
    };
    let mc = Machine {
        mem,
        frames,
        pids: StackPidAllocator::default(),
        kernel_space,
        trampoline,
        launch,
        trap_handler,
    };
    proof {
        frame::lemma_changes_shape(
            Set::<u64>::empty(),
            m0,
            a0,
            mc.kernel_space.owned(),
            mc.mem@,
            mc.frames@,
        );
        let tp = mc.trampoline.pages();
        assert forall|k: int| 0 <= k < tp.len() implies mc.mem@.contains(#[trigger] tp[k]) by {
            assert(m0.contains(tp[k]));
        }
        assert forall|p: u64| #[trigger] mc.frames@.is_allocated(p) implies mc.kernel_space.owned().contains(
            p,
        ) by {
            reveal(frame::changes);
            assert(!a0.is_allocated(p));
        }
    }
    Ok(mc)
}

} // verus!
