//! The state of the machine that every part of the kernel works on: RAM,
//! the frame allocator, the allocator of process identifiers, and the
//! kernel's own address space.

use vstd::prelude::*;
use crate::mm::addr::VPN_LIMIT;
use crate::mm::aspace::AddressSpace;
use crate::mm::frame::{lemma_changes_shape, LinkedStackFrameAllocator};
use crate::mm::memory::PhysMemory;
use crate::mm::vmo::{pages_in, VMObject, VMObjectPhysical};
use crate::task::pid::StackPidAllocator;

verus! {

/// RAM and the allocators and the address space that the whole kernel
/// shares.
pub struct Machine {
    /// Physical memory.
    pub mem: PhysMemory,
    /// The allocator of the frames of physical memory.
    pub frames: LinkedStackFrameAllocator,
    /// The allocator of process identifiers.
    pub pids: StackPidAllocator,
    /// The address space in which the kernel runs.
    pub kernel_space: AddressSpace,
    /// The page of code that is mapped at the top of every address space.
    pub trampoline: VMObjectPhysical,
    /// The address of the code that a task starts in when it is first
    /// switched to.
    pub launch: u64,
    /// The address of the trap handler.
    pub trap_handler: u64,
}

impl Machine {
    /// Whether the machine has the same trampoline, the same entry points
    /// and the same root of the kernel's page table as `other`.
    pub open spec fn same_statics(&self, other: Machine) -> bool {
        &&& self.trampoline.pages() == other.trampoline.pages()
        &&& self.launch == other.launch
        &&& self.trap_handler == other.trap_handler
        &&& self.kernel_space.table().spec_root() == other.kernel_space.table().spec_root()
    }

    /// The machine stays well formed through a change by an owner who
    /// shares no frame with the kernel's address space, when nothing but
    /// memory and the frame allocator changes.
    pub proof fn lemma_kept(&self, before: Machine, own0: Set<u64>, own1: Set<u64>)
        requires
            before.wf(),
            self.mem.wf(),
            self.frames.wf(self.mem@),
            self.step(before, own0, own1),
            forall|p: u64| #[trigger] before.kernel_space.owned().contains(p) ==> !own0.contains(p),
            self.pids == before.pids,
            self.kernel_space == before.kernel_space,
            self.trampoline == before.trampoline,
        ensures
            self.wf(),
            forall|p: u64| #[trigger] self.kernel_space.owned().contains(p) ==> !own1.contains(p),
    {
        before.kernel_space.lemma_bystander(
            own0,
            before.mem@,
            before.frames@,
            own1,
            self.mem@,
            self.frames@,
        );
        lemma_changes_shape(own0, before.mem@, before.frames@, own1, self.mem@, self.frames@);
        let tp = self.trampoline.pages();
        assert forall|k: int| 0 <= k < tp.len() implies self.mem@.contains(#[trigger] tp[k]) by {
            assert(before.mem@.contains(tp[k]));
        }
    }

    /// Whether the step from machine `before` to this machine is a change
    /// by an owner who had the frames `own0` and has the frames `own1`.
    pub open spec fn step(&self, before: Machine, own0: Set<u64>, own1: Set<u64>) -> bool {
        crate::mm::frame::changes(
            own0,
            before.mem@,
            before.frames@,
            own1,
            self.mem@,
            self.frames@,
        )
    }

    /// Memory, the allocators and the kernel's address space are well
    /// formed and agree with each other, and the trampoline leaves room
    /// below it.
    pub open spec fn wf(&self) -> bool {
        &&& self.mem.wf()
        &&& self.frames.wf(self.mem@)
        &&& self.pids@.wf()
        &&& self.kernel_space.wf(self.mem@, self.frames@)
        &&& pages_in(self.trampoline.pages(), self.mem@)
        &&& self.trampoline.pages().len() < VPN_LIMIT - 1
    }
}

} // verus!
