//! Process identifiers and the kernel stack that goes with each of them.

use vstd::prelude::*;
use crate::codec::{encode_words, words_to_bytes};
use crate::error::{failure, KernelError};
use crate::machine::Machine;
use crate::mm::addr::{VirtPageNum, PAGE_SIZE, PAGE_SIZE_U64, VPN_LIMIT};
use crate::mm::aspace::{
    fresh_view, lemma_contents_frame, map_outcome, overlaps, unmap_find, zeros, MappingView,
};
use crate::mm::frame::{
    changes, lemma_changes_lift, lemma_changes_refl, lemma_changes_shape, lemma_changes_trans,
    lemma_owner_write,
};
use crate::mm::layout::FLAGS_RW;
use crate::mm::memory::PhysMemory;
use crate::mm::page_table::{depths, lemma_tables_needed_same, tables_needed, PTEFlags};
use crate::mm::vmo::{
    contents, lemma_store_written, pages_in, splice, store, Vmo, VMObject, VMObjectPaged,
};
use super::context::{TaskContext, TASK_CONTEXT_SIZE};

verus! {

/// Bytes of a kernel stack.
pub const KERNEL_STACK_SIZE: usize = 4096 * 16;

/// Pages of a kernel stack.
pub const KERNEL_STACK_PAGES: usize = 16;

/// The allocator of process identifiers as a mathematical value.
pub struct PidAllocatorView {
    /// The lowest identifier that was never handed out.
    pub current: nat,
    /// The identifiers that were given back, most recently given back
    /// last.
    pub recycled: Seq<usize>,
}

impl PidAllocatorView {
    /// The recycled identifiers are distinct and were handed out before.
    pub open spec fn wf(self) -> bool {
        &&& self.recycled.no_duplicates()
        &&& forall|i: int| 0 <= i < self.recycled.len() ==> (#[trigger] self.recycled[i]) < self.current
    }

    /// Whether `pid` is handed out at present.
    pub open spec fn in_use(self, pid: usize) -> bool {
        pid < self.current && !self.recycled.contains(pid)
    }

    /// The identifier that the next allocation returns, and the allocator
    /// after it.
    pub open spec fn allocate(self) -> (Option<usize>, PidAllocatorView) {
        if self.recycled.len() > 0 {
            (
                Some(self.recycled.last()),
                PidAllocatorView { recycled: self.recycled.drop_last(), ..self },
            )
        } else if self.current < usize::MAX {
            (Some(self.current as usize), PidAllocatorView { current: self.current + 1, ..self })
        } else {
            (None, self)
        }
    }

    /// The allocator after `pid` was given back.
    pub open spec fn dealloc(self, pid: usize) -> PidAllocatorView {
        PidAllocatorView { recycled: self.recycled.push(pid), ..self }
    }

    /// An allocation hands out an identifier that was not in use, and
    /// changes the use of no other.
    pub proof fn lemma_allocate(self)
        requires
            self.wf(),
        ensures
            self.allocate().1.wf(),
            self.allocate().0 matches Some(pid) ==> !self.in_use(pid) && forall|q: usize|
                #![trigger self.allocate().1.in_use(q)]
                self.allocate().1.in_use(q) == (self.in_use(q) || q == pid),
            self.allocate().0.is_none() ==> self.allocate().1 == self,
    {
        let after = self.allocate().1;
        if self.recycled.len() > 0 {
            let pid = self.recycled.last();
            assert(self.recycled[self.recycled.len() - 1] == pid);
            assert forall|q: usize| after.in_use(q) == (self.in_use(q) || q == pid) by {
                if q != pid && self.recycled.contains(q) {
                    let i = choose|i: int| 0 <= i < self.recycled.len() && self.recycled[i] == q;
                    assert(after.recycled[i] == q);
                }
                if after.recycled.contains(q) {
                    let i = choose|i: int| 0 <= i < after.recycled.len() && after.recycled[i] == q;
                    assert(self.recycled[i] == q);
                }
            }
        }
    }

    /// Giving back an identifier that is in use takes it, and no other, out
    /// of use.
    pub proof fn lemma_dealloc(self, pid: usize)
        requires
            self.wf(),
            self.in_use(pid),
        ensures
            self.dealloc(pid).wf(),
            forall|q: usize|
                #![trigger self.dealloc(pid).in_use(q)]
                self.dealloc(pid).in_use(q) == (self.in_use(q) && q != pid),
            self.dealloc(pid).allocate() == (Some(pid), self),
    {
        let after = self.dealloc(pid);
        assert forall|q: usize| after.in_use(q) == (self.in_use(q) && q != pid) by {
            if self.recycled.contains(q) {
                let i = choose|i: int| 0 <= i < self.recycled.len() && self.recycled[i] == q;
                assert(after.recycled[i] == q);
            }
            if after.recycled.contains(q) && q != pid {
                let i = choose|i: int| 0 <= i < after.recycled.len() && after.recycled[i] == q;
                assert(self.recycled[i] == q);
            }
            assert(after.recycled[self.recycled.len() as int] == pid);
        }
        assert forall|i: int, j: int|
            0 <= i < after.recycled.len() && 0 <= j < after.recycled.len() && i
                != j implies after.recycled[i] != after.recycled[j] by {
            if i < self.recycled.len() {
                assert(self.recycled.contains(self.recycled[i]));
            }
            if j < self.recycled.len() {
                assert(self.recycled.contains(self.recycled[j]));
            }
        }
        assert(self.recycled.push(pid).drop_last() =~= self.recycled);
    }
}

/// Hands out process identifiers: a recycled one where there is one, else
/// the next that was never used.
pub struct StackPidAllocator {
    current: usize,
    recycled: Vec<usize>,
}

impl View for StackPidAllocator {
    type V = PidAllocatorView;

    closed spec fn view(&self) -> PidAllocatorView {
        PidAllocatorView { current: self.current as nat, recycled: self.recycled@ }
    }
}

impl Default for StackPidAllocator {
    fn default() -> (a: StackPidAllocator)
        ensures
            a@ == (PidAllocatorView { current: 0, recycled: Seq::empty() }),
    {
        StackPidAllocator { current: 0, recycled: Vec::new() }
    }
}

impl StackPidAllocator {
    /// Hands out an identifier: the one given back last where there is one,
    /// else the lowest never used; `None` when every identifier is in use.
    pub fn allocate(&mut self) -> (r: Option<usize>)
        ensures
            (r, final(self)@) == old(self)@.allocate(),
    {
        if self.recycled.len() > 0 {
            let pid = self.recycled.pop().unwrap();
            Some(pid)
        } else if self.current < usize::MAX {
            let current = self.current;
            self.current += 1;
            Some(current)
        } else {
            None
        }
    }

    /// Takes back the identifier `pid`, which must be in use.
    pub fn dealloc(&mut self, pid: usize)
        requires
            old(self)@.in_use(pid),
        ensures
            final(self)@ == old(self)@.dealloc(pid),
    {
        self.recycled.push(pid);
    }

    /// Whether `pid` is in use.
    pub fn check_allocated(&self, pid: usize) -> (b: bool)
        ensures
            b == self@.in_use(pid),
    {
        if pid >= self.current {
            return false;
        }
        let mut i: usize = 0;
        while i < self.recycled.len()
            invariant
                i <= self.recycled@.len(),
                forall|j: int| 0 <= j < i ==> self.recycled@[j] != pid,
            decreases self.recycled@.len() - i,
        {
            if self.recycled[i] == pid {
                return false;
            }
            i += 1;
        }
        true
    }
}

/// The address of the lowest byte of the kernel stack of process `pid`,
/// where the trampoline has `trampoline_pages` pages: the stacks lie below
/// the trampoline, each with one unmapped page above it.
pub open spec fn spec_kernel_stack_addr(trampoline_pages: int, pid: int) -> int {
    (VPN_LIMIT - trampoline_pages) * PAGE_SIZE - (KERNEL_STACK_SIZE + PAGE_SIZE) * (pid + 1)
}

/// The address of the lowest byte of the kernel stack of process `pid`;
/// `None` when the stack would lie below the virtual address space.
pub fn kernel_stack_addr(trampoline_pages: usize, pid: usize) -> (r: Option<u64>)
    ensures
        r == (if spec_kernel_stack_addr(trampoline_pages as int, pid as int) >= 0
            && trampoline_pages <= VPN_LIMIT {
            Some(spec_kernel_stack_addr(trampoline_pages as int, pid as int) as u64)
        } else {
            None::<u64>
        }),
{
    if trampoline_pages as u64 > VPN_LIMIT {
        return None;
    }
    let top: u64 = (VPN_LIMIT - trampoline_pages as u64) * 4096;
    let slot: u64 = 0x11000;
    if pid as u64 >= top / slot {
        return None;
    }
    let below: u64 = slot * (pid as u64 + 1);
    Some(top - below)
}

/// A kernel stack, known by the address of its lowest byte.
#[derive(Copy, Clone, Debug)]
pub struct KernelStack {
    pub base: u64,
}

impl KernelStack {
    /// The address just above the stack: the stack pointer of an empty
    /// stack.
    pub fn get_bottom_sp(&self) -> (sp: u64)
        requires
            self.base + KERNEL_STACK_SIZE <= u64::MAX,
        ensures
            sp == self.base + KERNEL_STACK_SIZE,
    {
        self.base + KERNEL_STACK_SIZE as u64
    }

    /// The stack pointer of a stack that holds one saved task context.
    pub fn get_init_sp(&self) -> (sp: u64)
        requires
            self.base + KERNEL_STACK_SIZE <= u64::MAX,
        ensures
            sp == self.base + KERNEL_STACK_SIZE - TASK_CONTEXT_SIZE,
    {
        self.get_bottom_sp() - TASK_CONTEXT_SIZE as u64
    }

    /// Puts the saved task context `task_cx` on the empty stack, whose
    /// memory is the object `stack` of as many pages as a kernel stack has.
    pub fn push_context(&self, stack: &VMObjectPaged, mem: &mut PhysMemory, task_cx: &TaskContext)
        requires
            old(mem).wf(),
            pages_in(stack.pages(), old(mem)@),
            stack.pages().len() == KERNEL_STACK_PAGES,
        ensures
            final(mem).wf(),
            final(mem)@ == store(
                old(mem)@,
                stack.pages(),
                (KERNEL_STACK_SIZE - TASK_CONTEXT_SIZE) as int,
                words_to_bytes(task_cx.words()),
            ),
    {
        let words = task_cx.to_words();
        let bytes = encode_words(&words);
        let wrote = stack.write(mem, KERNEL_STACK_SIZE - TASK_CONTEXT_SIZE, bytes.as_slice());
        proof {
            assert(bytes@.subrange(0, wrote as int) =~= bytes@);
        }
    }
}

/// The bytes of a kernel stack that holds nothing but the saved context of
/// a task that starts in the code at `launch`.
pub open spec fn fresh_stack(launch: u64) -> Seq<u8> {
    splice(
        zeros(KERNEL_STACK_SIZE as int),
        (KERNEL_STACK_SIZE - TASK_CONTEXT_SIZE) as int,
        words_to_bytes(seq![launch] + Seq::new(12, |i: int| 0u64)),
    )
}

/// The first virtual page of the kernel stack that goes with the process
/// identifier that the machine `mc` hands out next.
pub open spec fn next_stack_vpn(mc: Machine) -> int {
    spec_kernel_stack_addr(
        mc.trampoline.pages().len() as int,
        mc.pids@.allocate().0.unwrap() as int,
    ) / (PAGE_SIZE as int)
}

/// How handing out a process identifier with its kernel stack ends on the
/// machine `mc`: with `OutOfRange` where no identifier is left or the stack
/// would lie below the address space, else with `OutOfFrames` where the
/// frames are fewer than the pages of the stack, and else as the mapping
/// of the stack into the kernel's address space ends with the frames that
/// are left.
pub open spec fn pid_outcome(mc: Machine) -> Option<KernelError> {
    let next = mc.pids@.allocate().0;
    let pages = mc.trampoline.pages().len() as int;
    if next.is_none() || spec_kernel_stack_addr(pages, next.unwrap() as int) < 0 {
        Some(KernelError::OutOfRange)
    } else if mc.frames@.available() < KERNEL_STACK_PAGES {
        Some(KernelError::OutOfFrames)
    } else {
        map_outcome(
            mc.kernel_space.views(),
            mc.frames@.available() - KERNEL_STACK_PAGES,
            depths(mc.mem@, mc.kernel_space.table().spec_root()),
            KERNEL_STACK_PAGES as nat,
            0,
            next_stack_vpn(mc) as u64,
            KERNEL_STACK_PAGES as int,
        )
    }
}

/// The number of frames that handing out a process identifier with its
/// kernel stack takes on the machine `mc`: the pages of the stack, and the
/// tables that are missing on the ways to them.
pub open spec fn pid_cost(mc: Machine) -> int {
    KERNEL_STACK_PAGES + tables_needed(
        mc.mem@,
        mc.kernel_space.table().spec_root(),
        next_stack_vpn(mc) as u64,
        KERNEL_STACK_PAGES as int,
    )
}

/// The owner of a process identifier and of the kernel stack that goes
/// with it.
#[derive(Debug)]
pub struct PidHandle {
    pid: usize,
    stack: u64,
}

/// The mappings `views` without the first one that is a kernel stack at
/// the address `stack`, if there is one.
pub open spec fn without_stack(views: Seq<MappingView>, stack: u64) -> Seq<MappingView> {
    match unmap_find(views, stack / PAGE_SIZE_U64, KERNEL_STACK_PAGES as nat, false, 0) {
        Some(k) => views.remove(k),
        None => views,
    }
}

impl PidHandle {
    /// The identifier.
    pub closed spec fn spec_value(&self) -> usize {
        self.pid
    }

    /// The address of the lowest byte of the kernel stack.
    pub closed spec fn spec_stack(&self) -> u64 {
        self.stack
    }

    /// Hands out a process identifier and maps a kernel stack for it into
    /// the kernel's address space, with the context of a task that has
    /// never run on top of it.
    ///
    /// Fails with `OutOfRange` when no identifier is left or the stack
    /// would lie below the address space, and with the error of the
    /// mapping when the stack cannot be mapped. On failure no identifier
    /// and no frame stays handed out.
    pub fn allocate(machine: &mut Machine) -> (r: Result<PidHandle, KernelError>)
        requires
            old(machine).wf(),
        ensures
            final(machine).wf(),
            final(machine).trampoline.pages() == old(machine).trampoline.pages(),
            final(machine).launch == old(machine).launch,
            final(machine).trap_handler == old(machine).trap_handler,
            final(machine).kernel_space.table().spec_root() == old(machine).kernel_space.table().spec_root(),
            changes(
                old(machine).kernel_space.owned(),
                old(machine).mem@,
                old(machine).frames@,
                final(machine).kernel_space.owned(),
                final(machine).mem@,
                final(machine).frames@,
            ),
            r matches Ok(h) ==> {
                &&& !old(machine).pids@.in_use(h.spec_value())
                &&& forall|q: usize|
                    #![trigger final(machine).pids@.in_use(q)]
                    final(machine).pids@.in_use(q) == (old(machine).pids@.in_use(q) || q
                        == h.spec_value())
                &&& h.spec_stack() == spec_kernel_stack_addr(
                    old(machine).trampoline.pages().len() as int,
                    h.spec_value() as int,
                )
                &&& final(machine).kernel_space.views().drop_last() == old(machine).kernel_space.views()
                &&& final(machine).kernel_space.views().last() == fresh_view(
                    FLAGS_RW,
                    h.spec_stack() / PAGE_SIZE_U64,
                    KERNEL_STACK_PAGES as nat,
                    final(machine).kernel_space.views().last().pages,
                )
                &&& contents(
                    final(machine).kernel_space.views().last().pages,
                    final(machine).mem@,
                ) == fresh_stack(old(machine).launch)
            },
            r.is_err() ==> final(machine).kernel_space.views() == old(machine).kernel_space.views(),
            failure(r) == pid_outcome(*old(machine)),
            r.is_ok() ==> final(machine).frames@.available() == old(machine).frames@.available()
                - pid_cost(*old(machine)),
            r.is_err() ==> forall|q: usize|
                #![trigger final(machine).pids@.in_use(q)]
                final(machine).pids@.in_use(q) == old(machine).pids@.in_use(q),
    {
        let ghost m0 = machine.mem@;
        let ghost a0 = machine.frames@;
        let ghost p0 = machine.pids@;
        let ghost own0 = machine.kernel_space.owned();
        proof {
            p0.lemma_allocate();
            machine.kernel_space.lemma_owned_allocated(m0, a0);
            lemma_changes_refl(own0, m0, a0);
        }
        let pid = match machine.pids.allocate() {
            Some(pid) => pid,
            None => {
                return Err(KernelError::OutOfRange);
            },
        };
        proof {
            machine.pids@.lemma_dealloc(pid);
        }
        let tramp_pages: usize = machine.trampoline.page_count();
        let stack = match kernel_stack_addr(tramp_pages, pid) {
            Some(s) => s,
            None => {
                machine.pids.dealloc(pid);
                return Err(KernelError::OutOfRange);
            },
        };
        let fresh = match VMObjectPaged::new(KERNEL_STACK_PAGES, &mut machine.mem, &mut machine.frames) {
            Ok(v) => v,
            Err(e) => {
                proof {
                    machine.kernel_space.lemma_bystander(
                        Set::<u64>::empty(),
                        m0,
                        a0,
                        Set::<u64>::empty(),
                        machine.mem@,
                        machine.frames@,
                    );
                    lemma_changes_lift(
                        Set::<u64>::empty(),
                        m0,
                        a0,
                        Set::<u64>::empty(),
                        machine.mem@,
                        machine.frames@,
                        own0,
                    );
                    assert(Set::<u64>::empty().union(own0) =~= own0);
                    lemma_changes_shape(
                        Set::<u64>::empty(),
                        m0,
                        a0,
                        Set::<u64>::empty(),
                        machine.mem@,
                        machine.frames@,
                    );
                    assert forall|k: int|
                        0 <= k < machine.trampoline.pages().len() implies machine.mem@.contains(
                        #[trigger] machine.trampoline.pages()[k],
                    ) by {
                        assert(m0.contains(machine.trampoline.pages()[k]));
                    }
                }
                machine.pids.dealloc(pid);
                return Err(e);
            },
        };
        let ghost m1 = machine.mem@;
        let ghost a1 = machine.frames@;
        let ghost pages = fresh.pages();
        let ghost own_fresh = pages.to_set();
        proof {
            machine.kernel_space.lemma_bystander(Set::<u64>::empty(), m0, a0, own_fresh, m1, a1);
            lemma_changes_lift(Set::<u64>::empty(), m0, a0, own_fresh, m1, a1, own0);
            assert(Set::<u64>::empty().union(own0) =~= own0);
            lemma_changes_shape(Set::<u64>::empty(), m0, a0, own_fresh, m1, a1);
        }
        let cx = TaskContext::goto_launch(machine.launch);
        let ghost bytes = words_to_bytes(cx.words());
        proof {
            crate::codec::lemma_words_roundtrip(cx.words());
            assert(contents(pages, m1) =~= zeros(KERNEL_STACK_SIZE as int)) by {
                assert forall|i: int| 0 <= i < KERNEL_STACK_SIZE implies contents(pages, m1)[i]
                    == 0u8 by {
                    assert(m1.page(pages[i / PAGE_SIZE as int]) == crate::mm::memory::zero_page());
                }
            }
            assert(cx.words() =~= seq![machine.launch] + Seq::new(12, |i: int| 0u64));
        }
        KernelStack { base: stack }.push_context(&fresh, &mut machine.mem, &cx);
        let ghost m2 = machine.mem@;
        proof {
            lemma_store_written(
                m1,
                pages,
                (KERNEL_STACK_SIZE - TASK_CONTEXT_SIZE) as int,
                bytes,
            );
            assert forall|p: u64| #[trigger] own_fresh.contains(p) implies a1.is_allocated(p) by {
                let k = choose|k: int| 0 <= k < pages.len() && pages[k] == p;
                assert(a1.is_allocated(pages[k]));
            }
            lemma_owner_write(own_fresh, m1, a1, m2);
            machine.kernel_space.lemma_bystander(own_fresh, m1, a1, own_fresh, m2, a1);
            lemma_changes_lift(own_fresh, m1, a1, own_fresh, m2, a1, own0);
            lemma_changes_trans(
                own0,
                m0,
                a0,
                own_fresh.union(own0),
                m1,
                a1,
                own_fresh.union(own0),
                m2,
                a1,
            );
            assert(own_fresh.union(own0) =~= own0.union(own_fresh));
            assert forall|k: int|
                0 <= k < machine.trampoline.pages().len() implies m2.contains(
                #[trigger] machine.trampoline.pages()[k],
            ) by {
                assert(m0.contains(machine.trampoline.pages()[k]));
            }
        }
        let vmo = Vmo::Paged(fresh);
        proof {
            assert(vmo.owned() == own_fresh);
            assert(vmo.wf(m2, a1)) by {
                assert forall|k: int| 0 <= k < pages.len() implies m2.contains(#[trigger] pages[k]) by {
                    assert(m1.contains(pages[k]));
                }
            }
        }
        proof {
            let kernel = old(machine).kernel_space;
            assert forall|p: u64| kernel.table().frames().contains(p) implies #[trigger] m2.page(p)
                == m0.page(p) by {
                assert(own0.contains(p));
                assert(m2.page(p) == m1.page(p));
                assert(m1.page(p) == m0.page(p));
            }
            lemma_changes_shape(own0, m0, a0, own0.union(own_fresh), m2, a1);
            kernel.table().lemma_inv_frame(m0, m2);
            lemma_tables_needed_same(
                m0,
                m2,
                kernel.table().spec_root(),
                (stack / PAGE_SIZE_U64) as u64,
                KERNEL_STACK_PAGES as int,
            );
        }
        let r = machine.kernel_space.map(
            &mut machine.mem,
            &mut machine.frames,
            vmo,
            0,
            VirtPageNum(stack / PAGE_SIZE_U64),
            None,
            PTEFlags::from_bits_truncate(FLAGS_RW),
        );
        proof {
            lemma_changes_trans(
                own0,
                m0,
                a0,
                own0.union(own_fresh),
                m2,
                a1,
                machine.kernel_space.owned(),
                machine.mem@,
                machine.frames@,
            );
            lemma_changes_shape(
                own0,
                m0,
                a0,
                machine.kernel_space.owned(),
                machine.mem@,
                machine.frames@,
            );
            assert forall|k: int|
                0 <= k < machine.trampoline.pages().len() implies machine.mem@.contains(
                #[trigger] machine.trampoline.pages()[k],
            ) by {
                assert(m0.contains(machine.trampoline.pages()[k]));
            }
        }
        proof {
            let views0 = old(machine).kernel_space.views();
            let probe = fresh_view(
                FLAGS_RW,
                stack / PAGE_SIZE_U64,
                KERNEL_STACK_PAGES as nat,
                Seq::empty(),
            );
            assert forall|k: int| 0 <= k < views0.len() implies overlaps(
                #[trigger] views0[k],
                probe,
            ) == overlaps(
                views0[k],
                crate::mm::aspace::MappingView {
                    flags: FLAGS_RW,
                    base_vpn: stack / PAGE_SIZE_U64,
                    page_count: KERNEL_STACK_PAGES as nat,
                    vmo_page_offset: 0,
                    pages: pages,
                    paged: true,
                },
            ) by {}
            if r.is_ok() {
                assert forall|i: int| 0 <= i < pages.len() implies machine.mem@.page(
                    #[trigger] pages[i],
                ) == m2.page(pages[i]) by {
                    assert(pages.contains(pages[i]));
                    assert(own_fresh.contains(pages[i]));
                }
                lemma_contents_frame(pages, m2, machine.mem@);
            }
        }
        match r {
            Ok(()) => Ok(PidHandle { pid, stack }),
            Err(e) => {
                machine.pids.dealloc(pid);
                Err(e)
            },
        }
    }

    /// The identifier.
    pub fn value(&self) -> (pid: usize)
        ensures
            pid == self.spec_value(),
    {
        self.pid
    }

    /// The address of the lowest byte of the kernel stack.
    pub fn kernel_stack_addr(&self) -> (addr: u64)
        ensures
            addr == self.spec_stack(),
    {
        self.stack
    }

    /// The kernel stack.
    pub fn kernel_stack(&self) -> (stack: KernelStack)
        ensures
            stack.base == self.spec_stack(),
    {
        KernelStack { base: self.stack }
    }

    /// Gives the identifier back and takes the kernel stack out of the
    /// kernel's address space.
    pub fn release(self, machine: &mut Machine)
        requires
            old(machine).wf(),
            old(machine).pids@.in_use(self.spec_value()),
        ensures
            final(machine).wf(),
            final(machine).trampoline.pages() == old(machine).trampoline.pages(),
            final(machine).launch == old(machine).launch,
            final(machine).trap_handler == old(machine).trap_handler,
            final(machine).kernel_space.table().spec_root() == old(machine).kernel_space.table().spec_root(),
            changes(
                old(machine).kernel_space.owned(),
                old(machine).mem@,
                old(machine).frames@,
                final(machine).kernel_space.owned(),
                final(machine).mem@,
                final(machine).frames@,
            ),
            forall|q: usize|
                #![trigger final(machine).pids@.in_use(q)]
                final(machine).pids@.in_use(q) == (old(machine).pids@.in_use(q) && q
                    != self.spec_value()),
            final(machine).frames@.available() >= old(machine).frames@.available(),
            final(machine).kernel_space.views() == without_stack(
                old(machine).kernel_space.views(),
                self.spec_stack(),
            ),
    {
        let ghost m0 = machine.mem@;
        let ghost a0 = machine.frames@;
        proof {
            machine.pids@.lemma_dealloc(self.pid);
        }
        let _ = machine.kernel_space.unmap(
            &mut machine.mem,
            &mut machine.frames,
            VirtPageNum(self.stack / PAGE_SIZE_U64),
            KERNEL_STACK_PAGES,
            false,
        );
        proof {
            lemma_changes_shape(
                old(machine).kernel_space.owned(),
                m0,
                a0,
                machine.kernel_space.owned(),
                machine.mem@,
                machine.frames@,
            );
            assert forall|k: int|
                0 <= k < machine.trampoline.pages().len() implies machine.mem@.contains(
                #[trigger] machine.trampoline.pages()[k],
            ) by {
                assert(m0.contains(machine.trampoline.pages()[k]));
            }
        }
        machine.pids.dealloc(self.pid);
    }
}

} // verus!
