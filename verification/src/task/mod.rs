//! Tasks: their saved contexts, process identifiers, kernel stacks, the
//! scheduler, and the task manager.

pub mod context;
pub mod manager;
pub mod pid;
pub mod sched;

use vstd::prelude::*;
use context::TASK_CONTEXT_SIZE;
use pid::{
    pid_cost, pid_outcome, spec_kernel_stack_addr, without_stack, PidHandle, KERNEL_STACK_SIZE,
};
use sched::StrideSchedulerData;
use crate::error::{failure, KernelError};
use crate::loader::{
    app_loaded, elf_faulty, elf_load_error, elf_loads, elf_rejected, find_app, lemma_app_loaded_kept, AppInfo, AppManager, LoadedElf,
};
use crate::machine::Machine;
use crate::mm::addr::{VirtAddr, VirtPageNum, PAGE_SIZE, PAGE_SIZE_U64, VPN_LIMIT};
use crate::mm::aspace::{
    access_flags, confined, fork_outcome, forked, fresh_outcome, fresh_contents, fresh_view,
    lemma_contents_frame, lemma_locate_in_mapping, lemma_without_user, lemma_without_user_head,
    locate, put, unmap_find, views_owned, without_user, AddressSpace, MappingView,
};
use crate::mm::frame::{
    changes, lemma_changes_lift, lemma_changes_refl, lemma_changes_shape, lemma_changes_trans,
    lemma_owner_write, FrameAllocatorView,
};
use crate::mm::layout::{
    zero_depths, create_user_aspace, trampoline_view, trap_context_view, user_space_cost, user_space_depths,
    user_space_outcome, FLAGS_RW,
};
use crate::mm::memory::{lemma_page_set_word, MemoryView};
use crate::mm::page_table::{depth, depths, lemma_range_depth_outside, spec_token, PTEFlags};
use crate::mm::vmo::{contents, VMObject};
use crate::trap::context::{spec_new_words, TrapContext, TRAP_CONTEXT_WORDS};

verus! {

/// What a task is doing.
#[derive(Copy, Clone, Debug, PartialEq, Eq, Structural)]
pub enum TaskStatus {
    /// Waiting for the processor.
    Ready,
    /// On the processor.
    Running,
    /// Done; what it held is given back when it has left its kernel stack.
    Exited,
}

/// A user program that can be scheduled.
pub struct Task {
    /// The process identifier and the kernel stack.
    pub pid: PidHandle,
    /// The kernel stack pointer that the task was switched away from with.
    pub kernel_sp: u64,
    /// The address of the trap context in the address space of the task.
    pub trap_cx_ptr: u64,
    /// What the task is doing.
    pub status: TaskStatus,
    /// The address space of the task.
    pub aspace: AddressSpace,
    /// What the scheduler keeps for the task.
    pub sched_data: StrideSchedulerData,
    /// The priority of the task.
    pub priority: u64,
    /// The code that the task has ended with, once it has ended.
    pub exit_code: Option<i32>,
}

/// Whether the mappings start with those that every user program has: the
/// trampoline, and the page of the trap context.
pub open spec fn user_layout(views: Seq<MappingView>, trampoline: Seq<u64>) -> bool {
    &&& trampoline.len() < VPN_LIMIT - 1
    &&& views.len() >= 2
    &&& views[0] == trampoline_view(trampoline)
    &&& views[1] == trap_context_view(trampoline.len(), views[1].pages[0])
}

/// The address of the trap context in every user address space, where the
/// trampoline has `trampoline_pages` pages.
pub open spec fn trap_cx_addr(trampoline_pages: nat) -> int {
    (VPN_LIMIT - trampoline_pages - 1) * PAGE_SIZE
}

/// Whether no frame belongs to both sets.
pub open spec fn apart(a: Set<u64>, b: Set<u64>) -> bool {
    forall|p: u64| #[trigger] a.contains(p) ==> !b.contains(p)
}

/// What an unmapping for a user program finds carries the user flag.
pub proof fn lemma_unmap_find_user(views: Seq<MappingView>, base_vpn: u64, count: nat, from: int)
    requires
        0 <= from,
    ensures
        unmap_find(views, base_vpn, count, true, from) matches Some(k) ==> from <= k < views.len()
            && views[k].allows(PTEFlags::U) && views[k].base_vpn == base_vpn
            && views[k].page_count == count,
    decreases views.len() - from,
{
    if from < views.len() {
        lemma_unmap_find_user(views, base_vpn, count, from + 1);
    }
}

/// Mappings that start with those of every user program still do so after
/// those of a user program were taken away and mappings of frames of their
/// own were added, and they are as confined as before.
pub proof fn lemma_layout_kept(
    before: Seq<MappingView>,
    after: Seq<MappingView>,
    trampoline: Seq<u64>,
    a0: FrameAllocatorView,
    a1: FrameAllocatorView,
)
    requires
        user_layout(before, trampoline),
        confined(before, a0),
        a1.start == a0.start,
        a1.end == a0.end,
        after.len() >= without_user(before).len(),
        after.subrange(0, without_user(before).len() as int) == without_user(before),
        forall|k: int| without_user(before).len() <= k < after.len() ==> (#[trigger] after[k]).paged,
    ensures
        user_layout(after, trampoline),
        after[1] == before[1],
        confined(after, a1),
        views_owned(without_user(before)).contains(before[1].pages[0]),
{
    let base = without_user(before);
    assert(!before[0].allows(PTEFlags::U) && !before[1].allows(PTEFlags::U)) by {
        assert(10u8 & 16u8 != 16u8 && 6u8 & 16u8 != 16u8) by (bit_vector);
    }
    lemma_without_user_head(before);
    lemma_without_user(before);
    assert(after.subrange(0, base.len() as int)[0] == base[0]);
    assert(after.subrange(0, base.len() as int)[1] == base[1]);
    assert forall|k: int, i: int|
        0 <= k < after.len() && !(#[trigger] after[k]).paged && after[k].allows(PTEFlags::W) && 0
            <= i < after[k].pages.len() implies !(a1.start <= (#[trigger] after[k].pages[i])
        < a1.end) by {
        assert(k < base.len());
        assert(after.subrange(0, base.len() as int)[k] == base[k]);
        assert(before.contains(base[k]));
        let j = choose|j: int| 0 <= j < before.len() && before[j] == base[k];
        assert(!(a0.start <= before[j].pages[i] < a0.end));
    }
    assert(base[1].pages =~= seq![before[1].pages[0]]);
    assert(base[1].pages.contains(before[1].pages[0]));
    assert(base[1].owned().contains(before[1].pages[0]));
}

/// How the making of a task without a program ends on the machine `mc`:
/// as the handing out of a process identifier with its kernel stack ends,
/// and where that ends well, as the making of the address space ends that
/// a user program starts from, with the frames that are left.
pub open spec fn base_outcome(mc: Machine) -> Option<KernelError> {
    match pid_outcome(mc) {
        Some(e) => Some(e),
        None => user_space_outcome(
            mc.frames@.available() - pid_cost(mc),
            mc.trampoline.pages().len(),
        ),
    }
}

/// The number of frames that the making of a task without a program takes
/// on the machine `mc`.
pub open spec fn base_cost(mc: Machine) -> int {
    pid_cost(mc) + user_space_cost(mc.trampoline.pages().len())
}

/// Whether `e` is the error that making a task for the program named
/// `name` ends with on the machine `mc`: that of making the task, or that
/// of loading the program into the address space that a user program
/// starts from, with the frames that making the task has left.
pub open spec fn init_failure(mc: Machine, apps: Seq<AppInfo>, name: Seq<u8>, e: KernelError) -> bool {
    ||| base_outcome(mc) == Some(e)
    ||| base_outcome(mc).is_none() && exists|views: Seq<MappingView>|
        views.len() == 2 && user_layout(views, mc.trampoline.pages()) && #[trigger] elf_load_error(
            apps,
            name,
            views,
            mc.frames@.available() - base_cost(mc),
            user_space_depths(mc.trampoline.pages().len()),
            e,
        )
}

/// Whether the making of a task for the program named `name` ends well on
/// the machine `mc`: the task can be made, and the program can be loaded
/// into the address space that a user program starts from, with the frames
/// that making the task has left.
pub open spec fn init_succeeds(mc: Machine, apps: Seq<AppInfo>, name: Seq<u8>) -> bool {
    base_outcome(mc).is_none() && exists|views: Seq<MappingView>|
        views.len() == 2 && user_layout(views, mc.trampoline.pages()) && #[trigger] elf_loads(
            apps,
            name,
            views,
            mc.frames@.available() - base_cost(mc),
            user_space_depths(mc.trampoline.pages().len()),
        )
}

/// How the making of a child of the task `parent` ends on the machine
/// `mc`: as the handing out of a process identifier with its kernel stack
/// ends; where that ends well, with `OutOfFrames` where no frame is left
/// for the root of the page table; and else as the copying of the mappings
/// of the parent into an empty address space ends, with the frames that
/// are left.
pub open spec fn child_outcome(parent: Task, mc: Machine) -> Option<KernelError> {
    match pid_outcome(mc) {
        Some(e) => Some(e),
        None => if mc.frames@.available() - pid_cost(mc) < 1 {
            Some(KernelError::OutOfFrames)
        } else {
            fork_outcome(
                Seq::empty(),
                mc.frames@.available() - pid_cost(mc) - 1,
                zero_depths(),
                parent.aspace.views(),
                0,
            )
        },
    }
}

impl Task {
    /// The frames that the task owns.
    pub open spec fn owned(&self) -> Set<u64> {
        self.aspace.owned()
    }

    /// The frame that holds the trap context.
    pub open spec fn cx_frame(&self) -> u64 {
        self.aspace.views()[1].pages[0]
    }

    /// The words of the trap context as memory `m` holds them.
    pub open spec fn trap_cx_words(&self, m: MemoryView) -> Seq<u64> {
        Seq::new(TRAP_CONTEXT_WORDS as nat, |i: int| m.word(self.cx_frame(), i))
    }

    /// Whether the task is, on the machine `mc`, about to start the
    /// built-in program named `name`: its address space holds the
    /// trampoline, the trap context and then the program, and its trap
    /// context is that of a program that starts at the entry of the
    /// program on the stack of the program. `sstatus` is what the status
    /// register held when the task was made.
    pub open spec fn starts(&self, mc: Machine, apps: Seq<AppInfo>, name: Seq<u8>, sstatus: u64) -> bool {
        let words = self.trap_cx_words(mc.mem@);
        let l = LoadedElf { entry: words[33], user_sp: words[2] };
        &&& app_loaded(
            apps,
            name,
            self.aspace.views().subrange(0, 2),
            self.aspace.views(),
            mc.mem@,
            l,
        )
        &&& words == spec_new_words(
            l.entry,
            l.user_sp,
            sstatus,
            mc.trap_handler,
            spec_token(self.aspace.table().spec_root()),
            spec_token(mc.kernel_space.table().spec_root()),
            self.trap_cx_ptr,
            (self.cx_frame() * PAGE_SIZE) as u64,
            (self.pid.spec_stack() + KERNEL_STACK_SIZE) as u64,
        )
    }

    /// A task that is about to start a program stays so while the machine
    /// keeps the pages of the task.
    pub proof fn lemma_starts_kept(
        &self,
        mc0: Machine,
        mc1: Machine,
        apps: Seq<AppInfo>,
        name: Seq<u8>,
        sstatus: u64,
    )
        requires
            self.starts(mc0, apps, name, sstatus),
            self.space_ok(mc0.mem@, mc0.frames@, mc0.trampoline.pages()),
            mc1.same_statics(mc0),
            forall|p: u64|
                self.owned().contains(p) ==> #[trigger] mc1.mem@.page(p) == mc0.mem@.page(p),
        ensures
            self.starts(mc1, apps, name, sstatus),
    {
        let views = self.aspace.views();
        let words = self.trap_cx_words(mc0.mem@);
        let l = LoadedElf { entry: words[33], user_sp: words[2] };
        self.lemma_cx_frame(mc0.mem@, mc0.frames@, mc0.trampoline.pages());
        assert(self.trap_cx_words(mc1.mem@) =~= words);
        assert forall|k: int, j: int|
            2 <= k < views.len() && 0 <= j < views[k].pages.len() implies mc1.mem@.page(
            #[trigger] views[k].pages[j],
        ) == mc0.mem@.page(views[k].pages[j]) by {
            assert(views[k].paged);
            assert(views[k].pages.contains(views[k].pages[j]));
            assert(views[k].owned().contains(views[k].pages[j]));
            assert(views_owned(views).contains(views[k].pages[j]));
        }
        lemma_app_loaded_kept(apps, name, views.subrange(0, 2), views, mc0.mem@, mc1.mem@, l);
    }

    /// The address space of the task is well formed and has the layout of
    /// a user address space, with pages that the task can write in frames
    /// of its own.
    pub open spec fn space_ok(&self, m: MemoryView, a: FrameAllocatorView, trampoline: Seq<u64>) -> bool {
        &&& self.aspace.wf(m, a)
        &&& confined(self.aspace.views(), a)
        &&& user_layout(self.aspace.views(), trampoline)
        &&& self.trap_cx_ptr == trap_cx_addr(trampoline.len())
    }

    /// The task is well formed on the machine: its address space is, its
    /// identifier is in use, and it shares no frame with the kernel.
    pub open spec fn ok(&self, mc: Machine) -> bool {
        &&& self.space_ok(mc.mem@, mc.frames@, mc.trampoline.pages())
        &&& mc.pids@.in_use(self.pid.spec_value())
        &&& apart(self.owned(), mc.kernel_space.owned())
    }

    /// What a task writes into its memory is not seen by a task that
    /// shares no frame with it, as a child shares none with its parent:
    /// every frame of the other task, and so the contents of each of its
    /// mappings with frames of its own, stays as it was.
    pub proof fn lemma_write_unseen(&self, other: Task, mc: Machine, va: int, data: Seq<u8>)
        requires
            mc.wf(),
            self.ok(mc),
            other.ok(mc),
            apart(other.owned(), self.owned()),
        ensures
            ({
                let after = put(
                    mc.mem@,
                    self.aspace.views(),
                    va,
                    access_flags(PTEFlags::W, true),
                    data,
                );
                &&& forall|p: u64| other.owned().contains(p) ==> #[trigger] after.page(p) == mc.mem@.page(p)
                &&& forall|k: int|
                    0 <= k < other.aspace.views().len() && (#[trigger] other.aspace.views()[k]).paged
                        ==> contents(other.aspace.views()[k].pages, after) == contents(
                        other.aspace.views()[k].pages,
                        mc.mem@,
                    )
            }),
    {
        let flags = access_flags(PTEFlags::W, true);
        let after = put(mc.mem@, self.aspace.views(), va, flags, data);
        let f = PTEFlags::W;
        assert((f | 16u8) & f == f) by (bit_vector);
        self.aspace.lemma_write_keeps(mc.mem@, mc.frames@, va, flags, data);
        other.aspace.lemma_owned_allocated(mc.mem@, mc.frames@);
        assert forall|p: u64| other.owned().contains(p) implies #[trigger] after.page(p)
            == mc.mem@.page(p) by {
            reveal(changes);
        }
        let views = other.aspace.views();
        assert forall|k: int| 0 <= k < views.len() && (#[trigger] views[k]).paged implies contents(
            views[k].pages,
            after,
        ) == contents(views[k].pages, mc.mem@) by {
            assert forall|i: int| 0 <= i < views[k].pages.len() implies after.page(
                #[trigger] views[k].pages[i],
            ) == mc.mem@.page(views[k].pages[i]) by {
                assert(views[k].pages.contains(views[k].pages[i]));
                assert(views[k].owned().contains(views[k].pages[i]));
                assert(views_owned(views).contains(views[k].pages[i]));
            }
            lemma_contents_frame(views[k].pages, mc.mem@, after);
        }
    }

    /// The trap context lies in a frame of the task, below the trampoline.
    pub proof fn lemma_cx_frame(&self, m: MemoryView, a: FrameAllocatorView, trampoline: Seq<u64>)
        requires
            self.space_ok(m, a, trampoline),
        ensures
            m.contains(self.cx_frame()),
            a.is_allocated(self.cx_frame()),
            self.owned().contains(self.cx_frame()),
            views_owned(self.aspace.views()).contains(self.cx_frame()),
            !self.aspace.table().frames().contains(self.cx_frame()),
            locate(self.aspace.views(), self.trap_cx_ptr as int, PTEFlags::R) == Some(
                (self.cx_frame(), 0int),
            ),
            locate(self.aspace.views(), self.trap_cx_ptr as int, PTEFlags::W) == Some(
                (self.cx_frame(), 0int),
            ),
    {
        let views = self.aspace.views();
        self.aspace.lemma_shape(m, a);
        self.aspace.lemma_owned_allocated(m, a);
        assert(views[1].pages =~= seq![self.cx_frame()]);
        assert(views[1].pages.contains(self.cx_frame()));
        assert(views[1].owned().contains(self.cx_frame()));
        assert(views_owned(views).contains(self.cx_frame()));
        assert(FLAGS_RW & PTEFlags::R == PTEFlags::R && FLAGS_RW & PTEFlags::W == PTEFlags::W)
            by (bit_vector);
        lemma_locate_in_mapping(views, m, 1, PTEFlags::R, self.trap_cx_ptr as int);
        lemma_locate_in_mapping(views, m, 1, PTEFlags::W, self.trap_cx_ptr as int);
    }

    /// The trap context of the task, read from memory.
    pub fn load_trap_cx(&self, mc: &Machine) -> (cx: TrapContext)
        requires
            mc.mem.wf(),
            self.space_ok(mc.mem@, mc.frames@, mc.trampoline.pages()),
        ensures
            cx.words() == self.trap_cx_words(mc.mem@),
    {
        proof {
            self.lemma_cx_frame(mc.mem@, mc.frames@, mc.trampoline.pages());
            self.aspace.lemma_shape(mc.mem@, mc.frames@);
        }
        let frame = self.aspace.page_of(
            &mc.mem,
            VirtAddr(self.trap_cx_ptr),
            PTEFlags::from_bits_truncate(PTEFlags::R),
        ).unwrap();
        let mut words: Vec<u64> = Vec::new();
        let mut i: usize = 0;
        while i < TRAP_CONTEXT_WORDS
            invariant
                i <= TRAP_CONTEXT_WORDS,
                mc.mem.wf(),
                mc.mem@.contains(frame.0),
                words@.len() == i,
                forall|k: int| 0 <= k < i ==> words@[k] == mc.mem@.word(frame.0, k),
            decreases TRAP_CONTEXT_WORDS - i,
        {
            words.push(mc.mem.read_word(frame, i));
            i += 1;
        }
        proof {
            assert(words@ =~= self.trap_cx_words(mc.mem@));
        }
        TrapContext::from_words(&words)
    }

    /// Writes the trap context of the task into memory.
    pub fn store_trap_cx(&self, mc: &mut Machine, cx: &TrapContext)
        requires
            old(mc).wf(),
            self.ok(*old(mc)),
        ensures
            final(mc).wf(),
            self.ok(*final(mc)),
            final(mc).frames == old(mc).frames,
            final(mc).pids == old(mc).pids,
            final(mc).kernel_space == old(mc).kernel_space,
            final(mc).trampoline == old(mc).trampoline,
            final(mc).launch == old(mc).launch,
            final(mc).trap_handler == old(mc).trap_handler,
            self.trap_cx_words(final(mc).mem@) == cx.words(),
            forall|k: int|
                TRAP_CONTEXT_WORDS <= k < 512 ==> #[trigger] final(mc).mem@.word(self.cx_frame(), k)
                    == old(mc).mem@.word(self.cx_frame(), k),
            forall|p: u64|
                old(mc).mem@.contains(p) && p != self.cx_frame() ==> #[trigger] final(mc).mem@.page(p)
                    == old(mc).mem@.page(p),
            changes(
                self.owned(),
                old(mc).mem@,
                old(mc).frames@,
                self.owned(),
                final(mc).mem@,
                final(mc).frames@,
            ),
    {
        let ghost m0 = mc.mem@;
        let ghost a0 = mc.frames@;
        let ghost tp = mc.trampoline.pages();
        proof {
            self.lemma_cx_frame(m0, a0, tp);
            self.aspace.lemma_shape(m0, a0);
            self.aspace.lemma_owned_allocated(m0, a0);
        }
        let frame = self.aspace.page_of(
            &mc.mem,
            VirtAddr(self.trap_cx_ptr),
            PTEFlags::from_bits_truncate(PTEFlags::R),
        ).unwrap();
        let words = cx.to_words();
        let mut i: usize = 0;
        while i < TRAP_CONTEXT_WORDS
            invariant
                i <= TRAP_CONTEXT_WORDS,
                mc.mem.wf(),
                mc.mem@.same_shape(m0),
                mc.mem@.contains(frame.0),
                frame.0 == self.cx_frame(),
                words@ == cx.words(),
                words@.len() == TRAP_CONTEXT_WORDS,
                mc.frames == old(mc).frames,
                mc.pids == old(mc).pids,
                mc.kernel_space == old(mc).kernel_space,
                mc.trampoline == old(mc).trampoline,
                mc.launch == old(mc).launch,
                mc.trap_handler == old(mc).trap_handler,
                forall|k: int| 0 <= k < i ==> mc.mem@.word(frame.0, k) == words@[k],
                forall|k: int|
                    TRAP_CONTEXT_WORDS <= k < 512 ==> #[trigger] mc.mem@.word(frame.0, k)
                        == m0.word(frame.0, k),
                forall|p: u64|
                    m0.contains(p) && p != frame.0 ==> #[trigger] mc.mem@.page(p) == m0.page(p),
            decreases TRAP_CONTEXT_WORDS - i,
        {
            let ghost before = mc.mem@;
            mc.mem.write_word(frame, i, words[i]);
            proof {
                lemma_page_set_word(before.page(frame.0), i as int, words@[i as int]);
                assert forall|k: int| 0 <= k < i + 1 implies mc.mem@.word(frame.0, k)
                    == words@[k] by {
                    if k < i {
                        assert(before.word(frame.0, k) == words@[k]);
                    }
                }
                assert forall|p: u64| m0.contains(p) && p != frame.0 implies #[trigger] mc.mem@.page(
                    p,
                ) == m0.page(p) by {
                    assert(before.page(p) == m0.page(p));
                }
                assert forall|k: int| TRAP_CONTEXT_WORDS <= k < 512 implies #[trigger] mc.mem@.word(
                    frame.0,
                    k,
                ) == m0.word(frame.0, k) by {
                    assert(before.word(frame.0, k) == m0.word(frame.0, k));
                }
            }
            i += 1;
        }
        proof {
            let m1 = mc.mem@;
            assert(self.trap_cx_words(m1) =~= cx.words());
            assert forall|p: u64| m0.contains(p) && !self.owned().contains(p)
                implies #[trigger] m1.page(p) == m0.page(p) by {}
            lemma_owner_write(self.owned(), m0, a0, m1);
            assert forall|p: u64| self.aspace.table().frames().contains(p)
                implies #[trigger] m1.page(p) == m0.page(p) by {
                assert(m0.contains(p)) by {
                    assert(self.owned().contains(p));
                }
            }
            self.aspace.lemma_wf_frame(m0, a0, m1, a0);
            mc.kernel_space.lemma_bystander(self.owned(), m0, a0, self.owned(), m1, a0);
            assert forall|k: int| 0 <= k < tp.len() implies m1.contains(#[trigger] tp[k]) by {
                assert(m0.contains(tp[k]));
            }
        }
    }

    /// A task with a process identifier, a kernel stack and an address
    /// space of its own that holds nothing but the trampoline and a trap
    /// context with every register zero. `sstatus` is what the status
    /// register reads at present.
    ///
    /// Fails as the allocation of the identifier or the making of the
    /// address space fails; then no identifier and no frame more is handed
    /// out.
    pub fn new_base(mc: &mut Machine, sstatus: u64) -> (r: Result<Task, KernelError>)
        requires
            old(mc).wf(),
        ensures
            final(mc).wf(),
            final(mc).same_statics(*old(mc)),
            r matches Ok(t) ==> {
                &&& t.ok(*final(mc))
                &&& final(mc).step(
                    *old(mc),
                    old(mc).kernel_space.owned(),
                    final(mc).kernel_space.owned().union(t.owned()),
                )
                &&& t.status == TaskStatus::Ready
                &&& t.priority == 2
                &&& t.sched_data.stride == 0
                &&& t.exit_code.is_none()
                &&& t.aspace.views().len() == 2
                &&& !old(mc).pids@.in_use(t.pid.spec_value())
                &&& forall|q: usize|
                    #![trigger final(mc).pids@.in_use(q)]
                    final(mc).pids@.in_use(q) == (old(mc).pids@.in_use(q) || q
                        == t.pid.spec_value())
                &&& t.kernel_sp == t.pid.spec_stack() + KERNEL_STACK_SIZE - TASK_CONTEXT_SIZE
                &&& t.pid.spec_stack() == spec_kernel_stack_addr(
                    old(mc).trampoline.pages().len() as int,
                    t.pid.spec_value() as int,
                )
                &&& t.trap_cx_words(final(mc).mem@) == spec_new_words(
                    0,
                    0,
                    sstatus,
                    final(mc).trap_handler,
                    spec_token(t.aspace.table().spec_root()),
                    spec_token(final(mc).kernel_space.table().spec_root()),
                    t.trap_cx_ptr,
                    (t.cx_frame() * PAGE_SIZE) as u64,
                    (t.pid.spec_stack() + KERNEL_STACK_SIZE) as u64,
                )
            },
            r.is_err() ==> {
                &&& final(mc).step(
                    *old(mc),
                    old(mc).kernel_space.owned(),
                    final(mc).kernel_space.owned(),
                )
                &&& forall|q: usize|
                    #![trigger final(mc).pids@.in_use(q)]
                    final(mc).pids@.in_use(q) == old(mc).pids@.in_use(q)
            },
            failure(r) == base_outcome(*old(mc)),
            r matches Ok(t) ==> {
                &&& final(mc).frames@.available() == old(mc).frames@.available() - base_cost(
                    *old(mc),
                )
                &&& depths(final(mc).mem@, t.aspace.table().spec_root()) == user_space_depths(
                    old(mc).trampoline.pages().len(),
                )
                &&& t.aspace.user_frames() == 0
            },
    {
        let ghost mc0 = *mc;
        let ghost k0 = mc.kernel_space.owned();
        let ghost tp = mc.trampoline.pages();
        let pid = match PidHandle::allocate(mc) {
            Ok(p) => p,
            Err(e) => {
                return Err(e);
            },
        };
        let ghost mc1 = *mc;
        let ghost k1 = mc.kernel_space.owned();
        let ghost none = Set::<u64>::empty();
        proof {
            mc.kernel_space.lemma_owned_allocated(mc.mem@, mc.frames@);
        }
        let made = create_user_aspace(&mut mc.mem, &mut mc.frames, &mc.trampoline);
        proof {
            let own1 = if made.is_ok() {
                made.unwrap().0.owned()
            } else {
                none
            };
            mc1.kernel_space.lemma_bystander(
                none,
                mc1.mem@,
                mc1.frames@,
                own1,
                mc.mem@,
                mc.frames@,
            );
            lemma_changes_lift(none, mc1.mem@, mc1.frames@, own1, mc.mem@, mc.frames@, k1);
            assert(none.union(k1) =~= k1);
            lemma_changes_trans(
                k0,
                mc0.mem@,
                mc0.frames@,
                k1,
                mc1.mem@,
                mc1.frames@,
                own1.union(k1),
                mc.mem@,
                mc.frames@,
            );
            lemma_changes_shape(none, mc1.mem@, mc1.frames@, own1, mc.mem@, mc.frames@);
            assert forall|k: int| 0 <= k < tp.len() implies mc.mem@.contains(#[trigger] tp[k]) by {
                assert(mc1.mem@.contains(tp[k]));
            }
        }
        let (space, cx_va) = match made {
            Ok(pair) => pair,
            Err(e) => {
                let ghost mc2 = *mc;
                proof {
                    assert(none.union(k1) =~= k1);
                }
                pid.release(mc);
                proof {
                    lemma_changes_trans(
                        k0,
                        mc0.mem@,
                        mc0.frames@,
                        k1,
                        mc2.mem@,
                        mc2.frames@,
                        mc.kernel_space.owned(),
                        mc.mem@,
                        mc.frames@,
                    );
                }
                return Err(e);
            },
        };
        proof {
            space.lemma_shape(mc.mem@, mc.frames@);
            assert(space.owned().union(k1) =~= k1.union(space.owned()));
        }
        let token = space.token();
        let kernel_token = mc.kernel_space.token();
        let stack = pid.kernel_stack();
        let frame = space.page_of(
            &mc.mem,
            cx_va,
            PTEFlags::from_bits_truncate(PTEFlags::R),
        );
        let task = Task {
            pid,
            kernel_sp: stack.get_init_sp(),
            trap_cx_ptr: cx_va.0,
            status: TaskStatus::Ready,
            aspace: space,
            sched_data: StrideSchedulerData { stride: 0 },
            priority: 2,
            exit_code: None,
        };
        proof {
            task.lemma_cx_frame(mc.mem@, mc.frames@, tp);
        }
        let kernel_cx: u64 = frame.unwrap().0 * PAGE_SIZE_U64;
        let cx = TrapContext::new(
            0,
            0,
            sstatus,
            mc.trap_handler,
            token,
            kernel_token,
            cx_va.0,
            kernel_cx,
            stack.get_bottom_sp(),
        );
        let ghost mc2 = *mc;
        task.store_trap_cx(mc, &cx);
        proof {
            lemma_changes_lift(
                task.owned(),
                mc2.mem@,
                mc2.frames@,
                task.owned(),
                mc.mem@,
                mc.frames@,
                k1,
            );
            lemma_changes_trans(
                k0,
                mc0.mem@,
                mc0.frames@,
                task.owned().union(k1),
                mc2.mem@,
                mc2.frames@,
                task.owned().union(k1),
                mc.mem@,
                mc.frames@,
            );
            assert(task.owned().union(k1) =~= mc.kernel_space.owned().union(task.owned()));
            let root = task.aspace.table().spec_root();
            assert forall|p: u64| task.aspace.table().frames().contains(p) implies #[trigger] mc.mem@.page(
                p,
            ) == mc2.mem@.page(p) by {
                assert(mc2.mem@.contains(p));
            }
            lemma_changes_shape(
                task.owned(),
                mc2.mem@,
                mc2.frames@,
                task.owned(),
                mc.mem@,
                mc.frames@,
            );
            task.aspace.table().lemma_inv_frame(mc2.mem@, mc.mem@);
            let tb = (VPN_LIMIT - tp.len()) as u64;
            assert forall|v: u64| #[trigger] depths(mc.mem@, root)(v) == user_space_depths(
                tp.len(),
            )(v) by {
                if v >= VPN_LIMIT {
                    lemma_range_depth_outside(0, v, tb, tp.len() as int);
                    lemma_range_depth_outside(0, v, (tb - 1) as u64, 1);
                } else {
                    assert(depth(mc2.mem@, root, v) == user_space_depths(tp.len())(v));
                }
            }
            assert(depths(mc.mem@, root) =~= user_space_depths(tp.len()));
            let views = task.aspace.views();
            assert(!views[0].allows(PTEFlags::U) && !views[1].allows(PTEFlags::U)) by {
                assert(10u8 & 16u8 != 16u8 && 6u8 & 16u8 != 16u8) by (bit_vector);
            }
            lemma_without_user_head(views);
            lemma_without_user(views);
            assert(without_user(views) =~= views);
        }
        Ok(task)
    }

    /// Puts the built-in program named `name` into the address space of
    /// the task, in place of the program that was there, and makes the
    /// task go on at the start of the new program on a new stack. The
    /// process identifier and the page of the trap context stay.
    ///
    /// Fails as the loading of the program fails; the trap context is then
    /// as it was, and where the program is turned away before anything is
    /// done, so are the task and the machine.
    pub fn exec(&mut self, mc: &mut Machine, apps: &AppManager, name: &[u8]) -> (r: Result<
        LoadedElf,
        KernelError,
    >)
        requires
            old(mc).wf(),
            old(self).ok(*old(mc)),
        ensures
            final(mc).wf(),
            final(mc).same_statics(*old(mc)),
            final(mc).pids == old(mc).pids,
            final(mc).kernel_space == old(mc).kernel_space,
            final(self).ok(*final(mc)),
            final(mc).step(*old(mc), old(self).owned(), final(self).owned()),
            final(self).pid == old(self).pid,
            final(self).kernel_sp == old(self).kernel_sp,
            final(self).trap_cx_ptr == old(self).trap_cx_ptr,
            final(self).status == old(self).status,
            final(self).sched_data == old(self).sched_data,
            final(self).priority == old(self).priority,
            final(self).exit_code == old(self).exit_code,
            final(self).cx_frame() == old(self).cx_frame(),
            final(self).aspace.table().spec_root() == old(self).aspace.table().spec_root(),
            r matches Ok(l) ==> final(self).trap_cx_words(final(mc).mem@) == old(self).trap_cx_words(old(mc).mem@).update(33, l.entry).update(2, l.user_sp),
            r.is_err() ==> final(self).trap_cx_words(final(mc).mem@) == old(self).trap_cx_words(
                old(mc).mem@,
            ),
            find_app(apps.apps(), name@, 0).is_none() ==> r == Err::<LoadedElf, KernelError>(
                KernelError::NotFound,
            ) && final(self).aspace.views() == old(self).aspace.views(),
            r matches Err(e) ==> elf_load_error(
                apps.apps(),
                name@,
                old(self).aspace.views(),
                old(mc).frames@.available() + old(self).aspace.user_frames(),
                depths(old(mc).mem@, old(self).aspace.table().spec_root()),
                e,
            ),
            r.is_ok() ==> elf_loads(
                apps.apps(),
                name@,
                old(self).aspace.views(),
                old(mc).frames@.available() + old(self).aspace.user_frames(),
                depths(old(mc).mem@, old(self).aspace.table().spec_root()),
            ),
            r matches Ok(l) ==> app_loaded(
                apps.apps(),
                name@,
                without_user(old(self).aspace.views()),
                final(self).aspace.views(),
                final(mc).mem@,
                l,
            ),
            elf_rejected(apps.apps(), name@) ==> r.is_err() && *final(self) == *old(self)
                && *final(mc) == *old(mc),
            elf_faulty(apps.apps(), name@) ==> r.is_err(),
    {
        let ghost mc0 = *mc;
        let ghost own0 = self.owned();
        let ghost views0 = self.aspace.views();
        let ghost tp = mc.trampoline.pages();
        let ghost frame = self.cx_frame();
        let ghost words0 = self.trap_cx_words(mc.mem@);
        proof {
            self.lemma_cx_frame(mc.mem@, mc.frames@, tp);
            lemma_without_user(views0);
        }
        let r = apps.load_elf(name, &mut self.aspace, &mut mc.mem, &mut mc.frames);
        proof {
            let views1 = self.aspace.views();
            lemma_changes_shape(
                own0,
                mc0.mem@,
                mc0.frames@,
                self.owned(),
                mc.mem@,
                mc.frames@,
            );
            mc0.kernel_space.lemma_bystander(
                own0,
                mc0.mem@,
                mc0.frames@,
                self.owned(),
                mc.mem@,
                mc.frames@,
            );
            assert forall|k: int| 0 <= k < tp.len() implies mc.mem@.contains(#[trigger] tp[k]) by {
                assert(mc0.mem@.contains(tp[k]));
            }
            if views1 != views0 {
                lemma_layout_kept(views0, views1, tp, mc0.frames@, mc.frames@);
            }
            if views1 == views0 {
                assert(views_owned(without_user(views0)).contains(frame)) by {
                    assert(views0.subrange(0, views0.len() as int) =~= views0);
                    assert(!views0[0].allows(PTEFlags::U) && !views0[1].allows(PTEFlags::U)) by {
                        assert(10u8 & 16u8 != 16u8 && 6u8 & 16u8 != 16u8) by (bit_vector);
                    }
                    lemma_without_user_head(views0);
                    let base = without_user(views0);
                    assert(base[1].pages =~= seq![frame]);
                    assert(base[1].pages.contains(frame));
                    assert(base[1].owned().contains(frame));
                }
            }
            assert(mc.mem@.page(frame) == mc0.mem@.page(frame));
            assert(self.trap_cx_words(mc.mem@) =~= words0);
        }
        match r {
            Err(e) => Err(e),
            Ok(l) => {
                let mut cx = self.load_trap_cx(mc);
                cx.set_pc(l.entry);
                cx.set_sp(l.user_sp);
                let ghost mc1 = *mc;
                self.store_trap_cx(mc, &cx);
                proof {
                    let views1 = self.aspace.views();
                    let base = without_user(views0);
                    assert(!views0[0].allows(PTEFlags::U) && !views0[1].allows(PTEFlags::U)) by {
                        assert(10u8 & 16u8 != 16u8 && 6u8 & 16u8 != 16u8) by (bit_vector);
                    }
                    lemma_without_user_head(views0);
                    assert(views1[1] == views1.subrange(0, base.len() as int)[1]);
                    assert(views1[1].pages =~= seq![frame]);
                    assert(views1[1].pages.contains(frame));
                    assert(views1[1].owned().contains(frame));
                    assert forall|k: int, j: int|
                        base.len() <= k < views1.len() && 0 <= j < views1[k].pages.len() implies mc.mem@.page(
                        #[trigger] views1[k].pages[j],
                    ) == mc1.mem@.page(views1[k].pages[j]) by {
                        let p = views1[k].pages[j];
                        assert(views1[k].paged);
                        assert(views1[k].pages.contains(p));
                        assert(views1[k].owned().contains(p));
                        assert(views1[k].wf(mc1.mem@, mc1.frames@));
                        assert(p != frame);
                    }
                    lemma_app_loaded_kept(
                        apps.apps(),
                        name@,
                        base,
                        views1,
                        mc1.mem@,
                        mc.mem@,
                        l,
                    );
                    lemma_changes_trans(
                        own0,
                        mc0.mem@,
                        mc0.frames@,
                        self.owned(),
                        mc1.mem@,
                        mc1.frames@,
                        self.owned(),
                        mc.mem@,
                        mc.frames@,
                    );
                }
                Ok(l)
            },
        }
    }

    /// A task that runs the built-in program named `name` from its start.
    ///
    /// Fails as the making of the task or the loading of the program
    /// fails; then no identifier and no frame more is handed out.
    pub fn new_init(mc: &mut Machine, apps: &AppManager, name: &[u8], sstatus: u64) -> (r: Result<
        Task,
        KernelError,
    >)
        requires
            old(mc).wf(),
        ensures
            final(mc).wf(),
            final(mc).same_statics(*old(mc)),
            r matches Ok(t) ==> {
                &&& t.ok(*final(mc))
                &&& final(mc).step(
                    *old(mc),
                    old(mc).kernel_space.owned(),
                    final(mc).kernel_space.owned().union(t.owned()),
                )
                &&& t.status == TaskStatus::Ready
                &&& t.priority == 2
                &&& t.sched_data.stride == 0
                &&& t.exit_code.is_none()
                &&& !old(mc).pids@.in_use(t.pid.spec_value())
                &&& forall|q: usize|
                    #![trigger final(mc).pids@.in_use(q)]
                    final(mc).pids@.in_use(q) == (old(mc).pids@.in_use(q) || q
                        == t.pid.spec_value())
                &&& t.kernel_sp == t.pid.spec_stack() + KERNEL_STACK_SIZE - TASK_CONTEXT_SIZE
                &&& t.pid.spec_stack() == spec_kernel_stack_addr(
                    old(mc).trampoline.pages().len() as int,
                    t.pid.spec_value() as int,
                )
                &&& t.starts(*final(mc), apps.apps(), name@, sstatus)
            },
            r.is_err() ==> {
                &&& final(mc).step(
                    *old(mc),
                    old(mc).kernel_space.owned(),
                    final(mc).kernel_space.owned(),
                )
                &&& forall|q: usize|
                    #![trigger final(mc).pids@.in_use(q)]
                    final(mc).pids@.in_use(q) == old(mc).pids@.in_use(q)
            },
            r matches Err(e) ==> init_failure(*old(mc), apps.apps(), name@, e),
            r.is_ok() ==> init_succeeds(*old(mc), apps.apps(), name@),
    {
        let ghost mc0 = *mc;
        let ghost k0 = mc.kernel_space.owned();
        let mut task = match Task::new_base(mc, sstatus) {
            Ok(t) => t,
            Err(e) => {
                return Err(e);
            },
        };
        let ghost mc1 = *mc;
        let ghost k1 = mc.kernel_space.owned();
        let ghost own1 = task.owned();
        let ghost views1 = task.aspace.views();
        let ghost words1 = task.trap_cx_words(mc.mem@);
        proof {
            mc.kernel_space.lemma_owned_allocated(mc.mem@, mc.frames@);
            assert(!views1[0].allows(PTEFlags::U) && !views1[1].allows(PTEFlags::U)) by {
                assert(10u8 & 16u8 != 16u8 && 6u8 & 16u8 != 16u8) by (bit_vector);
            }
            lemma_without_user_head(views1);
            lemma_without_user(views1);
            assert(without_user(views1) =~= views1);
        }
        let r = task.exec(mc, apps, name);
        proof {
            lemma_changes_lift(
                own1,
                mc1.mem@,
                mc1.frames@,
                task.owned(),
                mc.mem@,
                mc.frames@,
                k1,
            );
            assert(own1.union(k1) =~= k1.union(own1));
            assert(task.owned().union(k1) =~= k1.union(task.owned()));
            lemma_changes_trans(
                k0,
                mc0.mem@,
                mc0.frames@,
                k1.union(own1),
                mc1.mem@,
                mc1.frames@,
                k1.union(task.owned()),
                mc.mem@,
                mc.frames@,
            );
        }
        match r {
            Ok(l) => {
                proof {
                    assert(elf_loads(
                        apps.apps(),
                        name@,
                        views1,
                        mc0.frames@.available() - base_cost(mc0),
                        user_space_depths(mc0.trampoline.pages().len()),
                    ));
                    let words = task.trap_cx_words(mc.mem@);
                    assert(words == words1.update(33, l.entry).update(2, l.user_sp));
                    assert(words =~= spec_new_words(
                        l.entry,
                        l.user_sp,
                        sstatus,
                        mc.trap_handler,
                        spec_token(task.aspace.table().spec_root()),
                        spec_token(mc.kernel_space.table().spec_root()),
                        task.trap_cx_ptr,
                        (task.cx_frame() * PAGE_SIZE) as u64,
                        (task.pid.spec_stack() + KERNEL_STACK_SIZE) as u64,
                    ));
                    assert(l == LoadedElf { entry: words[33], user_sp: words[2] });
                    assert(task.aspace.views().subrange(0, 2) == views1);
                }
                Ok(task)
            },
            Err(e) => {
                let ghost mc2 = *mc;
                task.release(mc);
                proof {
                    lemma_changes_trans(
                        k0,
                        mc0.mem@,
                        mc0.frames@,
                        k1.union(task.owned()),
                        mc2.mem@,
                        mc2.frames@,
                        mc.kernel_space.owned(),
                        mc.mem@,
                        mc.frames@,
                    );
                }
                Err(e)
            },
        }
    }

    /// A child of the task under a new process identifier: an address
    /// space with the same mappings, in which every page that the task owns
    /// is duplicated into a frame of the child's own, and a trap context
    /// with the same registers but for the register of the result, which is
    /// zero.
    ///
    /// Fails as the allocation of the identifier, the making of the address
    /// space or the copying fails; then no identifier and no frame more is
    /// handed out.
    pub fn new_fork(&self, mc: &mut Machine) -> (r: Result<Task, KernelError>)
        requires
            old(mc).wf(),
            self.ok(*old(mc)),
        ensures
            final(mc).wf(),
            final(mc).same_statics(*old(mc)),
            self.ok(*final(mc)),
            self.trap_cx_words(final(mc).mem@) == self.trap_cx_words(old(mc).mem@),
            forall|p: u64|
                self.owned().contains(p) ==> #[trigger] final(mc).mem@.page(p) == old(mc).mem@.page(
                    p,
                ),
            r matches Ok(child) ==> {
                let theirs = self.trap_cx_words(old(mc).mem@);
                let words = child.trap_cx_words(final(mc).mem@);
                &&& child.ok(*final(mc))
                &&& final(mc).step(
                    *old(mc),
                    old(mc).kernel_space.owned(),
                    final(mc).kernel_space.owned().union(child.owned()),
                )
                &&& apart(child.owned(), self.owned())
                &&& child.status == TaskStatus::Ready
                &&& child.priority == 2
                &&& child.sched_data.stride == 0
                &&& child.exit_code.is_none()
                &&& !old(mc).pids@.in_use(child.pid.spec_value())
                &&& forall|q: usize|
                    #![trigger final(mc).pids@.in_use(q)]
                    final(mc).pids@.in_use(q) == (old(mc).pids@.in_use(q) || q
                        == child.pid.spec_value())
                &&& child.kernel_sp == child.pid.spec_stack() + KERNEL_STACK_SIZE
                    - TASK_CONTEXT_SIZE
                &&& child.pid.spec_stack() == spec_kernel_stack_addr(
                    old(mc).trampoline.pages().len() as int,
                    child.pid.spec_value() as int,
                )
                &&& words.subrange(0, 32) == theirs.subrange(0, 32).update(10, 0)
                &&& words[32] == theirs[32]
                &&& words[33] == theirs[33]
                &&& words[34] == final(mc).trap_handler
                &&& words[35] == spec_token(child.aspace.table().spec_root())
                &&& words[36] == spec_token(final(mc).kernel_space.table().spec_root())
                &&& words[37] == child.trap_cx_ptr
                &&& words[38] == child.cx_frame() * PAGE_SIZE
                &&& words[39] == child.pid.spec_stack() + KERNEL_STACK_SIZE
                &&& child.aspace.views().len() == self.aspace.views().len()
                &&& forall|k: int|
                    0 <= k < self.aspace.views().len() && k != 1 ==> forked(
                        #[trigger] self.aspace.views()[k],
                        old(mc).mem@,
                        child.aspace.views()[k],
                        final(mc).mem@,
                    )
            },
            r.is_err() ==> {
                &&& final(mc).step(
                    *old(mc),
                    old(mc).kernel_space.owned(),
                    final(mc).kernel_space.owned(),
                )
                &&& forall|q: usize|
                    #![trigger final(mc).pids@.in_use(q)]
                    final(mc).pids@.in_use(q) == old(mc).pids@.in_use(q)
            },
            failure(r) == child_outcome(*self, *old(mc)),
    {
        let ghost mc0 = *mc;
        let ghost k0 = mc.kernel_space.owned();
        let ghost tp = mc.trampoline.pages();
        let ghost mine = self.owned();
        let ghost none = Set::<u64>::empty();
        let ghost theirs = self.trap_cx_words(mc.mem@);
        let ghost views0 = self.aspace.views();
        proof {
            self.lemma_cx_frame(mc.mem@, mc.frames@, tp);
        }
        let pid = match PidHandle::allocate(mc) {
            Ok(p) => p,
            Err(e) => {
                proof {
                    self.aspace.lemma_bystander(
                        k0,
                        mc0.mem@,
                        mc0.frames@,
                        mc.kernel_space.owned(),
                        mc.mem@,
                        mc.frames@,
                    );
                    assert(self.trap_cx_words(mc.mem@) =~= theirs);
                }
                return Err(e);
            },
        };
        let ghost mc1 = *mc;
        let ghost k1 = mc.kernel_space.owned();
        proof {
            self.aspace.lemma_bystander(k0, mc0.mem@, mc0.frames@, k1, mc1.mem@, mc1.frames@);
            mc.kernel_space.lemma_owned_allocated(mc.mem@, mc.frames@);
            self.aspace.lemma_owned_allocated(mc.mem@, mc.frames@);
        }
        let made = AddressSpace::new(&mut mc.mem, &mut mc.frames);
        let ghost mc2 = *mc;
        proof {
            let own2 = if made.is_some() {
                made.unwrap().owned()
            } else {
                none
            };
            if made.is_none() {
                lemma_changes_refl(none, mc1.mem@, mc1.frames@);
            }
            mc1.kernel_space.lemma_bystander(none, mc1.mem@, mc1.frames@, own2, mc2.mem@, mc2.frames@);
            self.aspace.lemma_bystander(none, mc1.mem@, mc1.frames@, own2, mc2.mem@, mc2.frames@);
            lemma_changes_lift(none, mc1.mem@, mc1.frames@, own2, mc2.mem@, mc2.frames@, k1);
            assert(none.union(k1) =~= k1);
            lemma_changes_trans(
                k0,
                mc0.mem@,
                mc0.frames@,
                k1,
                mc1.mem@,
                mc1.frames@,
                own2.union(k1),
                mc2.mem@,
                mc2.frames@,
            );
            lemma_changes_shape(none, mc1.mem@, mc1.frames@, own2, mc2.mem@, mc2.frames@);
            assert forall|k: int| 0 <= k < tp.len() implies mc2.mem@.contains(#[trigger] tp[k]) by {
                assert(mc1.mem@.contains(tp[k]));
            }
        }
        let mut space = match made {
            Some(s) => s,
            None => {
                pid.release(mc);
                proof {
                    self.aspace.lemma_bystander(
                        k1,
                        mc2.mem@,
                        mc2.frames@,
                        mc.kernel_space.owned(),
                        mc.mem@,
                        mc.frames@,
                    );
                    lemma_changes_trans(
                        k0,
                        mc0.mem@,
                        mc0.frames@,
                        k1,
                        mc2.mem@,
                        mc2.frames@,
                        mc.kernel_space.owned(),
                        mc.mem@,
                        mc.frames@,
                    );
                    assert(self.trap_cx_words(mc.mem@) =~= theirs);
                }
                return Err(KernelError::OutOfFrames);
            },
        };
        let ghost own2 = space.owned();
        proof {
            assert(depths(mc.mem@, space.table().spec_root()) =~= zero_depths());
            mc1.frames@.lemma_alloc_fresh();
        }
        let r = space.fork_from(&self.aspace, &mut mc.mem, &mut mc.frames);
        let ghost mc3 = *mc;
        let ghost own3 = space.owned();
        proof {
            mc2.kernel_space.lemma_bystander(own2, mc2.mem@, mc2.frames@, own3, mc3.mem@, mc3.frames@);
            lemma_changes_lift(own2, mc2.mem@, mc2.frames@, own3, mc3.mem@, mc3.frames@, k1);
            lemma_changes_trans(
                k0,
                mc0.mem@,
                mc0.frames@,
                own2.union(k1),
                mc2.mem@,
                mc2.frames@,
                own3.union(k1),
                mc3.mem@,
                mc3.frames@,
            );
            lemma_changes_shape(own2, mc2.mem@, mc2.frames@, own3, mc3.mem@, mc3.frames@);
            assert forall|k: int| 0 <= k < tp.len() implies mc3.mem@.contains(#[trigger] tp[k]) by {
                assert(mc2.mem@.contains(tp[k]));
            }
            assert(self.trap_cx_words(mc3.mem@) =~= theirs);
        }
        match r {
            Ok(()) => {},
            Err(e) => {
                space.destroy(&mut mc.mem, &mut mc.frames);
                let ghost mc4 = *mc;
                proof {
                    mc3.kernel_space.lemma_bystander(
                        own3,
                        mc3.mem@,
                        mc3.frames@,
                        none,
                        mc4.mem@,
                        mc4.frames@,
                    );
                    self.aspace.lemma_bystander(
                        own3,
                        mc3.mem@,
                        mc3.frames@,
                        none,
                        mc4.mem@,
                        mc4.frames@,
                    );
                    lemma_changes_lift(own3, mc3.mem@, mc3.frames@, none, mc4.mem@, mc4.frames@, k1);
                    assert(none.union(k1) =~= k1);
                    lemma_changes_trans(
                        k0,
                        mc0.mem@,
                        mc0.frames@,
                        own3.union(k1),
                        mc3.mem@,
                        mc3.frames@,
                        k1,
                        mc4.mem@,
                        mc4.frames@,
                    );
                    lemma_changes_shape(own3, mc3.mem@, mc3.frames@, none, mc4.mem@, mc4.frames@);
                    assert forall|k: int| 0 <= k < tp.len() implies mc4.mem@.contains(
                        #[trigger] tp[k],
                    ) by {
                        assert(mc3.mem@.contains(tp[k]));
                    }
                }
                pid.release(mc);
                proof {
                    self.aspace.lemma_bystander(
                        k1,
                        mc4.mem@,
                        mc4.frames@,
                        mc.kernel_space.owned(),
                        mc.mem@,
                        mc.frames@,
                    );
                    lemma_changes_trans(
                        k0,
                        mc0.mem@,
                        mc0.frames@,
                        k1,
                        mc4.mem@,
                        mc4.frames@,
                        mc.kernel_space.owned(),
                        mc.mem@,
                        mc.frames@,
                    );
                    assert(self.trap_cx_words(mc.mem@) =~= theirs);
                }
                return Err(e);
            },
        }
        let token = space.token();
        let kernel_token = mc.kernel_space.token();
        let stack = pid.kernel_stack();
        let child = Task {
            pid,
            kernel_sp: stack.get_init_sp(),
            trap_cx_ptr: self.trap_cx_ptr,
            status: TaskStatus::Ready,
            aspace: space,
            sched_data: StrideSchedulerData { stride: 0 },
            priority: 2,
            exit_code: None,
        };
        proof {
            let views = child.aspace.views();
            assert(views.subrange(0, 0) =~= Seq::<MappingView>::empty());
            assert(forked(views0[0], mc2.mem@, views[0], mc3.mem@));
            assert(forked(views0[1], mc2.mem@, views[1], mc3.mem@));
            assert(views[1].pages =~= seq![views[1].pages[0]]);
            assert forall|k: int, i: int|
                0 <= k < views.len() && !(#[trigger] views[k]).paged && views[k].allows(
                    PTEFlags::W,
                ) && 0 <= i < views[k].pages.len() implies !(mc3.frames@.start <= (
                #[trigger] views[k].pages[i]) < mc3.frames@.end) by {
                assert(forked(views0[k], mc2.mem@, views[k], mc3.mem@));
                assert(!(mc0.frames@.start <= views0[k].pages[i] < mc0.frames@.end));
            }
            assert(apart(child.owned(), mc.kernel_space.owned()));
            child.lemma_cx_frame(mc3.mem@, mc3.frames@, tp);
            child.aspace.lemma_shape(mc3.mem@, mc3.frames@);
        }
        let parent_cx = self.load_trap_cx(mc);
        let frame = child.aspace.page_of(
            &mc.mem,
            VirtAddr(child.trap_cx_ptr),
            PTEFlags::from_bits_truncate(PTEFlags::R),
        );
        let mut x = parent_cx.x;
        x[10] = 0;
        let cx = TrapContext {
            x,
            sstatus: parent_cx.sstatus,
            sepc: parent_cx.sepc,
            trap_handler_address: mc.trap_handler,
            user_satp: token,
            kernel_satp: kernel_token,
            user_cx_addr: child.trap_cx_ptr,
            kernel_cx_addr: frame.unwrap().0 * PAGE_SIZE_U64,
            kernel_sp: stack.get_bottom_sp(),
        };
        child.store_trap_cx(mc, &cx);
        proof {
            let m4 = mc.mem@;
            self.aspace.lemma_bystander(own3, mc3.mem@, mc3.frames@, own3, m4, mc.frames@);
            lemma_changes_lift(own3, mc3.mem@, mc3.frames@, own3, m4, mc.frames@, k1);
            lemma_changes_trans(
                k0,
                mc0.mem@,
                mc0.frames@,
                own3.union(k1),
                mc3.mem@,
                mc3.frames@,
                own3.union(k1),
                m4,
                mc.frames@,
            );
            assert(own3.union(k1) =~= mc.kernel_space.owned().union(child.owned()));
            assert(self.trap_cx_words(m4) =~= theirs);
            let words = child.trap_cx_words(m4);
            assert(words =~= cx.words());
            assert(parent_cx.words() == theirs);
            assert(words.subrange(0, 32) =~= theirs.subrange(0, 32).update(10, 0)) by {
                assert(cx.x@ =~= parent_cx.x@.update(10, 0));
            }
            let views = child.aspace.views();
            assert forall|k: int| 0 <= k < views0.len() && k != 1 implies forked(
                #[trigger] views0[k],
                mc0.mem@,
                views[k],
                m4,
            ) by {
                assert(forked(views0[k], mc2.mem@, views[k], mc3.mem@));
                if views0[k].paged {
                    assert(views0[k].wf(mc0.mem@, mc0.frames@));
                    assert forall|i: int| 0 <= i < views0[k].pages.len() implies mc2.mem@.page(
                        #[trigger] views0[k].pages[i],
                    ) == mc0.mem@.page(views0[k].pages[i]) by {
                        assert(views0[k].pages.contains(views0[k].pages[i]));
                        assert(views0[k].owned().contains(views0[k].pages[i]));
                        assert(views_owned(views0).contains(views0[k].pages[i]));
                        assert(mine.contains(views0[k].pages[i]));
                    }
                    lemma_contents_frame(views0[k].pages, mc0.mem@, mc2.mem@);
                    assert(views[k].wf(mc3.mem@, mc3.frames@));
                    assert forall|i: int| 0 <= i < views[k].pages.len() implies m4.page(
                        #[trigger] views[k].pages[i],
                    ) == mc3.mem@.page(views[k].pages[i]) by {
                        let p = views[k].pages[i];
                        assert(views[k].pages.contains(p));
                        assert(views[k].owned().contains(p));
                        assert(views[1].pages.contains(child.cx_frame()));
                        assert(views[1].owned().contains(child.cx_frame()));
                        if k < 1 {
                            assert(!(views[k].owned().contains(p) && views[1].owned().contains(p)));
                        } else {
                            assert(!(views[1].owned().contains(p) && views[k].owned().contains(p)));
                        }
                        assert(mc3.mem@.contains(p));
                    }
                    lemma_contents_frame(views[k].pages, mc3.mem@, m4);
                }
            }
        }
        Ok(child)
    }

    /// Maps `count` fresh zeroed pages into the address space of the task,
    /// at the virtual pages from `base_vpn` on, for the user program, with
    /// the flags `flags` and the user flag.
    ///
    /// Fails as the mapping of fresh pages fails; the address space is then
    /// as it was.
    pub fn map_user(&mut self, mc: &mut Machine, base_vpn: VirtPageNum, count: usize, flags: PTEFlags) -> (r:
        Result<(), KernelError>)
        requires
            old(mc).wf(),
            old(self).ok(*old(mc)),
        ensures
            final(mc).wf(),
            final(mc).same_statics(*old(mc)),
            final(mc).pids == old(mc).pids,
            final(mc).kernel_space == old(mc).kernel_space,
            final(self).ok(*final(mc)),
            final(mc).step(*old(mc), old(self).owned(), final(self).owned()),
            final(self).pid == old(self).pid,
            final(self).kernel_sp == old(self).kernel_sp,
            final(self).trap_cx_ptr == old(self).trap_cx_ptr,
            final(self).status == old(self).status,
            final(self).sched_data == old(self).sched_data,
            final(self).priority == old(self).priority,
            final(self).exit_code == old(self).exit_code,
            final(self).trap_cx_words(final(mc).mem@) == old(self).trap_cx_words(old(mc).mem@),
            r.is_ok() ==> {
                let view = final(self).aspace.views().last();
                &&& final(self).aspace.views().drop_last() == old(self).aspace.views()
                &&& view == fresh_view(flags@ | PTEFlags::U, base_vpn.0, count as nat, view.pages)
                &&& contents(view.pages, final(mc).mem@) == crate::mm::aspace::zeros(
                    count * PAGE_SIZE,
                )
            },
            r.is_err() ==> final(self).aspace.views() == old(self).aspace.views(),
            failure(r) == fresh_outcome(
                old(self).aspace.views(),
                old(mc).frames@.available(),
                depths(old(mc).mem@, old(self).aspace.table().spec_root()),
                base_vpn.0,
                count as int,
            ),
    {
        let ghost mc0 = *mc;
        let ghost own0 = self.owned();
        let ghost views0 = self.aspace.views();
        let ghost tp = mc.trampoline.pages();
        let ghost words0 = self.trap_cx_words(mc.mem@);
        proof {
            self.lemma_cx_frame(mc.mem@, mc.frames@, tp);
        }
        let mut all = flags;
        all.insert(PTEFlags::from_bits_truncate(PTEFlags::U));
        let empty: Vec<u8> = Vec::new();
        let r = self.aspace.map_fresh(
            &mut mc.mem,
            &mut mc.frames,
            base_vpn,
            count,
            all,
            0,
            empty.as_slice(),
        );
        proof {
            mc.lemma_kept(mc0, own0, self.owned());
            lemma_changes_shape(own0, mc0.mem@, mc0.frames@, self.owned(), mc.mem@, mc.frames@);
            let views1 = self.aspace.views();
            if r.is_ok() {
                assert(views1[0] == views1.drop_last()[0]);
                assert(views1[1] == views1.drop_last()[1]);
                assert forall|k: int, i: int|
                    0 <= k < views1.len() && !(#[trigger] views1[k]).paged && views1[k].allows(
                        PTEFlags::W,
                    ) && 0 <= i < views1[k].pages.len() implies !(mc.frames@.start <= (
                #[trigger] views1[k].pages[i]) < mc.frames@.end) by {
                    assert(views1[k] == views1.drop_last()[k]);
                    assert(!(mc0.frames@.start <= views0[k].pages[i] < mc0.frames@.end));
                }
                assert(fresh_contents(count as int, 0, empty@) =~= crate::mm::aspace::zeros(
                    count * PAGE_SIZE,
                ));
            }
            assert(self.trap_cx_words(mc.mem@) =~= words0);
        }
        r
    }

    /// Takes away the mapping of the user program that starts at
    /// `base_vpn` and has `count` pages. Fails with `NotFound`, and changes
    /// nothing, when there is no such mapping.
    pub fn unmap_user(&mut self, mc: &mut Machine, base_vpn: VirtPageNum, count: usize) -> (r: Result<
        (),
        KernelError,
    >)
        requires
            old(mc).wf(),
            old(self).ok(*old(mc)),
        ensures
            final(mc).wf(),
            final(mc).same_statics(*old(mc)),
            final(mc).pids == old(mc).pids,
            final(mc).kernel_space == old(mc).kernel_space,
            final(self).ok(*final(mc)),
            final(mc).step(*old(mc), old(self).owned(), final(self).owned()),
            final(self).pid == old(self).pid,
            final(self).kernel_sp == old(self).kernel_sp,
            final(self).trap_cx_ptr == old(self).trap_cx_ptr,
            final(self).status == old(self).status,
            final(self).sched_data == old(self).sched_data,
            final(self).priority == old(self).priority,
            final(self).exit_code == old(self).exit_code,
            final(self).trap_cx_words(final(mc).mem@) == old(self).trap_cx_words(old(mc).mem@),
            match unmap_find(old(self).aspace.views(), base_vpn.0, count as nat, true, 0) {
                Some(k) => r.is_ok() && final(self).aspace.views() == old(self).aspace.views().remove(k),
                None => r == Err::<(), KernelError>(KernelError::NotFound) && final(self).aspace.views() == old(self).aspace.views(),
            },
    {
        let ghost mc0 = *mc;
        let ghost own0 = self.owned();
        let ghost views0 = self.aspace.views();
        let ghost tp = mc.trampoline.pages();
        let ghost words0 = self.trap_cx_words(mc.mem@);
        let ghost frame = self.cx_frame();
        proof {
            self.lemma_cx_frame(mc.mem@, mc.frames@, tp);
            lemma_unmap_find_user(views0, base_vpn.0, count as nat, 0);
        }
        let r = self.aspace.unmap(&mut mc.mem, &mut mc.frames, base_vpn, count, true);
        proof {
            mc.lemma_kept(mc0, own0, self.owned());
            lemma_changes_shape(own0, mc0.mem@, mc0.frames@, self.owned(), mc.mem@, mc.frames@);
            let views1 = self.aspace.views();
            let found = unmap_find(views0, base_vpn.0, count as nat, true, 0);
            if found.is_some() {
                let k = found.unwrap();
                assert(10u8 & 16u8 != 16u8 && 6u8 & 16u8 != 16u8) by (bit_vector);
                assert(k >= 2);
                assert(views1[0] == views0[0]);
                assert(views1[1] == views0[1]);
                assert forall|j: int, i: int|
                    0 <= j < views1.len() && !(#[trigger] views1[j]).paged && views1[j].allows(
                        PTEFlags::W,
                    ) && 0 <= i < views1[j].pages.len() implies !(mc.frames@.start <= (
                #[trigger] views1[j].pages[i]) < mc.frames@.end) by {
                    let j0 = if j < k {
                        j
                    } else {
                        j + 1
                    };
                    assert(views1[j] == views0[j0]);
                    assert(!(mc0.frames@.start <= views0[j0].pages[i] < mc0.frames@.end));
                }
                assert(views1[1].pages.contains(frame));
                assert(views1[1].owned().contains(frame));
                assert(views_owned(views1).contains(frame));
            }
            assert(mc.mem@.page(frame) == mc0.mem@.page(frame));
            assert(self.trap_cx_words(mc.mem@) =~= words0);
        }
        r
    }

    /// Copies the bytes `buf` into the memory of the user program from the
    /// virtual address `vaddr` on, through the pages that the user program
    /// can write, and returns how many bytes were copied.
    pub fn write_user(&self, mc: &mut Machine, vaddr: VirtAddr, buf: &[u8]) -> (n: usize)
        requires
            old(mc).wf(),
            self.ok(*old(mc)),
        ensures
            final(mc).wf(),
            final(mc).same_statics(*old(mc)),
            final(mc).pids == old(mc).pids,
            final(mc).kernel_space == old(mc).kernel_space,
            final(mc).frames == old(mc).frames,
            self.ok(*final(mc)),
            final(mc).step(*old(mc), self.owned(), self.owned()),
            n <= buf@.len(),
            forall|x: int|
                0 <= x < n ==> (#[trigger] locate(
                    self.aspace.views(),
                    vaddr.0 + x,
                    access_flags(PTEFlags::W, true),
                )).is_some(),
            n < buf@.len() ==> locate(
                self.aspace.views(),
                vaddr.0 + n,
                access_flags(PTEFlags::W, true),
            ).is_none(),
            final(mc).mem@ == put(
                old(mc).mem@,
                self.aspace.views(),
                vaddr.0 as int,
                access_flags(PTEFlags::W, true),
                buf@.subrange(0, n as int),
            ),
    {
        let ghost mc0 = *mc;
        proof {
            self.aspace.lemma_shape(mc.mem@, mc.frames@);
        }
        let n = self.aspace.write(&mut mc.mem, vaddr, buf, true);
        proof {
            let flags = access_flags(PTEFlags::W, true);
            assert(flags & 4u8 == 4u8) by (bit_vector)
                requires
                    flags == 4u8 | 16u8,
            ;
            self.aspace.lemma_write_keeps(
                mc0.mem@,
                mc0.frames@,
                vaddr.0 as int,
                flags,
                buf@.subrange(0, n as int),
            );
            mc.lemma_kept(mc0, self.owned(), self.owned());
        }
        n
    }

    /// Gives up the task: its address space, its kernel stack and its
    /// process identifier.
    pub fn release(self, mc: &mut Machine)
        requires
            old(mc).wf(),
            self.ok(*old(mc)),
        ensures
            final(mc).wf(),
            final(mc).same_statics(*old(mc)),
            final(mc).step(
                *old(mc),
                old(mc).kernel_space.owned().union(self.owned()),
                final(mc).kernel_space.owned(),
            ),
            forall|q: usize|
                #![trigger final(mc).pids@.in_use(q)]
                final(mc).pids@.in_use(q) == (old(mc).pids@.in_use(q) && q
                    != self.pid.spec_value()),
            final(mc).frames@.available() >= old(mc).frames@.available(),
            final(mc).kernel_space.views() == without_stack(
                old(mc).kernel_space.views(),
                self.pid.spec_stack(),
            ),
    {
        let ghost mc0 = *mc;
        let ghost k0 = mc.kernel_space.owned();
        let ghost own = self.owned();
        let ghost none = Set::<u64>::empty();
        let ghost tp = mc.trampoline.pages();
        proof {
            mc.kernel_space.lemma_owned_allocated(mc.mem@, mc.frames@);
        }
        let Task { pid, kernel_sp, trap_cx_ptr, status, aspace, sched_data, priority, exit_code } = self;
        aspace.destroy(&mut mc.mem, &mut mc.frames);
        let ghost mc1 = *mc;
        proof {
            mc0.kernel_space.lemma_bystander(
                own,
                mc0.mem@,
                mc0.frames@,
                none,
                mc.mem@,
                mc.frames@,
            );
            lemma_changes_lift(own, mc0.mem@, mc0.frames@, none, mc.mem@, mc.frames@, k0);
            assert(none.union(k0) =~= k0);
            assert(own.union(k0) =~= k0.union(own));
            lemma_changes_shape(own, mc0.mem@, mc0.frames@, none, mc.mem@, mc.frames@);
            assert forall|k: int| 0 <= k < tp.len() implies mc.mem@.contains(#[trigger] tp[k]) by {
                assert(mc0.mem@.contains(tp[k]));
            }
        }
        pid.release(mc);
        proof {
            lemma_changes_trans(
                k0.union(own),
                mc0.mem@,
                mc0.frames@,
                k0,
                mc1.mem@,
                mc1.frames@,
                mc.kernel_space.owned(),
                mc.mem@,
                mc.frames@,
            );
        }
    }

    /// The process identifier.
    pub fn pid(&self) -> (pid: usize)
        ensures
            pid == self.pid.spec_value(),
    {
        self.pid.value()
    }

    /// The address of the trap context in the address space of the task.
    pub fn trap_cx_ptr(&self) -> (ptr: u64)
        ensures
            ptr == self.trap_cx_ptr,
    {
        self.trap_cx_ptr
    }

    /// The address space of the task.
    pub fn aspace(&self) -> (space: &AddressSpace)
        ensures
            *space == self.aspace,
    {
        &self.aspace
    }

    /// Sets the priority of the task.
    pub fn set_priority(&mut self, priority: u64)
        ensures
            *final(self) == (Task { priority, ..*old(self) }),
    {
        self.priority = priority;
    }
}

} // verus!
