//! The kernel as a whole: the machine, the built-in programs and the
//! tasks.

use vstd::prelude::*;
use crate::error::KernelError;
use crate::loader::{AppInfo, AppManager, MAX_APP_NUM};
use crate::machine::Machine;
use crate::mm::{boot_outcome, range_pages};
use crate::mm::addr::{PhysPageNum, PAGE_SIZE, PPN_LIMIT};
use crate::mm::layout::{kernel_views, KernelLayout};
use crate::mm::memory::{zero_page, MemoryView, PhysMemory};
use crate::mm::vmo::VMObject;
use crate::task::{init_failure, Task, TaskStatus};
use crate::task::manager::{given_up, retired, seeded, switched, SwitchAction, TaskManager};

verus! {

/// The kernel: the state of the machine, the programs that are built in,
/// and the tasks.
pub struct Kernel {
    pub machine: Machine,
    pub apps: AppManager,
    pub tasks: TaskManager,
}

/// What the kernel is built from at boot.
pub struct KernelConfig {
    /// The number of the first page of RAM.
    pub ram_base: u64,
    /// The number of pages of RAM.
    pub ram_pages: usize,
    /// Where the parts of the kernel image lie.
    pub layout: KernelLayout,
    /// The first byte of the trampoline.
    pub strampoline: u64,
    /// The byte after the last byte of the trampoline.
    pub etrampoline: u64,
    /// The address of the code that a task starts in.
    pub launch: u64,
    /// The address of the trap handler.
    pub trap_handler: u64,
    /// The programs that are built in.
    pub apps: Vec<AppInfo>,
}

/// Whether the kernel `post` is the kernel `pre` with the words `words` in
/// the trap context of the running task: nothing else has changed but the
/// page that holds the trap context.
pub open spec fn cx_set(pre: Kernel, post: Kernel, words: Seq<u64>) -> bool {
    let task = pre.tasks.current.unwrap();
    &&& pre.tasks.current.is_some()
    &&& post.tasks == pre.tasks
    &&& post.apps == pre.apps
    &&& post.machine.frames == pre.machine.frames
    &&& post.machine.pids == pre.machine.pids
    &&& post.machine.kernel_space == pre.machine.kernel_space
    &&& post.machine.trampoline == pre.machine.trampoline
    &&& post.machine.launch == pre.machine.launch
    &&& post.machine.trap_handler == pre.machine.trap_handler
    &&& task.trap_cx_words(post.machine.mem@) == words
    &&& forall|k: int|
        words.len() <= k < 512 ==> #[trigger] post.machine.mem@.word(task.cx_frame(), k)
            == pre.machine.mem@.word(task.cx_frame(), k)
    &&& forall|p: u64|
        pre.machine.mem@.contains(p) && p != task.cx_frame() ==> #[trigger] post.machine.mem@.page(
            p,
        ) == pre.machine.mem@.page(p)
}

/// Whether the kernel `post` and the action `action` are what the end of a
/// time slice makes of the kernel `pre`: the task that waited to be given
/// up is given up, which leaves the trap contexts of the other tasks as
/// they are, and a switch takes place.
pub open spec fn preempted(pre: Kernel, post: Kernel, sp: u64, action: SwitchAction) -> bool {
    &&& post.apps == pre.apps
    &&& post.machine.same_statics(pre.machine)
    &&& given_up(pre.tasks.last, pre.machine, post.machine)
    &&& post.tasks.last == retired(pre.tasks.current, sp)
    &&& switched(
        pre.tasks.current,
        pre.tasks.ready_tasks@,
        sp,
        post.tasks.current,
        post.tasks.ready_tasks@,
        action,
    )
    &&& pre.tasks.current matches Some(t) ==> t.trap_cx_words(post.machine.mem@)
        == t.trap_cx_words(pre.machine.mem@)
    &&& forall|i: int|
        0 <= i < pre.tasks.ready_tasks@.len() ==> (#[trigger] pre.tasks.ready_tasks@[i]).trap_cx_words(
            post.machine.mem@,
        ) == pre.tasks.ready_tasks@[i].trap_cx_words(pre.machine.mem@)
}

impl Kernel {
    /// The machine is well formed, and the tasks are well formed on it.
    pub open spec fn wf(&self) -> bool {
        self.machine.wf() && self.tasks.wf(self.machine)
    }

    /// Makes one ready task for each built-in program and puts the first
    /// task on the processor. `sstatus` is what the status register reads
    /// at present, and `current_sp` the stack pointer of the boot stack.
    ///
    /// Fails with the error of the first task that cannot be made; the
    /// tasks made before it stay among the ready tasks.
    pub fn launch(&mut self, sstatus: u64, current_sp: u64) -> (r: Result<SwitchAction, KernelError>)
        requires
            old(self).wf(),
        ensures
            final(self).wf(),
            final(self).machine.same_statics(old(self).machine),
            final(self).apps == old(self).apps,
            r matches Ok(a) ==> (a == SwitchAction::Shutdown <==> final(self).tasks.current.is_none()),
            r matches Ok(a) ==> final(self).tasks.last == retired(
                old(self).tasks.current,
                current_sp,
            ) && exists|ready: Seq<Task>|
                {
                    &&& ready.len() == old(self).tasks.ready_tasks@.len() + old(self).apps.apps().len()
                    &&& ready.subrange(0, old(self).tasks.ready_tasks@.len() as int) == old(
                        self,
                    ).tasks.ready_tasks@
                    &&& old(self).tasks.last.is_none() ==> seeded(
                        ready,
                        old(self).tasks.ready_tasks@.len() as int,
                        final(self).machine,
                        old(self).apps.apps(),
                        sstatus,
                    )
                    &&& #[trigger] switched(
                        old(self).tasks.current,
                        ready,
                        current_sp,
                        final(self).tasks.current,
                        final(self).tasks.ready_tasks@,
                        a,
                    )
                },
            r matches Ok(a) ==> (old(self).tasks.all_tasks().len() == 0 && old(self).apps.apps().len()
                > 0 ==> {
                let first = final(self).tasks.current.unwrap();
                &&& final(self).tasks.current.is_some()
                &&& a == SwitchAction::SwitchTo { kernel_sp: first.kernel_sp }
                &&& first.status == TaskStatus::Running
                &&& final(self).tasks.ready_tasks@.len() == old(self).apps.apps().len() - 1
                &&& seeded(
                    seq![first] + final(self).tasks.ready_tasks@,
                    0,
                    final(self).machine,
                    old(self).apps.apps(),
                    sstatus,
                )
            }),
            r.is_err() ==> {
                &&& final(self).tasks.current == old(self).tasks.current
                &&& final(self).tasks.last == old(self).tasks.last
                &&& final(self).tasks.ready_tasks@.len() >= old(self).tasks.ready_tasks@.len()
                &&& final(self).tasks.ready_tasks@.subrange(
                    0,
                    old(self).tasks.ready_tasks@.len() as int,
                ) == old(self).tasks.ready_tasks@
                &&& seeded(
                    final(self).tasks.ready_tasks@,
                    old(self).tasks.ready_tasks@.len() as int,
                    final(self).machine,
                    old(self).apps.apps(),
                    sstatus,
                )
            },
            r matches Err(e) ==> {
                let id = final(self).tasks.ready_tasks@.len() - old(self).tasks.ready_tasks@.len();
                &&& id < old(self).apps.apps().len()
                &&& exists|mid: Machine|
                    mid.wf() && mid.same_statics(old(self).machine) && (id == 0 ==> mid == old(
                        self,
                    ).machine) && #[trigger] init_failure(
                        mid,
                        old(self).apps.apps(),
                        old(self).apps.apps()[id].name@,
                        e,
                    )
            },
    {
        self.tasks.launch(&mut self.machine, &self.apps, sstatus, current_sp)
    }
}

/// Builds the kernel from its configuration: RAM, the frame allocator, the
/// kernel's own address space, and the table of the built-in programs, of
/// which there must be no more than the table holds. No task exists yet.
///
/// Fails with `OutOfRange` when RAM cannot be made as configured, and else
/// as the building of the machine fails.
pub fn rust_main(config: KernelConfig) -> (r: Result<Kernel, KernelError>)
    requires
        config.apps@.len() <= MAX_APP_NUM,
    ensures
        r matches Ok(k) ==> {
            &&& k.wf()
            &&& k.apps.apps() == config.apps@
            &&& k.tasks.all_tasks().len() == 0
            &&& k.machine.launch == config.launch
            &&& k.machine.trap_handler == config.trap_handler
            &&& k.machine.mem@.base == config.ram_base
            &&& k.machine.mem@.pages.len() == config.ram_pages
            &&& k.machine.trampoline.pages() == range_pages(config.strampoline, config.etrampoline)
            &&& k.machine.kernel_space.views() == kernel_views(
                config.layout,
                k.machine.trampoline.pages(),
            )
            &&& forall|q: usize| !k.machine.pids@.in_use(q)
        },
        r.is_ok() ==> config.ram_base + config.ram_pages <= PPN_LIMIT && config.ram_pages * PAGE_SIZE
            <= usize::MAX && boot_outcome(
            (MemoryView {
                base: config.ram_base as nat,
                pages: Seq::new(config.ram_pages as nat, |i: int| zero_page()),
            }),
            config.layout,
            config.strampoline,
            config.etrampoline,
        ).is_none(),
        r matches Err(e) ==> {
            if config.ram_base + config.ram_pages > PPN_LIMIT || config.ram_pages * PAGE_SIZE
                > usize::MAX {
                e == KernelError::OutOfRange
            } else {
                boot_outcome(
                    (MemoryView {
                        base: config.ram_base as nat,
                        pages: Seq::new(config.ram_pages as nat, |i: int| zero_page()),
                    }),
                    config.layout,
                    config.strampoline,
                    config.etrampoline,
                ) == Some(e)
            }
        },
{
    let mem = match PhysMemory::new(PhysPageNum(config.ram_base), config.ram_pages) {
        Some(m) => m,
        None => {
            return Err(KernelError::OutOfRange);
        },
    };
    proof {
        let z = MemoryView {
            base: config.ram_base as nat,
            pages: Seq::new(config.ram_pages as nat, |i: int| zero_page()),
        };
        assert forall|i: int| 0 <= i < mem@.pages.len() implies mem@.pages[i] == zero_page() by {
            let p = (config.ram_base + i) as u64;
            assert(mem@.contains(p));
            assert(mem@.page(p) == zero_page());
        }
        assert(mem@.pages =~= z.pages);
        assert(mem@ == z);
    }
    let machine = match crate::mm::init(
        mem,
        &config.layout,
        config.strampoline,
        config.etrampoline,
        config.launch,
        config.trap_handler,
    ) {
        Ok(mc) => mc,
        Err(e) => {
            return Err(e);
        },
    };
    let apps = AppManager::new(config.apps);
    let tasks = TaskManager::new();
    proof {
        assert(tasks.all_tasks() =~= Seq::<Task>::empty());
    }
    Ok(Kernel { machine, apps, tasks })
}

} // verus!
