//! The task manager: the tasks that are ready, the task that runs, and the
//! task that has just left the processor for good.

use vstd::prelude::*;
use crate::error::KernelError;
use crate::loader::{AppInfo, AppManager};
use crate::machine::Machine;
use crate::mm::frame::{changes, lemma_changes_shape};
use crate::mm::vmo::VMObject;
use super::{apart, init_failure, Task, TaskStatus};
use super::pid::without_stack;
use super::sched::{pick, stride_after_tick, Candidate, StrideScheduler, StrideSchedulerData};

verus! {

/// The tasks of the system.
pub struct TaskManager {
    /// The task on the processor.
    pub current: Option<Task>,
    /// The task that left the processor for good at the last switch; what
    /// it held is given back once the processor is on another kernel
    /// stack.
    pub last: Option<Task>,
    /// The scheduler.
    pub scheduler: StrideScheduler,
    /// The tasks that wait for the processor.
    pub ready_tasks: Vec<Task>,
}

/// The task in `o`, if any, as a sequence.
pub open spec fn opt_seq(o: Option<Task>) -> Seq<Task> {
    match o {
        Some(t) => seq![t],
        None => Seq::empty(),
    }
}

/// Whether two tasks are the same task but for what the scheduler keeps of
/// it: the same identifier, the same address space and the same trap
/// context.
pub open spec fn same_task(a: Task, b: Task) -> bool {
    a.pid == b.pid && a.aspace == b.aspace && a.trap_cx_ptr == b.trap_cx_ptr
}

/// Every task is well formed on the machine, and no two tasks share a
/// frame or a process identifier.
pub open spec fn world_ok(tasks: Seq<Task>, mc: Machine) -> bool {
    &&& forall|i: int| 0 <= i < tasks.len() ==> (#[trigger] tasks[i]).ok(mc)
    &&& forall|i: int, j: int|
        0 <= i < j < tasks.len() ==> apart((#[trigger] tasks[i]).owned(), (#[trigger] tasks[j]).owned())
            && tasks[i].pid.spec_value() != tasks[j].pid.spec_value()
}

/// A task stays well formed through a change by the owner of other frames.
pub proof fn lemma_task_kept(t: Task, mc0: Machine, mc1: Machine, own0: Set<u64>, own1: Set<u64>)
    requires
        t.ok(mc0),
        mc1.wf(),
        mc1.same_statics(mc0),
        mc1.step(mc0, own0, own1),
        apart(t.owned(), own0),
        mc1.pids@.in_use(t.pid.spec_value()),
        forall|p: u64| #[trigger]
            mc1.kernel_space.owned().contains(p) ==> own1.contains(p)
                || mc0.kernel_space.owned().contains(p),
    ensures
        t.ok(mc1),
        apart(t.owned(), own1),
        t.trap_cx_words(mc1.mem@) == t.trap_cx_words(mc0.mem@),
        forall|p: u64| t.owned().contains(p) ==> #[trigger] mc1.mem@.page(p) == mc0.mem@.page(p),
{
    t.aspace.lemma_bystander(own0, mc0.mem@, mc0.frames@, own1, mc1.mem@, mc1.frames@);
    lemma_changes_shape(own0, mc0.mem@, mc0.frames@, own1, mc1.mem@, mc1.frames@);
    t.lemma_cx_frame(mc0.mem@, mc0.frames@, mc0.trampoline.pages());
    assert(t.trap_cx_words(mc1.mem@) =~= t.trap_cx_words(mc0.mem@));
}

/// Whether the tasks of `ready` from position `from` on are about to start
/// the programs of `apps`, one each and in their order.
pub open spec fn seeded(ready: Seq<Task>, from: int, mc: Machine, apps: Seq<AppInfo>, sstatus: u64) -> bool {
    &&& ready.len() - from <= apps.len()
    &&& forall|k: int|
        from <= k < ready.len() ==> (#[trigger] ready[k]).starts(
            mc,
            apps,
            apps[k - from].name@,
            sstatus,
        )
}

/// Tasks that are about to start their programs stay so through a change
/// by the owner of other frames.
pub proof fn lemma_seeded_kept(
    ready: Seq<Task>,
    from: int,
    mc0: Machine,
    mc1: Machine,
    own1: Set<u64>,
    apps: Seq<AppInfo>,
    sstatus: u64,
)
    requires
        0 <= from <= ready.len(),
        seeded(ready, from, mc0, apps, sstatus),
        forall|k: int| from <= k < ready.len() ==> (#[trigger] ready[k]).ok(mc0),
        forall|k: int|
            from <= k < ready.len() ==> mc1.pids@.in_use((#[trigger] ready[k]).pid.spec_value()),
        mc1.wf(),
        mc1.same_statics(mc0),
        mc1.step(mc0, mc0.kernel_space.owned(), own1),
        forall|p: u64| #[trigger]
            mc1.kernel_space.owned().contains(p) ==> own1.contains(p)
                || mc0.kernel_space.owned().contains(p),
    ensures
        seeded(ready, from, mc1, apps, sstatus),
{
    assert forall|k: int| from <= k < ready.len() implies (#[trigger] ready[k]).starts(
        mc1,
        apps,
        apps[k - from].name@,
        sstatus,
    ) by {
        assert(ready[k].ok(mc0));
        assert(ready[k].starts(mc0, apps, apps[k - from].name@, sstatus));
        lemma_task_kept(ready[k], mc0, mc1, mc0.kernel_space.owned(), own1);
        ready[k].lemma_starts_kept(mc0, mc1, apps, apps[k - from].name@, sstatus);
    }
}

/// The tasks stay as they should be through a change by the kernel's
/// address space that leaves the process identifiers as they are.
pub proof fn lemma_world_unchanged(tasks: Seq<Task>, mc0: Machine, mc1: Machine)
    requires
        world_ok(tasks, mc0),
        mc1.wf(),
        mc1.same_statics(mc0),
        mc1.step(mc0, mc0.kernel_space.owned(), mc1.kernel_space.owned()),
        forall|q: usize|
            #![trigger mc1.pids@.in_use(q)]
            mc1.pids@.in_use(q) == mc0.pids@.in_use(q),
    ensures
        world_ok(tasks, mc1),
{
    assert forall|j: int| 0 <= j < tasks.len() implies (#[trigger] tasks[j]).ok(mc1) by {
        assert(tasks[j].ok(mc0));
        lemma_task_kept(tasks[j], mc0, mc1, mc0.kernel_space.owned(), mc1.kernel_space.owned());
    }
}

/// The tasks stay as they should be when one of them makes a change to
/// frames of its own.
pub proof fn lemma_world_updated(tasks: Seq<Task>, i: int, t: Task, mc0: Machine, mc1: Machine)
    requires
        world_ok(tasks, mc0),
        0 <= i < tasks.len(),
        mc1.wf(),
        mc1.same_statics(mc0),
        mc1.pids == mc0.pids,
        mc1.kernel_space == mc0.kernel_space,
        mc1.step(mc0, tasks[i].owned(), t.owned()),
        t.ok(mc1),
        t.pid == tasks[i].pid,
    ensures
        world_ok(tasks.update(i, t), mc1),
{
    let after = tasks.update(i, t);
    assert forall|j: int| 0 <= j < after.len() implies (#[trigger] after[j]).ok(mc1) && (j != i
        ==> apart(after[j].owned(), t.owned())) by {
        if j != i {
            if j < i {
                assert(apart(tasks[j].owned(), tasks[i].owned()));
            } else {
                assert(apart(tasks[i].owned(), tasks[j].owned()));
            }
            lemma_task_kept(tasks[j], mc0, mc1, tasks[i].owned(), t.owned());
        }
    }
    assert forall|j: int, k: int| 0 <= j < k < after.len() implies apart(
        (#[trigger] after[j]).owned(),
        (#[trigger] after[k]).owned(),
    ) && after[j].pid.spec_value() != after[k].pid.spec_value() by {
        assert(apart(tasks[j].owned(), tasks[k].owned()));
        if j == i {
            assert(apart(after[k].owned(), t.owned()));
        }
    }
}

/// The tasks stay as they should be when a new task joins them that was
/// made beside them.
pub proof fn lemma_world_inserted(tasks: Seq<Task>, at: int, t: Task, mc0: Machine, mc1: Machine)
    requires
        world_ok(tasks, mc0),
        0 <= at <= tasks.len(),
        mc1.wf(),
        mc1.same_statics(mc0),
        mc1.step(mc0, mc0.kernel_space.owned(), mc1.kernel_space.owned().union(t.owned())),
        t.ok(mc1),
        !mc0.pids@.in_use(t.pid.spec_value()),
        forall|q: usize|
            #![trigger mc1.pids@.in_use(q)]
            mc1.pids@.in_use(q) == (mc0.pids@.in_use(q) || q == t.pid.spec_value()),
    ensures
        world_ok(tasks.insert(at, t), mc1),
{
    let after = tasks.insert(at, t);
    let own1 = mc1.kernel_space.owned().union(t.owned());
    assert forall|j: int| 0 <= j < tasks.len() implies (#[trigger] tasks[j]).ok(mc1) && apart(
        tasks[j].owned(),
        t.owned(),
    ) && tasks[j].pid.spec_value() != t.pid.spec_value() by {
        assert(tasks[j].ok(mc0));
        lemma_task_kept(tasks[j], mc0, mc1, mc0.kernel_space.owned(), own1);
    }
    assert forall|j: int| 0 <= j < after.len() implies (#[trigger] after[j]).ok(mc1) by {
        if j < at {
            assert(after[j] == tasks[j]);
        } else if j > at {
            assert(after[j] == tasks[j - 1]);
        }
    }
    assert forall|j: int, k: int| 0 <= j < k < after.len() implies apart(
        (#[trigger] after[j]).owned(),
        (#[trigger] after[k]).owned(),
    ) && after[j].pid.spec_value() != after[k].pid.spec_value() by {
        let j0 = if j < at {
            j
        } else {
            j - 1
        };
        let k0 = if k < at {
            k
        } else {
            k - 1
        };
        if j == at {
            assert(after[k] == tasks[k0]);
            assert(apart(tasks[k0].owned(), t.owned()));
        } else if k == at {
            assert(after[j] == tasks[j0]);
        } else {
            assert(after[j] == tasks[j0] && after[k] == tasks[k0]);
            assert(apart(tasks[j0].owned(), tasks[k0].owned()));
        }
    }
}

/// The tasks stay as they should be when one of them is given up.
pub proof fn lemma_world_removed(tasks: Seq<Task>, i: int, mc0: Machine, mc1: Machine)
    requires
        world_ok(tasks, mc0),
        0 <= i < tasks.len(),
        mc1.wf(),
        mc1.same_statics(mc0),
        mc1.step(
            mc0,
            mc0.kernel_space.owned().union(tasks[i].owned()),
            mc1.kernel_space.owned(),
        ),
        forall|q: usize|
            #![trigger mc1.pids@.in_use(q)]
            mc1.pids@.in_use(q) == (mc0.pids@.in_use(q) && q != tasks[i].pid.spec_value()),
    ensures
        world_ok(tasks.remove(i), mc1),
{
    let after = tasks.remove(i);
    let own0 = mc0.kernel_space.owned().union(tasks[i].owned());
    assert forall|j: int| 0 <= j < after.len() implies (#[trigger] after[j]).ok(mc1) by {
        let j0 = if j < i {
            j
        } else {
            j + 1
        };
        assert(after[j] == tasks[j0]);
        assert(tasks[j0].ok(mc0));
        if j0 < i {
            assert(apart(tasks[j0].owned(), tasks[i].owned()));
        } else {
            assert(apart(tasks[i].owned(), tasks[j0].owned()));
        }
        lemma_task_kept(tasks[j0], mc0, mc1, own0, mc1.kernel_space.owned());
    }
    assert forall|j: int, k: int| 0 <= j < k < after.len() implies apart(
        (#[trigger] after[j]).owned(),
        (#[trigger] after[k]).owned(),
    ) && after[j].pid.spec_value() != after[k].pid.spec_value() by {
        let j0 = if j < i {
            j
        } else {
            j + 1
        };
        let k0 = if k < i {
            k
        } else {
            k + 1
        };
        assert(after[j] == tasks[j0] && after[k] == tasks[k0]);
        assert(apart(tasks[j0].owned(), tasks[k0].owned()));
    }
}

/// The tasks stay as they should be when they are put into another order
/// and the scheduler changes what it keeps of them.
pub proof fn lemma_world_rearranged(
    tasks: Seq<Task>,
    after: Seq<Task>,
    mc: Machine,
    from: spec_fn(int) -> int,
)
    requires
        world_ok(tasks, mc),
        forall|i: int|
            0 <= i < after.len() ==> 0 <= #[trigger] from(i) < tasks.len() && same_task(
                after[i],
                tasks[from(i)],
            ),
        forall|i: int, j: int|
            0 <= i < j < after.len() ==> #[trigger] from(i) != #[trigger] from(j),
    ensures
        world_ok(after, mc),
{
    assert forall|i: int| 0 <= i < after.len() implies (#[trigger] after[i]).ok(mc) by {
        assert(tasks[from(i)].ok(mc));
    }
    assert forall|i: int, j: int| 0 <= i < j < after.len() implies apart(
        (#[trigger] after[i]).owned(),
        (#[trigger] after[j]).owned(),
    ) && after[i].pid.spec_value() != after[j].pid.spec_value() by {
        let a = from(i);
        let b = from(j);
        if a < b {
            assert(apart(tasks[a].owned(), tasks[b].owned()));
        } else {
            assert(apart(tasks[b].owned(), tasks[a].owned()));
        }
    }
}

/// What the processor has to do after the task manager has chosen the task
/// to run.
#[derive(Copy, Clone, Debug, PartialEq, Eq, Structural)]
pub enum SwitchAction {
    /// Go on with the task that was running.
    Stay,
    /// Switch to the kernel stack whose stack pointer is `kernel_sp`.
    SwitchTo { kernel_sp: u64 },
    /// No task is left: shut the machine down.
    Shutdown,
}

/// What the scheduler sees of the tasks in `tasks`.
pub open spec fn candidates(tasks: Seq<Task>) -> Seq<Candidate> {
    Seq::new(
        tasks.len(),
        |i: int|
            Candidate {
                ready: tasks[i].status == TaskStatus::Ready,
                stride: tasks[i].sched_data.stride,
            },
    )
}

/// The task `t` after it has used a time slice and left the processor with
/// the kernel stack pointer `sp`.
pub open spec fn ticked(t: Task, sp: u64) -> Task {
    Task {
        sched_data: StrideSchedulerData {
            stride: stride_after_tick(t.sched_data.stride, t.priority) as u64,
        },
        kernel_sp: sp,
        ..t
    }
}

/// The ready tasks once the task that was running has joined them again, if
/// it still wants to run.
pub open spec fn requeued(current: Option<Task>, ready: Seq<Task>, sp: u64) -> Seq<Task> {
    match current {
        Some(t) => if t.status == TaskStatus::Running {
            ready.push(Task { status: TaskStatus::Ready, ..ticked(t, sp) })
        } else {
            ready
        },
        None => ready,
    }
}

/// The task that was running, if it does not want to run any more.
pub open spec fn retired(current: Option<Task>, sp: u64) -> Option<Task> {
    match current {
        Some(t) => if t.status == TaskStatus::Running {
            None
        } else {
            Some(ticked(t, sp))
        },
        None => None,
    }
}

/// Whether the machine `after` is the machine `before` once the task
/// `last`, if there is one, was given up: its process identifier is free
/// again, its kernel stack is gone from the kernel's address space, and its
/// frames are handed out no more. Without such a task nothing changes.
pub open spec fn given_up(last: Option<Task>, before: Machine, after: Machine) -> bool {
    match last {
        None => after == before,
        Some(t) => {
            &&& forall|q: usize|
                #![trigger after.pids@.in_use(q)]
                after.pids@.in_use(q) == (before.pids@.in_use(q) && q != t.pid.spec_value())
            &&& after.kernel_space.views() == without_stack(
                before.kernel_space.views(),
                t.pid.spec_stack(),
            )
            &&& after.step(
                before,
                before.kernel_space.owned().union(t.owned()),
                after.kernel_space.owned(),
            )
        },
    }
}

/// Whether a switch away from the task `current`, beside the ready tasks
/// `ready`, leaves the task `next` on the processor and the ready tasks
/// `rest`, and asks for the action `action`: the ready task whose stride
/// comes first runs, and the processor changes stacks unless that is the
/// task that was running; without a ready task the machine shuts down.
pub open spec fn switched(
    current: Option<Task>,
    ready: Seq<Task>,
    sp: u64,
    next: Option<Task>,
    rest: Seq<Task>,
    action: SwitchAction,
) -> bool {
    let queue = requeued(current, ready, sp);
    match pick(candidates(queue)) {
        Some(i) => {
            &&& 0 <= i < queue.len()
            &&& next == Some(Task { status: TaskStatus::Running, ..queue[i] })
            &&& rest == queue.remove(i)
            &&& action == (if current.is_some() && current.unwrap().pid.spec_value()
                == queue[i].pid.spec_value() {
                SwitchAction::Stay
            } else {
                SwitchAction::SwitchTo { kernel_sp: queue[i].kernel_sp }
            })
        },
        None => {
            &&& next.is_none()
            &&& rest == queue
            &&& action == SwitchAction::Shutdown
        },
    }
}

impl TaskManager {
    /// Every task that the manager holds: the ready ones, the running one,
    /// and the one that waits to be given up.
    pub open spec fn all_tasks(&self) -> Seq<Task> {
        self.ready_tasks@ + opt_seq(self.current) + opt_seq(self.last)
    }

    /// Every ready task is ready and the task that waits to be given up
    /// has exited, so that at most one task is running.
    pub open spec fn status_ok(&self) -> bool {
        &&& forall|i: int|
            0 <= i < self.ready_tasks@.len() ==> (#[trigger] self.ready_tasks@[i]).status
                == TaskStatus::Ready
        &&& self.current matches Some(t) ==> t.status != TaskStatus::Ready
        &&& self.last matches Some(t) ==> t.status == TaskStatus::Exited
    }

    /// The tasks are well formed on the machine and apart from each other,
    /// and their states fit the places that they are in.
    pub open spec fn wf(&self, mc: Machine) -> bool {
        world_ok(self.all_tasks(), mc) && self.status_ok()
    }

    /// A task manager without tasks.
    pub fn new() -> (tm: TaskManager)
        ensures
            tm.current.is_none(),
            tm.last.is_none(),
            tm.ready_tasks@.len() == 0,
    {
        TaskManager {
            current: None,
            last: None,
            scheduler: super::sched::create_scheduler(),
            ready_tasks: Vec::new(),
        }
    }

    /// The task on the processor.
    pub fn current_task(&self) -> (t: Option<&Task>)
        ensures
            match t {
                Some(task) => self.current == Some(*task),
                None => self.current.is_none(),
            },
    {
        self.current.as_ref()
    }

    /// The address of the trap context of the task on the processor, in the
    /// address space of that task.
    pub fn current_cx_ptr(&self) -> (ptr: u64)
        requires
            self.current.is_some(),
        ensures
            ptr == self.current.unwrap().trap_cx_ptr,
    {
        self.current.as_ref().unwrap().trap_cx_ptr
    }

    /// Puts a task among the ready tasks.
    pub fn add_task(&mut self, task: Task)
        ensures
            final(self).ready_tasks@ == old(self).ready_tasks@.push(task),
            final(self).current == old(self).current,
            final(self).last == old(self).last,
            final(self).all_tasks() == old(self).all_tasks().insert(
                old(self).ready_tasks@.len() as int,
                task,
            ),
    {
        self.ready_tasks.push(task);
        proof {
            assert(self.all_tasks() =~= old(self).all_tasks().insert(
                old(self).ready_tasks@.len() as int,
                task,
            ));
        }
    }

    /// Takes the task that is to run next out of the ready tasks.
    fn take_next(&mut self) -> (r: Option<Task>)
        ensures
            final(self).current == old(self).current,
            final(self).last == old(self).last,
            match pick(candidates(old(self).ready_tasks@)) {
                Some(i) => 0 <= i < old(self).ready_tasks@.len() && r == Some(
                    old(self).ready_tasks@[i],
                ) && final(self).ready_tasks@ == old(self).ready_tasks@.remove(i),
                None => r.is_none() && final(self).ready_tasks@ == old(self).ready_tasks@,
            },
    {
        let mut list: Vec<Candidate> = Vec::new();
        let mut i: usize = 0;
        while i < self.ready_tasks.len()
            invariant
                i <= self.ready_tasks@.len(),
                *self == *old(self),
                list@ == candidates(self.ready_tasks@).subrange(0, i as int),
            decreases self.ready_tasks@.len() - i,
        {
            let ready: bool = match self.ready_tasks[i].status {
                TaskStatus::Ready => true,
                _ => false,
            };
            list.push(Candidate { ready, stride: self.ready_tasks[i].sched_data.stride });
            proof {
                assert(list@ =~= candidates(self.ready_tasks@).subrange(0, i + 1));
            }
            i += 1;
        }
        proof {
            assert(list@ =~= candidates(self.ready_tasks@));
        }
        match self.scheduler.pick_next(&list) {
            Some(index) => Some(self.ready_tasks.remove(index)),
            None => None,
        }
    }

    /// Gives up the task that left the processor for good at the last
    /// switch, if there is one.
    pub fn reap(&mut self, mc: &mut Machine)
        requires
            old(mc).wf(),
            old(self).wf(*old(mc)),
        ensures
            final(mc).wf(),
            final(mc).same_statics(*old(mc)),
            final(self).wf(*final(mc)),
            final(self).last.is_none(),
            final(self).current == old(self).current,
            final(self).ready_tasks == old(self).ready_tasks,
            given_up(old(self).last, *old(mc), *final(mc)),
            forall|i: int|
                0 <= i < final(self).all_tasks().len() ==> (#[trigger] final(self).all_tasks()[i]).trap_cx_words(final(mc).mem@) == final(self).all_tasks()[i].trap_cx_words(old(mc).mem@),
    {
        let ghost tasks0 = self.all_tasks();
        let ghost mc0 = *mc;
        match self.last.take() {
            None => {
                assert(self.all_tasks() =~= tasks0);
            },
            Some(task) => {
                let ghost at = tasks0.len() - 1;
                proof {
                    assert(tasks0[at] == task);
                    assert(task.ok(mc0));
                }
                task.release(mc);
                proof {
                    assert(self.all_tasks() =~= tasks0.remove(at));
                    lemma_world_removed(tasks0, at, mc0, *mc);
                    assert forall|i: int| 0 <= i < self.all_tasks().len() implies (
                    #[trigger] self.all_tasks()[i]).trap_cx_words(mc.mem@)
                        == self.all_tasks()[i].trap_cx_words(mc0.mem@) by {
                        assert(self.all_tasks()[i] == tasks0[i]);
                        assert(tasks0[i].ok(mc0));
                        assert(apart(tasks0[i].owned(), tasks0[at].owned()));
                        lemma_task_kept(
                            tasks0[i],
                            mc0,
                            *mc,
                            mc0.kernel_space.owned().union(task.owned()),
                            mc.kernel_space.owned(),
                        );
                    }
                }
            },
        }
    }

    /// Takes the running task off the processor and puts the ready task
    /// with the smallest stride on it. `current_sp` is the kernel stack
    /// pointer that the running task leaves with.
    ///
    /// The task that was running has used a time slice. If it still wants
    /// to run, it joins the ready tasks; else it waits to be given up. The
    /// task that waited to be given up is given up first.
    pub fn switch_task(&mut self, mc: &mut Machine, current_sp: u64) -> (r: SwitchAction)
        requires
            old(mc).wf(),
            old(self).wf(*old(mc)),
        ensures
            final(mc).wf(),
            final(mc).same_statics(*old(mc)),
            final(self).wf(*final(mc)),
            given_up(old(self).last, *old(mc), *final(mc)),
            old(self).current matches Some(t) ==> t.trap_cx_words(final(mc).mem@)
                == t.trap_cx_words(old(mc).mem@),
            forall|i: int|
                0 <= i < old(self).ready_tasks@.len() ==> (#[trigger] old(self).ready_tasks@[i]).trap_cx_words(final(mc).mem@) == old(self).ready_tasks@[i].trap_cx_words(old(mc).mem@),
            final(self).last == retired(old(self).current, current_sp),
            switched(
                old(self).current,
                old(self).ready_tasks@,
                current_sp,
                final(self).current,
                final(self).ready_tasks@,
                r,
            ),
    {
        self.reap(mc);
        let ghost tasks0 = self.all_tasks();
        proof {
            let ready = self.ready_tasks@;
            assert forall|i: int| 0 <= i < ready.len() implies (#[trigger] ready[i]).trap_cx_words(
                mc.mem@,
            ) == ready[i].trap_cx_words(old(mc).mem@) by {
                assert(tasks0[i] == ready[i]);
            }
            if self.current.is_some() {
                assert(tasks0[ready.len() as int] == self.current.unwrap());
            }
        }
        let ghost cur0 = self.current;
        let ghost ready0 = self.ready_tasks@;
        let ghost queue = requeued(cur0, ready0, current_sp);
        let ghost rest = opt_seq(retired(cur0, current_sp));
        let mut outgoing: Option<usize> = None;
        match self.current.take() {
            Some(mut task) => {
                self.scheduler.proc_tick(&mut task.sched_data, task.priority);
                task.kernel_sp = current_sp;
                outgoing = Some(task.pid());
                let running: bool = match task.status {
                    TaskStatus::Running => true,
                    _ => false,
                };
                if running {
                    task.status = TaskStatus::Ready;
                    self.ready_tasks.push(task);
                } else {
                    self.last = Some(task);
                }
            },
            None => {},
        }
        let ghost mid = queue + rest;
        proof {
            assert(self.ready_tasks@ =~= queue);
            assert(tasks0.len() == mid.len());
            assert forall|i: int| 0 <= i < mid.len() implies same_task(mid[i], tasks0[i]) by {}
            lemma_world_rearranged(tasks0, mid, *mc, |i: int| i);
        }
        let next = self.take_next();
        match next {
            Some(mut task) => {
                let ghost i = pick(candidates(queue)).unwrap();
                task.status = TaskStatus::Running;
                let sp: u64 = task.kernel_sp;
                let same: bool = match outgoing {
                    Some(pid) => pid == task.pid(),
                    None => false,
                };
                self.current = Some(task);
                proof {
                    let after = self.all_tasks();
                    let n = queue.len() as int;
                    let from = |k: int|
                        if k < n - 1 {
                            if k < i {
                                k
                            } else {
                                k + 1
                            }
                        } else if k == n - 1 {
                            i
                        } else {
                            k
                        };
                    assert(after =~= queue.remove(i) + seq![task] + rest);
                    assert forall|k: int| 0 <= k < after.len() implies 0 <= #[trigger] from(k)
                        < mid.len() && same_task(after[k], mid[from(k)]) by {}
                    lemma_world_rearranged(mid, after, *mc, from);
                }
                if same {
                    SwitchAction::Stay
                } else {
                    SwitchAction::SwitchTo { kernel_sp: sp }
                }
            },
            None => {
                proof {
                    assert(self.all_tasks() =~= mid);
                }
                SwitchAction::Shutdown
            },
        }
    }

    /// Ends the running task, of which there must be one, with the code
    /// `exit_code`, which the task keeps, and puts the next task on the
    /// processor. `current_sp` is the kernel stack pointer that the running
    /// task leaves with.
    pub fn exit_task(&mut self, mc: &mut Machine, exit_code: i32, current_sp: u64) -> (r:
        SwitchAction)
        requires
            old(mc).wf(),
            old(self).wf(*old(mc)),
            old(self).current.is_some(),
        ensures
            final(mc).wf(),
            final(mc).same_statics(*old(mc)),
            final(self).wf(*final(mc)),
            final(self).last == Some(
                ticked(
                    Task {
                        status: TaskStatus::Exited,
                        exit_code: Some(exit_code),
                        ..old(self).current.unwrap()
                    },
                    current_sp,
                ),
            ),
            r != SwitchAction::Stay,
            given_up(old(self).last, *old(mc), *final(mc)),
            match pick(candidates(old(self).ready_tasks@)) {
                Some(i) => {
                    &&& 0 <= i < old(self).ready_tasks@.len()
                    &&& final(self).current == Some(
                        Task { status: TaskStatus::Running, ..old(self).ready_tasks@[i] },
                    )
                    &&& final(self).ready_tasks@ == old(self).ready_tasks@.remove(i)
                    &&& r == SwitchAction::SwitchTo {
                        kernel_sp: old(self).ready_tasks@[i].kernel_sp,
                    }
                },
                None => {
                    &&& final(self).current.is_none()
                    &&& final(self).ready_tasks@ == old(self).ready_tasks@
                    &&& r == SwitchAction::Shutdown
                },
            },
    {
        let ghost tasks0 = self.all_tasks();
        let ghost n = self.ready_tasks@.len() as int;
        let mut task = self.current.take().unwrap();
        task.status = TaskStatus::Exited;
        task.exit_code = Some(exit_code);
        self.current = Some(task);
        proof {
            let after = self.all_tasks();
            assert forall|k: int| 0 <= k < after.len() implies same_task(after[k], tasks0[k]) by {}
            lemma_world_rearranged(tasks0, after, *mc, |k: int| k);
            let i = pick(candidates(self.ready_tasks@));
            if i.is_some() {
                super::sched::lemma_scan(
                    candidates(self.ready_tasks@),
                    self.ready_tasks@.len() as int,
                );
                let j = i.unwrap();
                assert(self.all_tasks()[n] == task);
                assert(self.all_tasks()[j] == self.ready_tasks@[j]);
            }
        }
        self.switch_task(mc, current_sp)
    }

    /// Makes one ready task for each built-in program, in their order.
    /// `sstatus` is what the status register reads at present.
    ///
    /// Fails with the error of the first task that cannot be made; the
    /// tasks made before it stay.
    pub fn seed(&mut self, mc: &mut Machine, apps: &AppManager, sstatus: u64) -> (r: Result<
        (),
        KernelError,
    >)
        requires
            old(mc).wf(),
            old(self).wf(*old(mc)),
        ensures
            final(mc).wf(),
            final(self).wf(*final(mc)),
            final(mc).same_statics(*old(mc)),
            final(self).current == old(self).current,
            final(self).last == old(self).last,
            final(self).ready_tasks@.len() >= old(self).ready_tasks@.len(),
            final(self).ready_tasks@.subrange(0, old(self).ready_tasks@.len() as int) == old(self).ready_tasks@,
            forall|k: int|
                old(self).ready_tasks@.len() <= k < final(self).ready_tasks@.len() ==> {
                    let t = #[trigger] final(self).ready_tasks@[k];
                    t.priority == 2 && t.sched_data.stride == 0 && t.status == TaskStatus::Ready
                },
            r.is_ok() ==> final(self).ready_tasks@.len() == old(self).ready_tasks@.len()
                + apps.apps().len(),
            seeded(
                final(self).ready_tasks@,
                old(self).ready_tasks@.len() as int,
                *final(mc),
                apps.apps(),
                sstatus,
            ),
            r matches Err(e) ==> {
                let id = final(self).ready_tasks@.len() - old(self).ready_tasks@.len();
                &&& id < apps.apps().len()
                &&& exists|mid: Machine|
                    mid.wf() && mid.same_statics(*old(mc)) && (id == 0 ==> mid == *old(mc))
                        && #[trigger] init_failure(mid, apps.apps(), apps.apps()[id].name@, e)
            },
    {
        let ghost ready0 = self.ready_tasks@;
        let mut id: usize = 0;
        proof {
            assert(self.ready_tasks@.subrange(0, ready0.len() as int) =~= ready0);
        }
        while id < apps.app_num()
            invariant
                id <= apps.apps().len(),
                ready0 == old(self).ready_tasks@,
                mc.wf(),
                self.wf(*mc),
                mc.same_statics(*old(mc)),
                self.current == old(self).current,
                self.last == old(self).last,
                self.ready_tasks@.len() == ready0.len() + id,
                self.ready_tasks@.subrange(0, ready0.len() as int) == ready0,
                seeded(self.ready_tasks@, ready0.len() as int, *mc, apps.apps(), sstatus),
                id == 0 ==> *mc == *old(mc),
                forall|k: int|
                    ready0.len() <= k < self.ready_tasks@.len() ==> {
                        let t = #[trigger] self.ready_tasks@[k];
                        t.priority == 2 && t.sched_data.stride == 0 && t.status
                            == TaskStatus::Ready
                    },
            decreases apps.apps().len() - id,
        {
            let ghost mc0 = *mc;
            let ghost tasks0 = self.all_tasks();
            let ghost ready1 = self.ready_tasks@;
            let name = apps.name_of(id).unwrap();
            let task = match Task::new_init(mc, apps, name.as_slice(), sstatus) {
                Ok(t) => t,
                Err(e) => {
                    proof {
                        lemma_world_unchanged(tasks0, mc0, *mc);
                        assert forall|k: int| ready0.len() <= k < ready1.len() implies (
                        #[trigger] ready1[k]).ok(mc0) by {
                            assert(tasks0[k] == ready1[k]);
                        }
                        lemma_seeded_kept(
                            ready1,
                            ready0.len() as int,
                            mc0,
                            *mc,
                            mc.kernel_space.owned(),
                            apps.apps(),
                            sstatus,
                        );
                        let at = self.ready_tasks@.len() - ready0.len();
                        assert(at == id);
                        assert(name@ == apps.apps()[at].name@);
                        assert(mc0.wf() && mc0.same_statics(*old(mc)));
                        assert(init_failure(mc0, apps.apps(), apps.apps()[at].name@, e));
                    }
                    return Err(e);
                },
            };
            proof {
                lemma_world_inserted(tasks0, ready1.len() as int, task, mc0, *mc);
                assert forall|k: int| ready0.len() <= k < ready1.len() implies (
                #[trigger] ready1[k]).ok(mc0) by {
                    assert(tasks0[k] == ready1[k]);
                }
                lemma_seeded_kept(
                    ready1,
                    ready0.len() as int,
                    mc0,
                    *mc,
                    mc.kernel_space.owned().union(task.owned()),
                    apps.apps(),
                    sstatus,
                );
            }
            self.add_task(task);
            proof {
                assert forall|k: int| ready0.len() <= k < self.ready_tasks@.len() implies (
                #[trigger] self.ready_tasks@[k]).starts(
                    *mc,
                    apps.apps(),
                    apps.apps()[k - ready0.len()].name@,
                    sstatus,
                ) by {
                    if k < ready1.len() {
                        assert(self.ready_tasks@[k] == ready1[k]);
                    }
                }
                assert(self.ready_tasks@.subrange(0, ready0.len() as int) =~= ready0) by {
                    assert forall|k: int| 0 <= k < ready0.len() implies self.ready_tasks@[k]
                        == ready0[k] by {
                        assert(ready1.subrange(0, ready0.len() as int)[k] == ready0[k]);
                    }
                }
            }
            id += 1;
        }
        Ok(())
    }

    /// Makes one ready task for each built-in program and puts the first
    /// task on the processor. `sstatus` is what the status register reads
    /// at present, and `current_sp` the stack pointer of the boot stack.
    ///
    /// Fails with the error of the first task that cannot be made; the
    /// tasks made before it stay among the ready tasks.
    pub fn launch(
        &mut self,
        mc: &mut Machine,
        apps: &AppManager,
        sstatus: u64,
        current_sp: u64,
    ) -> (r: Result<SwitchAction, KernelError>)
        requires
            old(mc).wf(),
            old(self).wf(*old(mc)),
        ensures
            final(mc).wf(),
            final(self).wf(*final(mc)),
            final(mc).same_statics(*old(mc)),
            r matches Ok(a) ==> (a == SwitchAction::Shutdown <==> final(self).current.is_none()),
            r matches Ok(a) ==> final(self).last == retired(old(self).current, current_sp)
                && exists|ready: Seq<Task>|
                {
                    &&& ready.len() == old(self).ready_tasks@.len() + apps.apps().len()
                    &&& ready.subrange(0, old(self).ready_tasks@.len() as int) == old(
                        self,
                    ).ready_tasks@
                    &&& old(self).last.is_none() ==> seeded(
                        ready,
                        old(self).ready_tasks@.len() as int,
                        *final(mc),
                        apps.apps(),
                        sstatus,
                    )
                    &&& #[trigger] switched(
                        old(self).current,
                        ready,
                        current_sp,
                        final(self).current,
                        final(self).ready_tasks@,
                        a,
                    )
                },
            r matches Ok(a) ==> (old(self).all_tasks().len() == 0 && apps.apps().len() > 0 ==> {
                let first = final(self).current.unwrap();
                &&& final(self).current.is_some()
                &&& a == SwitchAction::SwitchTo { kernel_sp: first.kernel_sp }
                &&& first.status == TaskStatus::Running
                &&& final(self).ready_tasks@.len() == apps.apps().len() - 1
                &&& seeded(
                    seq![first] + final(self).ready_tasks@,
                    0,
                    *final(mc),
                    apps.apps(),
                    sstatus,
                )
            }),
            r.is_err() ==> {
                &&& final(self).current == old(self).current
                &&& final(self).last == old(self).last
                &&& final(self).ready_tasks@.len() >= old(self).ready_tasks@.len()
                &&& final(self).ready_tasks@.subrange(0, old(self).ready_tasks@.len() as int)
                    == old(self).ready_tasks@
                &&& seeded(
                    final(self).ready_tasks@,
                    old(self).ready_tasks@.len() as int,
                    *final(mc),
                    apps.apps(),
                    sstatus,
                )
            },
            r matches Err(e) ==> {
                let id = final(self).ready_tasks@.len() - old(self).ready_tasks@.len();
                &&& id < apps.apps().len()
                &&& exists|mid: Machine|
                    mid.wf() && mid.same_statics(*old(mc)) && (id == 0 ==> mid == *old(mc))
                        && #[trigger] init_failure(mid, apps.apps(), apps.apps()[id].name@, e)
            },
    {
        match self.seed(mc, apps, sstatus) {
            Ok(()) => {},
            Err(e) => {
                return Err(e);
            },
        }
        let ghost ready = self.ready_tasks@;
        let ghost mc1 = *mc;
        let a = self.switch_task(mc, current_sp);
        proof {
            assert(switched(
                old(self).current,
                ready,
                current_sp,
                self.current,
                self.ready_tasks@,
                a,
            ));
            if old(self).all_tasks().len() == 0 && apps.apps().len() > 0 {
                assert(old(self).ready_tasks@.len() == 0);
                assert(old(self).current.is_none() && old(self).last.is_none());
                let list = candidates(ready);
                assert forall|k: int| 0 <= k < list.len() implies (#[trigger] list[k]).ready
                    && list[k].stride == 0 by {
                    let t = ready[k];
                    assert(t.status == TaskStatus::Ready);
                }
                super::sched::lemma_pick_level(list);
                let first = self.current.unwrap();
                let all = seq![first] + self.ready_tasks@;
                assert forall|k: int| 0 <= k < all.len() implies (#[trigger] all[k]).starts(
                    *mc,
                    apps.apps(),
                    apps.apps()[k].name@,
                    sstatus,
                ) by {
                    assert(ready[k].starts(mc1, apps.apps(), apps.apps()[k - 0].name@, sstatus));
                    if k > 0 {
                        assert(all[k] == ready[k]);
                    }
                }
            }
        }
        Ok(a)
    }
}

} // verus!
