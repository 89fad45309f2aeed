//! The system calls that act on tasks.

use vstd::prelude::*;
use crate::kernel::{cx_set, preempted, Kernel};
use crate::loader::{
    app_loaded, elf_faulty, elf_load_error, elf_loads, elf_rejected, LoadedElf,
};
use crate::mm::page_table::depths;
use crate::mm::addr::VirtAddr;
use crate::mm::aspace::{cstr_at, forked, lemma_cstr_unique, without_user};
use crate::task::{apart, child_outcome, Task, TaskStatus};
use crate::task::manager::{
    candidates, given_up, lemma_world_inserted, lemma_world_rearranged, lemma_world_updated,
    same_task, ticked, SwitchAction,
};
use crate::task::sched::pick;

verus! {

/// Whether the kernel `post` and the action `r` are what the end of the
/// running task with the code `exit_code` makes of the kernel `pre`: the
/// task has ended with that code and waits to be given up, and the ready
/// task whose stride comes first runs; without one the machine shuts down.
pub open spec fn exited(
    pre: Kernel,
    post: Kernel,
    exit_code: i32,
    current_sp: u64,
    r: SwitchAction,
) -> bool {
    &&& post.machine.same_statics(pre.machine)
    &&& post.apps == pre.apps
    &&& r != SwitchAction::Stay
    &&& given_up(pre.tasks.last, pre.machine, post.machine)
    &&& post.tasks.last == Some(
        ticked(
            Task {
                status: TaskStatus::Exited,
                exit_code: Some(exit_code),
                ..pre.tasks.current.unwrap()
            },
            current_sp,
        ),
    )
    &&& match pick(candidates(pre.tasks.ready_tasks@)) {
        Some(i) => {
            &&& 0 <= i < pre.tasks.ready_tasks@.len()
            &&& post.tasks.current == Some(
                Task { status: TaskStatus::Running, ..pre.tasks.ready_tasks@[i] },
            )
            &&& post.tasks.ready_tasks@ == pre.tasks.ready_tasks@.remove(i)
            &&& r == SwitchAction::SwitchTo {
                kernel_sp: pre.tasks.ready_tasks@[i].kernel_sp,
            }
        },
        None => {
            &&& post.tasks.current.is_none()
            &&& post.tasks.ready_tasks@ == pre.tasks.ready_tasks@
            &&& r == SwitchAction::Shutdown
        },
    }
}

/// Ends the running task, of which there must be one, with the exit code
/// `exit_code`, and puts the next task on the processor.
pub fn sys_exit(kernel: &mut Kernel, exit_code: i32, current_sp: u64) -> (r: SwitchAction)
    requires
        old(kernel).wf(),
        old(kernel).tasks.current.is_some(),
    ensures
        final(kernel).wf(),
        exited(*old(kernel), *final(kernel), exit_code, current_sp, r),
{
    kernel.tasks.exit_task(&mut kernel.machine, exit_code, current_sp)
}

/// Whether the kernel `post` and the result `r` are what the running task
/// makes of the kernel `pre` by giving up the processor: the task finds
/// zero in its register of the result, and a switch takes place.
pub open spec fn yielded(pre: Kernel, post: Kernel, current_sp: u64, r: (i64, SwitchAction)) -> bool {
    let words = pre.tasks.current.unwrap().trap_cx_words(pre.machine.mem@);
    &&& r.0 == 0
    &&& exists|entered: Kernel|
        cx_set(pre, entered, words.update(10, 0)) && #[trigger] preempted(
            entered,
            post,
            current_sp,
            r.1,
        )
}

/// Gives up the processor: the running task, of which there must be one,
/// finds zero as the result of the call when it runs again, and the ready
/// task with the smallest stride runs next. Returns zero and what the
/// processor has to do.
pub fn sys_yield(kernel: &mut Kernel, current_sp: u64) -> (r: (i64, SwitchAction))
    requires
        old(kernel).wf(),
        old(kernel).tasks.current.is_some(),
    ensures
        final(kernel).wf(),
        yielded(*old(kernel), *final(kernel), current_sp, r),
{
    let ghost tasks0 = kernel.tasks.all_tasks();
    let ghost mc0 = kernel.machine;
    let ghost n = kernel.tasks.ready_tasks@.len() as int;
    let ghost cur = kernel.tasks.current.unwrap();
    proof {
        assert(tasks0[n] == cur);
    }
    let task = kernel.tasks.current.as_ref().unwrap();
    let mut cx = task.load_trap_cx(&kernel.machine);
    cx.x[10] = 0;
    proof {
        assert(cx.words() =~= cur.trap_cx_words(mc0.mem@).update(10, 0));
    }
    task.store_trap_cx(&mut kernel.machine, &cx);
    let ghost mc1 = kernel.machine;
    proof {
        assert(tasks0.update(n, cur) =~= tasks0);
        lemma_world_updated(tasks0, n, cur, mc0, mc1);
    }
    let ghost entered = *kernel;
    let action = kernel.tasks.switch_task(&mut kernel.machine, current_sp);
    proof {
        let words = old(kernel).tasks.current.unwrap().trap_cx_words(old(kernel).machine.mem@);
        assert(cx_set(*old(kernel), entered, words.update(10, 0)));
        assert(preempted(entered, *kernel, current_sp, (0i64, action).1));
    }
    (0, action)
}

/// The result of a request for priority `priority`: the priority where it
/// is at least 2, else -1.
pub open spec fn spec_set_priority(priority: i64) -> i64 {
    if priority < 2 {
        -1i64
    } else {
        priority
    }
}

/// Whether the kernel `post` and the result `r` are what a request for the
/// priority `priority` makes of the kernel `pre`: a priority of at least 2
/// becomes that of the running task and is the result; another changes
/// nothing, and the result is -1.
pub open spec fn priority_set(pre: Kernel, post: Kernel, priority: i64, r: i64) -> bool {
    &&& r == spec_set_priority(priority)
    &&& priority < 2 ==> post == pre
    &&& priority >= 2 ==> post.machine == pre.machine && post.apps
        == pre.apps && post.tasks.ready_tasks == pre.tasks.ready_tasks && post.tasks.last == pre.tasks.last && post.tasks.current == Some(
        Task { priority: priority as u64, ..pre.tasks.current.unwrap() },
    )
}

/// Sets the priority of the running task, of which there must be one, to
/// `priority` where that is at least 2, and returns it; else returns -1 and
/// changes nothing.
pub fn sys_set_priority(kernel: &mut Kernel, priority: i64) -> (r: i64)
    requires
        old(kernel).wf(),
        old(kernel).tasks.current.is_some(),
    ensures
        final(kernel).wf(),
        priority_set(*old(kernel), *final(kernel), priority, r),
{
    if priority < 2 {
        return -1;
    }
    let ghost tasks0 = kernel.tasks.all_tasks();
    let ghost n = kernel.tasks.ready_tasks@.len() as int;
    let mut task = kernel.tasks.current.take().unwrap();
    task.set_priority(priority as u64);
    kernel.tasks.current = Some(task);
    proof {
        let after = kernel.tasks.all_tasks();
        assert forall|k: int| 0 <= k < after.len() implies same_task(after[k], tasks0[k]) by {}
        lemma_world_rearranged(tasks0, after, kernel.machine, |k: int| k);
    }
    priority
}

/// Whether the kernel `post` and the result `r` are what a request to copy
/// the running task makes of the kernel `pre`: the copy is the last of the
/// ready tasks and the result is its process identifier, or nothing has
/// changed for any task and the result is -1. It is -1 where there is no
/// running task and where the making of the child does not end well.
pub open spec fn forked_off(pre: Kernel, post: Kernel, r: i64) -> bool {
    &&& post.machine.same_statics(pre.machine)
    &&& post.apps == pre.apps
    &&& post.tasks.current == pre.tasks.current
    &&& post.tasks.last == pre.tasks.last
    &&& pre.tasks.current.is_none() ==> r == -1
    &&& r == -1 ==> post.tasks.ready_tasks@ == pre.tasks.ready_tasks@
    &&& pre.tasks.current.is_some() ==> ((r == -1) <==> child_outcome(
        pre.tasks.current.unwrap(),
        pre.machine,
    ).is_some())
    &&& pre.tasks.current matches Some(parent) ==> parent.trap_cx_words(
        post.machine.mem@,
    ) == parent.trap_cx_words(pre.machine.mem@)
    &&& r != -1 ==> {
        let parent = pre.tasks.current.unwrap();
        let child = post.tasks.ready_tasks@.last();
        let theirs = parent.trap_cx_words(pre.machine.mem@);
        let words = child.trap_cx_words(post.machine.mem@);
        &&& r > 0 || r == 0
        &&& post.tasks.ready_tasks@ == pre.tasks.ready_tasks@.push(child)
        &&& r == child.pid.spec_value()
        &&& !pre.machine.pids@.in_use(child.pid.spec_value())
        &&& child.status == TaskStatus::Ready
        &&& apart(child.owned(), parent.owned())
        &&& words.subrange(0, 32) == theirs.subrange(0, 32).update(10, 0)
        &&& words[32] == theirs[32]
        &&& words[33] == theirs[33]
        &&& child.priority == 2
        &&& child.sched_data.stride == 0
        &&& child.aspace.views().len() == parent.aspace.views().len()
        &&& forall|k: int|
            0 <= k < parent.aspace.views().len() && k != 1 ==> forked(
                #[trigger] parent.aspace.views()[k],
                pre.machine.mem@,
                child.aspace.views()[k],
                post.machine.mem@,
            )
    }
}

/// Makes a copy of the running task and puts it among the ready tasks.
/// Returns the process identifier of the copy, or -1 when there is no
/// running task or the copy cannot be made. The copy finds zero as the
/// result of the call when it runs.
pub fn sys_fork(kernel: &mut Kernel) -> (r: i64)
    requires
        old(kernel).wf(),
    ensures
        final(kernel).wf(),
        forked_off(*old(kernel), *final(kernel), r),
{
    let ghost tasks0 = kernel.tasks.all_tasks();
    let ghost mc0 = kernel.machine;
    let ghost n = kernel.tasks.ready_tasks@.len() as int;
    let made = match &kernel.tasks.current {
        None => {
            return -1;
        },
        Some(parent) => {
            proof {
                assert(tasks0[n] == *parent);
            }
            parent.new_fork(&mut kernel.machine)
        },
    };
    match made {
        Err(e) => {
            proof {
                crate::task::manager::lemma_world_unchanged(tasks0, mc0, kernel.machine);
            }
            -1
        },
        Ok(child) => {
            let pid = child.pid();
            proof {
                lemma_world_inserted(tasks0, n, child, mc0, kernel.machine);
                assert(child.pid.spec_stack() >= 0);
                assert(child.pid.spec_value() < crate::mm::addr::VPN_LIMIT);
            }
            kernel.tasks.add_task(child);
            pid as i64
        },
    }
}

/// Whether the kernel `post` and the result `r` are what a request to run
/// the built-in program named `app_name` makes of the kernel `pre`. A
/// program that is turned away before anything is done leaves the kernel
/// as it was, and the result is -1. A program with a faulty segment gives
/// -1 too. The result is 0 where the loading ends well, and else -1. With
/// the result 0 the running task holds the program and goes on at its
/// start, on its stack; with -1 the trap context is as it was.
pub open spec fn exec_result(pre: Kernel, post: Kernel, app_name: Seq<u8>, r: i64) -> bool {
    let before = pre.tasks.current.unwrap();
    let after = post.tasks.current.unwrap();
    &&& elf_rejected(pre.apps.apps(), app_name) ==> r == -1 && post == pre
    &&& elf_faulty(pre.apps.apps(), app_name) ==> r == -1
    &&& r == -1 ==> after.trap_cx_words(post.machine.mem@) == before.trap_cx_words(
        pre.machine.mem@,
    )
    &&& (r == 0) <==> elf_loads(
        pre.apps.apps(),
        app_name,
        before.aspace.views(),
        pre.machine.frames@.available() + before.aspace.user_frames(),
        depths(pre.machine.mem@, before.aspace.table().spec_root()),
    )
    &&& r == 0 ==> exists|l: LoadedElf| #[trigger]
        app_loaded(
            pre.apps.apps(),
            app_name,
            without_user(before.aspace.views()),
            after.aspace.views(),
            post.machine.mem@,
            l,
        ) && after.trap_cx_words(post.machine.mem@) == before.trap_cx_words(
            pre.machine.mem@,
        ).update(33, l.entry).update(2, l.user_sp)
}

/// Whether the kernel `post` and the result `r` are what a request to run
/// the program whose name stands at the virtual address `name` makes of the
/// kernel `pre`: there is one name that the user program can read there,
/// and the task, the same task as before, has what the request for the
/// program of that name comes to.
pub open spec fn executed(pre: Kernel, post: Kernel, name: VirtAddr, r: i64) -> bool {
    let before = pre.tasks.current.unwrap();
    let after = post.tasks.current.unwrap();
    &&& post.machine.same_statics(pre.machine)
    &&& post.apps == pre.apps
    &&& post.tasks.ready_tasks == pre.tasks.ready_tasks
    &&& post.tasks.last == pre.tasks.last
    &&& r == 0 || r == -1
    &&& post.tasks.current.is_some()
    &&& after.pid == before.pid
    &&& after.status == before.status
    &&& after.priority == before.priority
    &&& after.sched_data == before.sched_data
    &&& after.exit_code == before.exit_code
    &&& after.trap_cx_ptr == before.trap_cx_ptr
    &&& exists|app_name: Seq<u8>| #[trigger]
        cstr_at(before.aspace.views(), pre.machine.mem@, name.0 as int, app_name)
    &&& forall|app_name: Seq<u8>| #[trigger]
        cstr_at(before.aspace.views(), pre.machine.mem@, name.0 as int, app_name)
            ==> exec_result(pre, post, app_name, r)
}

/// Puts the built-in program whose name stands at the virtual address
/// `name`, ended by a zero byte, into the running task, of which there must
/// be one. Returns 0, or -1 when there is no program of that name or it
/// cannot be loaded.
pub fn sys_exec(kernel: &mut Kernel, name: VirtAddr) -> (r: i64)
    requires
        old(kernel).wf(),
        old(kernel).tasks.current.is_some(),
    ensures
        final(kernel).wf(),
        executed(*old(kernel), *final(kernel), name, r),
{
    let ghost tasks0 = kernel.tasks.all_tasks();
    let ghost mc0 = kernel.machine;
    let ghost n = kernel.tasks.ready_tasks@.len() as int;
    let mut task = kernel.tasks.current.take().unwrap();
    proof {
        assert(tasks0[n] == task);
        task.aspace.lemma_shape(kernel.machine.mem@, kernel.machine.frames@);
    }
    let app_name = task.aspace.read_cstr(&kernel.machine.mem, name, true);
    let r = task.exec(&mut kernel.machine, &kernel.apps, app_name.as_slice());
    kernel.tasks.current = Some(task);
    proof {
        assert(kernel.tasks.all_tasks() =~= tasks0.update(n, task));
        lemma_world_updated(tasks0, n, task, mc0, kernel.machine);
    }
    proof {
        let views = old(kernel).tasks.current.unwrap().aspace.views();
        assert(cstr_at(views, mc0.mem@, name.0 as int, app_name@));
        if r.is_ok() {
            assert(app_loaded(
                old(kernel).apps.apps(),
                app_name@,
                without_user(views),
                task.aspace.views(),
                kernel.machine.mem@,
                r.unwrap(),
            ));
        } else {
            assert(elf_load_error(
                old(kernel).apps.apps(),
                app_name@,
                views,
                mc0.frames@.available() + old(kernel).tasks.current.unwrap().aspace.user_frames(),
                depths(
                    mc0.mem@,
                    old(kernel).tasks.current.unwrap().aspace.table().spec_root(),
                ),
                r.unwrap_err(),
            ));
        }
        let code: i64 = if r.is_ok() {
            0i64
        } else {
            -1i64
        };
        assert(exec_result(*old(kernel), *kernel, app_name@, code));
        assert forall|other: Seq<u8>| #[trigger]
            cstr_at(views, mc0.mem@, name.0 as int, other) implies exec_result(
            *old(kernel),
            *kernel,
            other,
            code,
        ) by {
            lemma_cstr_unique(views, mc0.mem@, name.0 as int, app_name@, other);
        }
    }
    match r {
        Ok(_) => 0,
        Err(_) => -1,
    }
}

} // verus!
