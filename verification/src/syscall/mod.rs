//! The system calls: what a user program can ask of the kernel.

pub mod fs;
pub mod misc;
pub mod mm;
pub mod proc;

use vstd::prelude::*;
use fs::{sys_write, write_result};
use misc::{sys_get_time, time_told};
use mm::{mapped, sys_mmap, sys_munmap, unmapped};
use proc::{
    executed, exited, forked_off, priority_set, sys_exec, sys_exit, sys_fork, sys_set_priority,
    sys_yield, yielded,
};
use crate::codec::{as_signed, low_signed, spec_as_signed, spec_low_signed};
use crate::kernel::Kernel;
use crate::mm::addr::VirtAddr;
use crate::task::manager::SwitchAction;

verus! {

/// The number of the call that writes to a file.
pub const SYSCALL_WRITE: u64 = 64;

/// The number of the call that ends the task.
pub const SYSCALL_EXIT: u64 = 93;

/// The number of the call that gives up the processor.
pub const SYSCALL_YIELD: u64 = 124;

/// The number of the call that sets the priority.
pub const SYSCALL_SET_PRIORITY: u64 = 140;

/// The number of the call that tells the time.
pub const SYSCALL_GET_TIME: u64 = 169;

/// The number of the call that unmaps memory.
pub const SYSCALL_MUNMAP: u64 = 215;

/// The number of the call that copies the task.
pub const SYSCALL_FORK: u64 = 220;

/// The number of the call that runs another program.
pub const SYSCALL_EXEC: u64 = 221;

/// The number of the call that maps memory.
pub const SYSCALL_MMAP: u64 = 222;

/// What a system call comes to.
pub struct SyscallOutcome {
    /// The result for the task that made the call, where the call comes
    /// back to it and has not put the result into its trap context itself.
    pub ret: Option<i64>,
    /// What the processor has to do, where the call took the task off the
    /// processor.
    pub action: Option<SwitchAction>,
    /// The bytes for the console.
    pub output: Vec<u8>,
}

/// Whether the kernel knows the call with number `id`.
pub open spec fn is_known(id: u64) -> bool {
    id == SYSCALL_WRITE || id == SYSCALL_EXIT || id == SYSCALL_YIELD || id
        == SYSCALL_SET_PRIORITY || id == SYSCALL_GET_TIME || id == SYSCALL_MUNMAP || id
        == SYSCALL_FORK || id == SYSCALL_EXEC || id == SYSCALL_MMAP
}

/// Whether the kernel `post`, the result `ret`, the action `action` and
/// the bytes `output` are what the system call with number `id` and the
/// arguments `a0` to `a2` makes of the kernel `pre`, when the cycle counter
/// reads `cycles` and the kernel stack pointer is `sp`. A call that comes
/// back to the task has a result and no action; one that takes the task
/// off the processor has an action and no result. Only the call that
/// writes has bytes for the console. A call that the kernel does not know
/// changes nothing and comes back with -1.
pub open spec fn served(
    pre: Kernel,
    post: Kernel,
    id: u64,
    a0: u64,
    a1: u64,
    a2: u64,
    cycles: u64,
    sp: u64,
    ret: Option<i64>,
    action: Option<SwitchAction>,
    output: Seq<u8>,
) -> bool {
    if id == SYSCALL_YIELD {
        ret.is_none() && output.len() == 0 && action.is_some() && yielded(
            pre,
            post,
            sp,
            (0i64, action.unwrap()),
        )
    } else if id == SYSCALL_EXIT {
        ret.is_none() && output.len() == 0 && action.is_some() && exited(
            pre,
            post,
            spec_low_signed(a0),
            sp,
            action.unwrap(),
        )
    } else if !is_known(id) {
        ret == Some(-1i64) && action.is_none() && output.len() == 0 && post == pre
    } else {
        &&& action.is_none()
        &&& ret.is_some()
        &&& id != SYSCALL_WRITE ==> output.len() == 0
        &&& id == SYSCALL_WRITE ==> post == pre && write_result(
            pre,
            a0,
            a1,
            a2,
            ret.unwrap(),
            output,
        )
        &&& id == SYSCALL_GET_TIME ==> time_told(pre, post, VirtAddr(a0), cycles, ret.unwrap())
        &&& id == SYSCALL_SET_PRIORITY ==> priority_set(
            pre,
            post,
            spec_as_signed(a0),
            ret.unwrap(),
        )
        &&& id == SYSCALL_MMAP ==> mapped(pre, post, VirtAddr(a0), a1, a2, ret.unwrap())
        &&& id == SYSCALL_MUNMAP ==> unmapped(pre, post, VirtAddr(a0), a1, ret.unwrap())
        &&& id == SYSCALL_FORK ==> forked_off(pre, post, ret.unwrap())
        &&& id == SYSCALL_EXEC ==> executed(pre, post, VirtAddr(a0), ret.unwrap())
    }
}

/// Carries out the system call with number `syscall_id` and the arguments
/// `args0` to `args2` for the running task, of which there must be one.
/// `cycles` is what the cycle counter reads, and `current_sp` the kernel
/// stack pointer at the call. A call that the kernel does not know comes
/// back with -1 and changes nothing.
pub fn syscall(
    kernel: &mut Kernel,
    syscall_id: u64,
    args0: u64,
    args1: u64,
    args2: u64,
    cycles: u64,
    current_sp: u64,
) -> (r: SyscallOutcome)
    requires
        old(kernel).wf(),
        old(kernel).tasks.current.is_some(),
    ensures
        final(kernel).wf(),
        served(
            *old(kernel),
            *final(kernel),
            syscall_id,
            args0,
            args1,
            args2,
            cycles,
            current_sp,
            r.ret,
            r.action,
            r.output@,
        ),
{
    if syscall_id == SYSCALL_WRITE {
        let (ret, output) = sys_write(kernel, args0, VirtAddr(args1), args2);
        SyscallOutcome { ret: Some(ret), action: None, output }
    } else if syscall_id == SYSCALL_EXIT {
        let action = sys_exit(kernel, low_signed(args0), current_sp);
        SyscallOutcome { ret: None, action: Some(action), output: Vec::new() }
    } else if syscall_id == SYSCALL_YIELD {
        let (_, action) = sys_yield(kernel, current_sp);
        SyscallOutcome { ret: None, action: Some(action), output: Vec::new() }
    } else if syscall_id == SYSCALL_GET_TIME {
        let ret = sys_get_time(kernel, VirtAddr(args0), cycles);
        SyscallOutcome { ret: Some(ret), action: None, output: Vec::new() }
    } else if syscall_id == SYSCALL_SET_PRIORITY {
        let ret = sys_set_priority(kernel, as_signed(args0));
        SyscallOutcome { ret: Some(ret), action: None, output: Vec::new() }
    } else if syscall_id == SYSCALL_MMAP {
        let ret = sys_mmap(kernel, VirtAddr(args0), args1, args2);
        SyscallOutcome { ret: Some(ret), action: None, output: Vec::new() }
    } else if syscall_id == SYSCALL_MUNMAP {
        let ret = sys_munmap(kernel, VirtAddr(args0), args1);
        SyscallOutcome { ret: Some(ret), action: None, output: Vec::new() }
    } else if syscall_id == SYSCALL_FORK {
        let ret = sys_fork(kernel);
        SyscallOutcome { ret: Some(ret), action: None, output: Vec::new() }
    } else if syscall_id == SYSCALL_EXEC {
        let ret = sys_exec(kernel, VirtAddr(args0));
        SyscallOutcome { ret: Some(ret), action: None, output: Vec::new() }
    } else {
        SyscallOutcome { ret: Some(-1), action: None, output: Vec::new() }
    }
}

} // verus!
