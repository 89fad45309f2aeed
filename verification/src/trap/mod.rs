//! Traps: the saved state of a user program, and what the kernel does when
//! a user program traps.

pub mod context;

use vstd::prelude::*;
use crate::codec::{as_unsigned, spec_as_unsigned};
use crate::kernel::{cx_set, preempted, Kernel};
use crate::syscall::{served, syscall};
use crate::syscall::proc::exited;
use crate::task::manager::{lemma_world_updated, SwitchAction};
use crate::timer::next_deadline;

verus! {

/// The code of the exception that an instruction fetch raises that is not
/// allowed.
pub const EXC_INSTRUCTION_FAULT: u64 = 1;

/// The code of the exception that an instruction raises that the processor
/// does not know.
pub const EXC_ILLEGAL_INSTRUCTION: u64 = 2;

/// The code of the exception that a load raises that is not allowed.
pub const EXC_LOAD_FAULT: u64 = 5;

/// The code of the exception that a store raises that is not allowed.
pub const EXC_STORE_FAULT: u64 = 7;

/// The code of the exception that a call from a user program raises.
pub const EXC_USER_ENV_CALL: u64 = 8;

/// The code of the exception that an instruction fetch raises from a page
/// that is not mapped for it.
pub const EXC_INSTRUCTION_PAGE_FAULT: u64 = 12;

/// The code of the exception that a load raises from a page that is not
/// mapped for it.
pub const EXC_LOAD_PAGE_FAULT: u64 = 13;

/// The code of the exception that a store raises to a page that is not
/// mapped for it.
pub const EXC_STORE_PAGE_FAULT: u64 = 15;

/// The code of the interrupt of the supervisor timer.
pub const INT_SUPERVISOR_TIMER: u64 = 5;

/// Reads a cause register with the `riscv` crate: `Scause::from_bits`, then
/// `Scause::cause`. The first part of the result tells whether the cause is
/// an interrupt, which is the top bit of the register, and the second is
/// the code, which is the rest of it. This is what the crate does where a
/// word has 64 bits, and the call is made there only.
#[verifier::external_body]
fn scause_cause(bits: u64) -> (r: (bool, u64))
    requires
        usize::MAX == u64::MAX,
    ensures
        r.0 == (bits >> 63 == 1),
        r.1 == bits & 0x7fff_ffff_ffff_ffff,
{
    match riscv::register::scause::Scause::from_bits(bits as usize).cause() {
        riscv::interrupt::Trap::Interrupt(code) => (true, code as u64),
        riscv::interrupt::Trap::Exception(code) => (false, code as u64),
    }
}

/// What kind of trap the kernel has to deal with.
#[derive(Copy, Clone, Debug, PartialEq, Eq, Structural)]
pub enum TrapKind {
    /// A system call.
    Syscall,
    /// An access that is not allowed or not mapped.
    Fault,
    /// An instruction that the processor does not know.
    IllegalInstruction,
    /// The end of a time slice.
    Timer,
    /// Anything else; the kernel cannot go on.
    Unsupported,
}

/// The kind of the trap whose cause is an interrupt or an exception, as
/// `interrupt` tells, with the code `code`.
pub open spec fn spec_classify(interrupt: bool, code: u64) -> TrapKind {
    if interrupt {
        if code == INT_SUPERVISOR_TIMER {
            TrapKind::Timer
        } else {
            TrapKind::Unsupported
        }
    } else if code == EXC_USER_ENV_CALL {
        TrapKind::Syscall
    } else if code == EXC_STORE_FAULT || code == EXC_STORE_PAGE_FAULT || code == EXC_LOAD_FAULT
        || code == EXC_LOAD_PAGE_FAULT || code == EXC_INSTRUCTION_FAULT || code
        == EXC_INSTRUCTION_PAGE_FAULT {
        TrapKind::Fault
    } else if code == EXC_ILLEGAL_INSTRUCTION {
        TrapKind::IllegalInstruction
    } else {
        TrapKind::Unsupported
    }
}

/// The kind of the trap for which the cause register reads `scause`.
pub open spec fn spec_trap_kind(scause: u64) -> TrapKind {
    spec_classify(scause >> 63 == 1, scause & 0x7fff_ffff_ffff_ffff)
}

/// The kind of the trap for which the cause register reads `scause`. The
/// register is taken apart by the `riscv` crate where a word of the host
/// has 64 bits, as on the machine that the kernel is for.
pub fn classify(scause: u64) -> (k: TrapKind)
    ensures
        k == spec_trap_kind(scause),
{
    let (interrupt, code) = if usize::MAX as u64 == u64::MAX {
        scause_cause(scause)
    } else {
        (scause >> 63 == 1, scause & 0x7fff_ffff_ffff_ffff)
    };
    if interrupt {
        if code == INT_SUPERVISOR_TIMER {
            TrapKind::Timer
        } else {
            TrapKind::Unsupported
        }
    } else if code == EXC_USER_ENV_CALL {
        TrapKind::Syscall
    } else if code == EXC_STORE_FAULT || code == EXC_STORE_PAGE_FAULT || code == EXC_LOAD_FAULT
        || code == EXC_LOAD_PAGE_FAULT || code == EXC_INSTRUCTION_FAULT || code
        == EXC_INSTRUCTION_PAGE_FAULT {
        TrapKind::Fault
    } else if code == EXC_ILLEGAL_INSTRUCTION {
        TrapKind::IllegalInstruction
    } else {
        TrapKind::Unsupported
    }
}

/// What is on record of a trap that has ended a task.
#[derive(Copy, Clone, Debug, PartialEq, Eq, Structural)]
pub struct FaultReport {
    /// The kind of the trap.
    pub kind: TrapKind,
    /// What the value register read: for a fault, the address of the
    /// access.
    pub stval: u64,
    /// The code that the task has ended with.
    pub exit_code: i32,
}

/// The code that a task ends with that a trap has ended.
pub const FAULT_EXIT_CODE: i32 = -1;

/// What the processor has to do after a trap was dealt with.
pub struct TrapOutcome {
    /// Which task goes on.
    pub action: SwitchAction,
    /// The reading of the cycle counter at which the timer is to go off
    /// next, where the timer is to be set.
    pub timer: Option<u64>,
    /// The bytes for the console.
    pub output: Vec<u8>,
    /// The record for the log, where the trap has ended the task.
    pub fault: Option<FaultReport>,
}

/// The address of the instruction behind the call instruction at `sepc`.
pub open spec fn spec_after_call(sepc: u64) -> u64 {
    if sepc + 4 <= u64::MAX {
        (sepc + 4) as u64
    } else {
        (sepc + 4 - 0x1_0000_0000_0000_0000) as u64
    }
}

/// Whether the kernel `post`, the action `action` and the bytes `output`
/// are what a system call of the running task makes of the kernel `pre`.
/// The number of the call and its arguments are what the trap context of
/// the task holds for the registers `a7` and `a0` to `a2`. First the
/// program counter in the trap context moves behind the call instruction;
/// then the call is served; then, where the call comes back to the task,
/// its result is put into the trap context for the register `a0` and the
/// task stays on the processor.
pub open spec fn called(
    pre: Kernel,
    post: Kernel,
    cycles: u64,
    sp: u64,
    action: SwitchAction,
    output: Seq<u8>,
) -> bool {
    let words = pre.tasks.current.unwrap().trap_cx_words(pre.machine.mem@);
    exists|entered: Kernel, done: Kernel, ret: Option<i64>, act: Option<SwitchAction>|
        {
            &&& cx_set(pre, entered, words.update(33, spec_after_call(words[33])))
            &&& #[trigger] served(
                entered,
                done,
                words[17],
                words[10],
                words[11],
                words[12],
                cycles,
                sp,
                ret,
                act,
                output,
            )
            &&& match ret {
                Some(v) => action == SwitchAction::Stay && cx_set(
                    done,
                    post,
                    done.tasks.current.unwrap().trap_cx_words(done.machine.mem@).update(
                        10,
                        spec_as_unsigned(v),
                    ),
                ),
                None => post == done && act == Some(action),
            }
        }
}

/// Whether the kernel `post` and the outcome are what a trap of the
/// running task makes of the kernel `pre`, where the cause register reads
/// `scause`, the value register reads `stval`, the cycle counter reads
/// `cycles`, and the kernel stack pointer is `sp`. Only the end of a time
/// slice sets the timer, and only a system call has bytes for the console.
/// A fault or an unknown instruction ends the task with the code -1 and
/// leaves a record of its kind and of what the value register read.
pub open spec fn trapped(
    pre: Kernel,
    post: Kernel,
    scause: u64,
    stval: u64,
    cycles: u64,
    sp: u64,
    action: SwitchAction,
    timer: Option<u64>,
    output: Seq<u8>,
    fault: Option<FaultReport>,
) -> bool {
    match spec_trap_kind(scause) {
        TrapKind::Syscall => timer.is_none() && fault.is_none() && called(
            pre,
            post,
            cycles,
            sp,
            action,
            output,
        ),
        TrapKind::Fault | TrapKind::IllegalInstruction => timer.is_none() && output.len() == 0
            && fault == Some(
            FaultReport { kind: spec_trap_kind(scause), stval, exit_code: FAULT_EXIT_CODE },
        ) && exited(pre, post, FAULT_EXIT_CODE, sp, action),
        _ => timer == Some(next_deadline_of(cycles)) && output.len() == 0 && fault.is_none()
            && preempted(pre, post, sp, action),
    }
}

/// Deals with a trap from the running task, of which there must be one.
/// `scause` and `stval` are what the cause and the value registers read,
/// `cycles` is what the cycle counter reads, and `current_sp` is the kernel
/// stack pointer. The trap must be of a kind that the kernel deals with.
///
/// A system call is carried out for the task, which goes on behind the call
/// instruction with the result in its first argument register. A fault or
/// an unknown instruction ends the task with the code -1, and the outcome
/// holds the record of it for the log. The end of a time slice sets the
/// timer for the next one and puts the ready task with the smallest stride
/// on the processor.
pub fn trap_handler(kernel: &mut Kernel, scause: u64, stval: u64, cycles: u64, current_sp: u64) -> (r:
    TrapOutcome)
    requires
        old(kernel).wf(),
        old(kernel).tasks.current.is_some(),
        spec_trap_kind(scause) != TrapKind::Unsupported,
    ensures
        final(kernel).wf(),
        trapped(
            *old(kernel),
            *final(kernel),
            scause,
            stval,
            cycles,
            current_sp,
            r.action,
            r.timer,
            r.output@,
            r.fault,
        ),
{
    match classify(scause) {
        TrapKind::Syscall => {
            let ghost tasks0 = kernel.tasks.all_tasks();
            let ghost mc0 = kernel.machine;
            let ghost n = kernel.tasks.ready_tasks@.len() as int;
            let ghost before = kernel.tasks.current.unwrap();
            let ghost words = before.trap_cx_words(mc0.mem@);
            proof {
                assert(tasks0[n] == before);
            }
            let task = kernel.tasks.current.as_ref().unwrap();
            let mut cx = task.load_trap_cx(&kernel.machine);
            cx.sepc = if cx.sepc <= u64::MAX - 4 {
                cx.sepc + 4
            } else {
                cx.sepc - (u64::MAX - 4) - 1
            };
            let id: u64 = cx.x[17];
            let a0: u64 = cx.x[10];
            let a1: u64 = cx.x[11];
            let a2: u64 = cx.x[12];
            proof {
                assert(cx.words() =~= words.update(33, spec_after_call(words[33])));
            }
            task.store_trap_cx(&mut kernel.machine, &cx);
            proof {
                assert(tasks0.update(n, before) =~= tasks0);
                lemma_world_updated(tasks0, n, before, mc0, kernel.machine);
            }
            let ghost entered = *kernel;
            let out = syscall(kernel, id, a0, a1, a2, cycles, current_sp);
            let ghost done = *kernel;
            proof {
                assert(cx_set(*old(kernel), entered, words.update(33, spec_after_call(words[33]))));
                assert(id == words[17] && a0 == words[10] && a1 == words[11] && a2 == words[12]);
            }
            match out.ret {
                Some(v) => {
                    let ghost tasks1 = kernel.tasks.all_tasks();
                    let ghost mc1 = kernel.machine;
                    let ghost n1 = kernel.tasks.ready_tasks@.len() as int;
                    let ghost after = kernel.tasks.current.unwrap();
                    proof {
                        assert(tasks1[n1] == after);
                    }
                    let task = kernel.tasks.current.as_ref().unwrap();
                    let mut cx = task.load_trap_cx(&kernel.machine);
                    cx.x[10] = as_unsigned(v);
                    proof {
                        assert(cx.words() =~= after.trap_cx_words(mc1.mem@).update(
                            10,
                            spec_as_unsigned(v),
                        ));
                    }
                    task.store_trap_cx(&mut kernel.machine, &cx);
                    proof {
                        assert(tasks1.update(n1, after) =~= tasks1);
                        lemma_world_updated(tasks1, n1, after, mc1, kernel.machine);
                    }
                },
                None => {},
            }
            let action = match out.action {
                Some(a) => a,
                None => SwitchAction::Stay,
            };
            proof {
                assert(served(
                    entered,
                    done,
                    words[17],
                    words[10],
                    words[11],
                    words[12],
                    cycles,
                    current_sp,
                    out.ret,
                    out.action,
                    out.output@,
                ));
                if out.ret.is_some() {
                    assert(out.action.is_none());
                    assert(cx_set(
                        done,
                        *kernel,
                        done.tasks.current.unwrap().trap_cx_words(done.machine.mem@).update(
                            10,
                            spec_as_unsigned(out.ret.unwrap()),
                        ),
                    ));
                } else {
                    assert(out.action.is_some());
                }
            }
            TrapOutcome { action, timer: None, output: out.output, fault: None }
        },
        kind @ (TrapKind::Fault | TrapKind::IllegalInstruction) => {
            let action = kernel.tasks.exit_task(&mut kernel.machine, FAULT_EXIT_CODE, current_sp);
            let fault = FaultReport { kind, stval, exit_code: FAULT_EXIT_CODE };
            TrapOutcome { action, timer: None, output: Vec::new(), fault: Some(fault) }
        },
        _ => {
            let deadline = next_deadline(cycles);
            let action = kernel.tasks.switch_task(&mut kernel.machine, current_sp);
            TrapOutcome { action, timer: Some(deadline), output: Vec::new(), fault: None }
        },
    }
}

/// The reading of the cycle counter at which the time slice ends that
/// starts when the counter reads `cycles`.
pub open spec fn next_deadline_of(cycles: u64) -> u64 {
    if cycles + crate::timer::CLOCK_FREQ / crate::timer::TICKS_PER_SEC <= u64::MAX {
        (cycles + crate::timer::CLOCK_FREQ / crate::timer::TICKS_PER_SEC) as u64
    } else {
        u64::MAX
    }
}

/// A trap from the kernel itself: the kernel cannot go on. Returns the line
/// for the console.
pub fn trap_from_kernel() -> (line: &'static str)
    ensures
        line@ == "Trap from kernel!"@,
{
    "Trap from kernel!"
}

} // verus!
