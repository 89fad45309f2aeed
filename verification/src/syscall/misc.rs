//! The system call that tells the time.

use vstd::prelude::*;
use crate::codec::{encode_words, words_to_bytes};
use crate::kernel::Kernel;
use crate::mm::addr::VirtAddr;
use crate::mm::aspace::{access_flags, locate, put};
use crate::mm::page_table::PTEFlags;
use crate::task::manager::lemma_world_updated;
use crate::timer::{get_time_ms, CLOCK_FREQ, MSEC_PER_SEC, USEC_PER_MSEC};

verus! {

/// A point in time: whole seconds, and the microseconds of the second that
/// has begun.
#[derive(Copy, Clone, Debug, PartialEq, Eq, Structural)]
pub struct TimeVal {
    pub sec: u64,
    pub usec: u64,
}

/// Bytes that a point in time takes in the memory of a user program.
pub const TIME_VAL_SIZE: usize = 16;

/// The point in time at which the cycle counter reads `cycles`, to the
/// millisecond.
pub open spec fn spec_time_val(cycles: u64) -> TimeVal {
    let ms = cycles / (CLOCK_FREQ / MSEC_PER_SEC);
    TimeVal { sec: ms / MSEC_PER_SEC, usec: (USEC_PER_MSEC * (ms % MSEC_PER_SEC)) as u64 }
}

/// The point in time at which the cycle counter reads `cycles`.
pub fn time_val(cycles: u64) -> (t: TimeVal)
    ensures
        t == spec_time_val(cycles),
{
    let time_ms = get_time_ms(cycles);
    TimeVal { sec: time_ms / MSEC_PER_SEC, usec: USEC_PER_MSEC * (time_ms % MSEC_PER_SEC) }
}

/// Whether the kernel `post` and the result `r` are what a request to tell
/// the time at the virtual address `time_val_addr` makes of the kernel
/// `pre`, when the cycle counter reads `cycles`: the point in time is
/// written for the running task as far as the user program can write
/// there, and the result is 0 when all of it was written and else -1.
pub open spec fn time_told(pre: Kernel, post: Kernel, time_val_addr: VirtAddr, cycles: u64, r: i64) -> bool {
    &&& post.machine.same_statics(pre.machine)
    &&& post.apps == pre.apps
    &&& post.tasks == pre.tasks
    &&& pre.tasks.current.is_none() ==> r == -1 && post == pre
    &&& pre.tasks.current matches Some(task) ==> {
        let views = task.aspace.views();
        let flags = access_flags(PTEFlags::W, true);
        let t = spec_time_val(cycles);
        let bytes = words_to_bytes(seq![t.sec, t.usec]);
        &&& r == 0 || r == -1
        &&& r == 0 <==> forall|x: int|
            0 <= x < TIME_VAL_SIZE ==> (#[trigger] locate(
                views,
                time_val_addr.0 + x,
                flags,
            )).is_some()
        &&& exists|n: int|
            0 <= n <= TIME_VAL_SIZE && (r == 0 ==> n == TIME_VAL_SIZE) && post.machine.mem@ == #[trigger] put(
                pre.machine.mem@,
                views,
                time_val_addr.0 as int,
                flags,
                bytes.subrange(0, n),
            )
    }
}

/// Writes the point in time at which the cycle counter reads `cycles` into
/// the memory of the running task at the virtual address `time_val_addr`,
/// through the pages that the user program can write. Returns 0, or -1
/// when there is no running task or not all of it could be written; what
/// could be written is written then.
pub fn sys_get_time(kernel: &mut Kernel, time_val_addr: VirtAddr, cycles: u64) -> (r: i64)
    requires
        old(kernel).wf(),
    ensures
        final(kernel).wf(),
        time_told(*old(kernel), *final(kernel), time_val_addr, cycles, r),
{
    let ghost tasks0 = kernel.tasks.all_tasks();
    let ghost mc0 = kernel.machine;
    let ghost n = kernel.tasks.ready_tasks@.len() as int;
    let task = match &kernel.tasks.current {
        Some(t) => t,
        None => {
            return -1;
        },
    };
    proof {
        assert(tasks0[n] == *task);
    }
    let t = time_val(cycles);
    let mut words: Vec<u64> = Vec::new();
    words.push(t.sec);
    words.push(t.usec);
    proof {
        assert(words@ =~= seq![t.sec, t.usec]);
    }
    let buf = encode_words(&words);
    let wrote = task.write_user(&mut kernel.machine, time_val_addr, buf.as_slice());
    proof {
        assert(tasks0.update(n, *task) =~= tasks0);
        lemma_world_updated(tasks0, n, *task, mc0, kernel.machine);
    }
    if wrote == buf.len() {
        0
    } else {
        -1
    }
}

} // verus!
