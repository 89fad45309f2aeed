//! The system call that writes to the console.

use vstd::prelude::*;
use crate::kernel::Kernel;
use crate::mm::addr::VirtAddr;
use crate::mm::aspace::{access_flags, byte_at};
use crate::mm::page_table::PTEFlags;

verus! {

/// The file descriptor of the console.
pub const FD_STDOUT: u64 = 1;

/// Whether `ret` and `out` are what a request to write `len` bytes from the
/// virtual address `addr` to the file `fd` comes to: -1 and no bytes when
/// there is no running task, the file is not the console, or `len` bytes
/// cannot be counted; else the bytes that the user program can read from
/// `addr` on, up to `len` of them and up to the first that it cannot read,
/// and their number.
pub open spec fn write_result(
    kernel: Kernel,
    fd: u64,
    addr: u64,
    len: u64,
    ret: i64,
    out: Seq<u8>,
) -> bool {
    if kernel.tasks.current.is_none() || fd != FD_STDOUT || len > usize::MAX || len > i64::MAX {
        ret == -1 && out.len() == 0
    } else {
        let views = kernel.tasks.current.unwrap().aspace.views();
        let flags = access_flags(PTEFlags::R, true);
        &&& 0 <= ret <= len
        &&& out.len() == ret
        &&& forall|x: int|
            0 <= x < ret ==> byte_at(views, kernel.machine.mem@, addr + x, flags) == Some(
                #[trigger] out[x],
            )
        &&& ret < len ==> byte_at(views, kernel.machine.mem@, addr + ret, flags).is_none()
    }
}

/// Copies up to `len` bytes from the memory of the running task at the
/// virtual address `addr`, through the pages that the user program can
/// read, and hands them over for the console. Returns the number of bytes
/// copied and the bytes; or -1 and no bytes when there is no running task,
/// the file descriptor is not that of the console, or `len` bytes cannot be
/// counted.
pub fn sys_write(kernel: &Kernel, fd: u64, addr: VirtAddr, len: u64) -> (r: (i64, Vec<u8>))
    requires
        kernel.wf(),
    ensures
        write_result(*kernel, fd, addr.0, len, r.0, r.1@),
{
    if len > usize::MAX as u64 || len > i64::MAX as u64 {
        return (-1, Vec::new());
    }
    let task = match &kernel.tasks.current {
        Some(t) => t,
        None => {
            return (-1, Vec::new());
        },
    };
    if fd != FD_STDOUT {
        return (-1, Vec::new());
    }
    proof {
        let n = kernel.tasks.ready_tasks@.len() as int;
        assert(kernel.tasks.all_tasks()[n] == *task);
        task.aspace.lemma_shape(kernel.machine.mem@, kernel.machine.frames@);
    }
    let mut buffer: Vec<u8> = vec![0u8; len as usize];
    let real_len = task.aspace.read(&kernel.machine.mem, addr, &mut buffer, true);
    buffer.truncate(real_len);
    (real_len as i64, buffer)
}

} // verus!
