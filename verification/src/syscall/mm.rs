//! The system calls that map and unmap memory.

use vstd::prelude::*;
use crate::error::KernelError;
use crate::kernel::Kernel;
use crate::mm::addr::{Addr, VirtAddr, PAGE_SIZE, PAGE_SIZE_U64};
use crate::mm::aspace::{fresh_outcome, fresh_view, unmap_find, zeros};
use crate::mm::page_table::{depths, PTEFlags};
use crate::mm::vmo::contents;
use crate::task::manager::lemma_world_updated;

verus! {

/// The bit of a protection mask that asks for reading.
pub const PROT_READ: u64 = 1;

/// The bit of a protection mask that asks for writing.
pub const PROT_WRITE: u64 = 2;

/// The bit of a protection mask that asks for executing.
pub const PROT_EXEC: u64 = 4;

/// The page-table flags that a protection mask asks for.
pub open spec fn spec_prot_flags(prot: u64) -> u8 {
    (if prot & PROT_READ != 0 {
        PTEFlags::R
    } else {
        0u8
    }) | (if prot & PROT_WRITE != 0 {
        PTEFlags::W
    } else {
        0u8
    }) | (if prot & PROT_EXEC != 0 {
        PTEFlags::X
    } else {
        0u8
    })
}

/// The number of pages that hold `len` bytes.
pub open spec fn spec_len_pages(len: u64) -> int {
    (len + PAGE_SIZE - 1) / (PAGE_SIZE as int)
}

/// Whether a request to map memory is refused before anything is tried:
/// there is no running task, the protection mask is empty or has a bit that
/// means nothing, or the start is not the start of a page.
pub open spec fn mmap_refused(kernel: Kernel, start: u64, prot: u64) -> bool {
    kernel.tasks.current.is_none() || prot > 7 || prot == 0 || start % PAGE_SIZE_U64 != 0
}

/// The number of pages that hold `len` bytes.
fn len_pages(len: u64) -> (n: u64)
    ensures
        n == spec_len_pages(len),
{
    if len % PAGE_SIZE_U64 == 0 {
        len / PAGE_SIZE_U64
    } else {
        len / PAGE_SIZE_U64 + 1
    }
}

/// Whether the kernel `post` and the result `r` are what a request to map
/// `len` bytes at the address `start` with the protection `prot` makes of
/// the kernel `pre`: a refused request changes nothing; else the running
/// task has one mapping more, of zeroed pages of its own, and the result is
/// the number of bytes mapped, or nothing has changed for the user program
/// and the result is -1. It is -1 where the mapping of the fresh pages
/// does not end well: where the pages cannot be counted, reach out of the
/// address space or intersect a mapping, and where the frames that are
/// left are fewer than the pages and the tables that are missing on the
/// ways to their entries.
pub open spec fn mapped(pre: Kernel, post: Kernel, start: VirtAddr, len: u64, prot: u64, r: i64) -> bool {
    &&& post.machine.same_statics(pre.machine)
    &&& post.apps == pre.apps
    &&& post.tasks.ready_tasks == pre.tasks.ready_tasks
    &&& post.tasks.last == pre.tasks.last
    &&& post.tasks.current.is_some() == pre.tasks.current.is_some()
    &&& mmap_refused(pre, start.0, prot) ==> r == -1 && post == pre
    &&& !mmap_refused(pre, start.0, prot) ==> {
        let before = pre.tasks.current.unwrap();
        let after = post.tasks.current.unwrap();
        let views = before.aspace.views();
        let count = spec_len_pages(len);
        let flags = spec_prot_flags(prot) | PTEFlags::U;
        &&& after.pid == before.pid
        &&& after.status == before.status
        &&& after.priority == before.priority
        &&& after.sched_data == before.sched_data
        &&& after.exit_code == before.exit_code
        &&& after.trap_cx_words(post.machine.mem@) == before.trap_cx_words(
            pre.machine.mem@,
        )
        &&& r == -1 || r == count * PAGE_SIZE
        &&& r == -1 ==> after.aspace.views() == views
        &&& r != -1 ==> {
            let view = after.aspace.views().last();
            &&& after.aspace.views().drop_last() == views
            &&& view == fresh_view(flags, start.0 / PAGE_SIZE_U64, count as nat, view.pages)
            &&& contents(view.pages, post.machine.mem@) == zeros(count * PAGE_SIZE)
        }
        &&& (r == -1) <==> fresh_outcome(
            views,
            pre.machine.frames@.available(),
            depths(pre.machine.mem@, before.aspace.table().spec_root()),
            (start.0 / PAGE_SIZE_U64) as u64,
            count,
        ).is_some()
    }
}

/// Maps fresh zeroed memory for `len` bytes, rounded up to whole pages,
/// into the address space of the running task at the address `start`, with
/// the protection `prot`. Returns the number of bytes mapped, or -1 when
/// the request is refused, the pages intersect a mapping that exists or
/// reach out of the address space, or the frames do not suffice.
pub fn sys_mmap(kernel: &mut Kernel, start: VirtAddr, len: u64, prot: u64) -> (r: i64)
    requires
        old(kernel).wf(),
    ensures
        final(kernel).wf(),
        mapped(*old(kernel), *final(kernel), start, len, prot, r),
{
    if kernel.tasks.current.is_none() || prot > 7 || prot == 0 || !start.aligned() {
        return -1;
    }
    let pages: u64 = len_pages(len);
    if pages > usize::MAX as u64 / PAGE_SIZE_U64 {
        return -1;
    }
    let r: u8 = if prot & PROT_READ != 0 {
        PTEFlags::R
    } else {
        0u8
    };
    let w: u8 = if prot & PROT_WRITE != 0 {
        PTEFlags::W
    } else {
        0u8
    };
    let x: u8 = if prot & PROT_EXEC != 0 {
        PTEFlags::X
    } else {
        0u8
    };
    let flags = PTEFlags::from_bits_truncate(r | w | x);
    let ghost tasks0 = kernel.tasks.all_tasks();
    let ghost mc0 = kernel.machine;
    let ghost n = kernel.tasks.ready_tasks@.len() as int;
    let mut task = kernel.tasks.current.take().unwrap();
    proof {
        assert(tasks0[n] == task);
    }
    let mapped = task.map_user(&mut kernel.machine, start.floor_page_num(), pages as usize, flags);
    let ghost views1 = task.aspace.views();
    kernel.tasks.current = Some(task);
    proof {
        assert(kernel.tasks.all_tasks() =~= tasks0.update(n, task));
        lemma_world_updated(tasks0, n, task, mc0, kernel.machine);
        if mapped.is_ok() {
            assert(views1.last().wf(kernel.machine.mem@, kernel.machine.frames@));
        }
    }
    match mapped {
        Ok(()) => (pages * PAGE_SIZE_U64) as i64,
        Err(_) => -1,
    }
}

/// Whether a request to unmap memory is refused before anything is tried:
/// there is no running task, or the start is not the start of a page.
pub open spec fn munmap_refused(kernel: Kernel, start: u64) -> bool {
    kernel.tasks.current.is_none() || start % PAGE_SIZE_U64 != 0
}

/// Whether the kernel `post` and the result `r` are what a request to unmap
/// `len` bytes at the address `start` makes of the kernel `pre`: a refused
/// request changes nothing; else the mapping of the user program that
/// covers just those pages is gone and the result is the number of bytes
/// unmapped, or there is none and the result is -1.
pub open spec fn unmapped(pre: Kernel, post: Kernel, start: VirtAddr, len: u64, r: i64) -> bool {
    &&& post.machine.same_statics(pre.machine)
    &&& post.apps == pre.apps
    &&& post.tasks.ready_tasks == pre.tasks.ready_tasks
    &&& post.tasks.last == pre.tasks.last
    &&& post.tasks.current.is_some() == pre.tasks.current.is_some()
    &&& munmap_refused(pre, start.0) ==> r == -1 && post == pre
    &&& !munmap_refused(pre, start.0) ==> {
        let before = pre.tasks.current.unwrap();
        let after = post.tasks.current.unwrap();
        let views = before.aspace.views();
        let count = spec_len_pages(len);
        &&& after.pid == before.pid
        &&& after.status == before.status
        &&& after.priority == before.priority
        &&& after.sched_data == before.sched_data
        &&& after.exit_code == before.exit_code
        &&& after.trap_cx_words(post.machine.mem@) == before.trap_cx_words(
            pre.machine.mem@,
        )
        &&& match unmap_find(views, start.0 / PAGE_SIZE_U64, count as nat, true, 0) {
            Some(k) => r == count * PAGE_SIZE && after.aspace.views() == views.remove(k),
            None => r == -1 && after.aspace.views() == views,
        }
    }
}

/// Takes away the mapping of the running task that starts at the address
/// `start` and covers `len` bytes, rounded up to whole pages. Returns the
/// number of bytes unmapped, or -1 when the request is refused or the user
/// program has no such mapping.
pub fn sys_munmap(kernel: &mut Kernel, start: VirtAddr, len: u64) -> (r: i64)
    requires
        old(kernel).wf(),
    ensures
        final(kernel).wf(),
        unmapped(*old(kernel), *final(kernel), start, len, r),
{
    if kernel.tasks.current.is_none() || !start.aligned() {
        return -1;
    }
    let pages: u64 = len_pages(len);
    let ghost tasks0 = kernel.tasks.all_tasks();
    let ghost mc0 = kernel.machine;
    let ghost n = kernel.tasks.ready_tasks@.len() as int;
    let mut task = kernel.tasks.current.take().unwrap();
    let ghost views0 = task.aspace.views();
    proof {
        assert(tasks0[n] == task);
        crate::task::lemma_unmap_find_user(
            views0,
            start.0 / PAGE_SIZE_U64,
            spec_len_pages(len) as nat,
            0,
        );
        if unmap_find(views0, start.0 / PAGE_SIZE_U64, spec_len_pages(len) as nat, true, 0).is_some() {
            let k = unmap_find(
                views0,
                start.0 / PAGE_SIZE_U64,
                spec_len_pages(len) as nat,
                true,
                0,
            ).unwrap();
            assert(views0[k].wf(mc0.mem@, mc0.frames@));
        }
    }
    let unmapped = if pages > usize::MAX as u64 {
        Err(KernelError::NotFound)
    } else {
        task.unmap_user(&mut kernel.machine, start.floor_page_num(), pages as usize)
    };
    kernel.tasks.current = Some(task);
    proof {
        assert(kernel.tasks.all_tasks() =~= tasks0.update(n, task));
        if pages <= usize::MAX {
            lemma_world_updated(tasks0, n, task, mc0, kernel.machine);
        } else {
            assert(kernel.tasks.all_tasks() =~= tasks0);
        }
    }
    match unmapped {
        Ok(()) => (pages * PAGE_SIZE_U64) as i64,
        Err(_) => -1,
    }
}

} // verus!
