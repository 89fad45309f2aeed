use breakcore::error::KernelError;
use breakcore::kernel::{rust_main, Kernel, KernelConfig};
use breakcore::loader::{AppInfo, EM_RISCV, ET_EXEC, PF_R, PF_W, PF_X, PT_LOAD, USER_STACK_SIZE};
use breakcore::mm::addr::{PhysPageNum, VirtAddr, VirtPageNum};
use breakcore::mm::layout::KernelLayout;
use breakcore::mm::page_table::PTEFlags;
use breakcore::syscall::fs::sys_write;
use breakcore::syscall::misc::{sys_get_time, time_val, TimeVal};
use breakcore::syscall::mm::{sys_mmap, sys_munmap};
use breakcore::syscall::proc::{sys_exec, sys_exit, sys_fork, sys_set_priority, sys_yield};
use breakcore::syscall::syscall;
use breakcore::task::manager::SwitchAction;
use breakcore::task::pid::kernel_stack_addr;
use breakcore::task::TaskStatus;
use breakcore::trap::{classify, trap_from_kernel, trap_handler, FaultReport, TrapKind};

const FRAMES: u64 = 0x1f0;
const SSTATUS: u64 = 0x8000_0000_0000_0120;
const ECALL: u64 = 8;
const STORE_PAGE_FAULT: u64 = 15;
const TIMER: u64 = (1 << 63) | 5;
const SP: u64 = 0x7000_0000;

fn build_elf(entry: u64, segs: &[(u32, u64, Vec<u8>, u64)]) -> Vec<u8> {
    let mut out = vec![0x7f, b'E', b'L', b'F', 2, 1, 1, 0, 0, 0, 0, 0, 0, 0, 0, 0];
    out.extend_from_slice(&ET_EXEC.to_le_bytes());
    out.extend_from_slice(&EM_RISCV.to_le_bytes());
    out.extend_from_slice(&1u32.to_le_bytes());
    out.extend_from_slice(&entry.to_le_bytes());
    out.extend_from_slice(&64u64.to_le_bytes());
    out.extend_from_slice(&0u64.to_le_bytes());
    out.extend_from_slice(&0u32.to_le_bytes());
    out.extend_from_slice(&64u16.to_le_bytes());
    out.extend_from_slice(&56u16.to_le_bytes());
    out.extend_from_slice(&(segs.len() as u16).to_le_bytes());
    out.extend_from_slice(&[0u8; 6]);
    let mut offset = 64 + 56 * segs.len() as u64;
    for (flags, vaddr, data, memsz) in segs {
        out.extend_from_slice(&PT_LOAD.to_le_bytes());
        out.extend_from_slice(&flags.to_le_bytes());
        out.extend_from_slice(&offset.to_le_bytes());
        out.extend_from_slice(&vaddr.to_le_bytes());
        out.extend_from_slice(&vaddr.to_le_bytes());
        out.extend_from_slice(&(data.len() as u64).to_le_bytes());
        out.extend_from_slice(&memsz.to_le_bytes());
        out.extend_from_slice(&4096u64.to_le_bytes());
        offset += data.len() as u64;
    }
    for (_, _, data, _) in segs {
        out.extend_from_slice(data);
    }
    out
}

fn program(entry: u64, text: &[u8]) -> Vec<u8> {
    build_elf(
        entry,
        &[(PF_R | PF_X, 0x1_0000, text.to_vec(), text.len() as u64), (PF_R | PF_W, 0x2_0000, b"data".to_vec(), 0x2000)],
    )
}

fn config(apps: Vec<(&str, Vec<u8>)>) -> KernelConfig {
    KernelConfig {
        ram_base: 0x80000,
        ram_pages: 0x200,
        layout: KernelLayout {
            stext: 0x8000_0000,
            etext: 0x8000_4000,
            srodata: 0x8000_4000,
            erodata: 0x8000_6000,
            sdata: 0x8000_6000,
            edata: 0x8000_8000,
            sstack: 0x8000_8000,
            estack: 0x8000_a000,
            sbss: 0x8000_a000,
            ebss: 0x8000_c000,
            sframe: 0x8001_0000,
            eframe: 0x8020_0000,
        },
        strampoline: 0x8000_3000,
        etrampoline: 0x8000_4000,
        launch: 0x8000_0100,
        trap_handler: 0x8000_0200,
        apps: apps.into_iter().map(|(n, d)| AppInfo { name: n.as_bytes().to_vec(), data: d }).collect(),
    }
}

fn boot(apps: Vec<(&str, Vec<u8>)>) -> Kernel {
    rust_main(config(apps)).unwrap()
}

fn two_apps() -> Vec<(&'static str, Vec<u8>)> {
    vec![("first", program(0x1_0000, b"first program")), ("hello_world", program(0x1_0abc, b"hello"))]
}

fn running(apps: Vec<(&str, Vec<u8>)>) -> Kernel {
    let mut k = boot(apps);
    let action = k.launch(SSTATUS, SP).unwrap();
    assert!(matches!(action, SwitchAction::SwitchTo { .. }));
    k
}

fn allocated(k: &Kernel) -> usize {
    (0x80010..0x80010 + FRAMES).filter(|p| k.machine.frames.check_allocated(&k.machine.mem, PhysPageNum(*p))).count()
}

fn regs(k: &Kernel) -> [u64; 32] {
    k.tasks.current.as_ref().unwrap().load_trap_cx(&k.machine).x
}

fn ecall(k: &mut Kernel, id: u64, a0: u64, a1: u64, a2: u64) -> i64 {
    let task = k.tasks.current.as_ref().unwrap();
    let mut cx = task.load_trap_cx(&k.machine);
    cx.x[17] = id;
    cx.x[10] = a0;
    cx.x[11] = a1;
    cx.x[12] = a2;
    let pc = cx.sepc;
    let pid = task.pid();
    task.store_trap_cx(&mut k.machine, &cx);
    let out = trap_handler(k, ECALL, 0, 0, SP);
    assert_eq!(out.action, SwitchAction::Stay);
    assert!(out.timer.is_none());
    let task = k.tasks.current.as_ref().unwrap();
    assert_eq!(task.pid(), pid);
    let cx = task.load_trap_cx(&k.machine);
    if id != 221 || cx.x[10] != 0 {
        assert_eq!(cx.sepc, pc + 4);
    }
    cx.x[10] as i64
}

fn user_write(k: &mut Kernel, at: u64, data: &[u8]) -> usize {
    let task = k.tasks.current.as_ref().unwrap();
    task.write_user(&mut k.machine, VirtAddr(at), data)
}

fn user_read(k: &Kernel, at: u64, len: usize) -> Vec<u8> {
    let mut out = vec![0u8; len];
    let n = k.tasks.current.as_ref().unwrap().aspace().read(&k.machine.mem, VirtAddr(at), &mut out, true);
    out.truncate(n);
    out
}

#[test]
fn boot_builds_the_kernel_space_and_no_task() {
    let k = boot(two_apps());
    assert_eq!(k.machine.kernel_space.mapping_count(), 7);
    assert!(k.tasks.current.is_none());
    assert!(k.tasks.last.is_none());
    assert_eq!(k.tasks.ready_tasks.len(), 0);
    assert_eq!(k.apps.app_num(), 2);
    assert_eq!(k.machine.launch, 0x8000_0100);
    assert_eq!(k.machine.trap_handler, 0x8000_0200);
    assert!(!k.machine.pids.check_allocated(0));
}

#[test]
fn boot_fails_on_ram_that_cannot_be() {
    let mut c = config(vec![]);
    c.ram_base = 0x0fff_ffff_ffff;
    assert!(matches!(rust_main(c), Err(KernelError::OutOfRange)));
    let mut c = config(vec![]);
    c.layout.eframe = 0x9000_0000;
    assert!(matches!(rust_main(c), Err(KernelError::OutOfRange)));
    let mut c = config(vec![]);
    c.strampoline = 0x7000_0000;
    c.etrampoline = 0x7000_1000;
    assert!(matches!(rust_main(c), Err(KernelError::OutOfRange)));
}

#[test]
fn launch_makes_a_task_for_each_program_and_runs_the_first() {
    let mut k = boot(two_apps());
    let action = k.launch(SSTATUS, SP).unwrap();
    let first = k.tasks.current.as_ref().unwrap();
    assert_eq!(first.pid(), 0);
    assert_eq!(first.status, TaskStatus::Running);
    assert_eq!(first.priority, 2);
    assert_eq!(first.trap_cx_ptr(), 0x7ff_fffe << 12);
    let stack = kernel_stack_addr(1, 0).unwrap();
    assert_eq!(first.pid.kernel_stack_addr(), stack);
    assert_eq!(action, SwitchAction::SwitchTo { kernel_sp: stack + 0x10000 - 104 });
    assert_eq!(k.tasks.ready_tasks.len(), 1);
    assert_eq!(k.tasks.ready_tasks[0].pid(), 1);
    assert_eq!(k.tasks.ready_tasks[0].status, TaskStatus::Ready);
    assert_eq!(k.tasks.current_cx_ptr(), 0x7ff_fffe << 12);
    assert_eq!(k.tasks.current_task().unwrap().pid(), 0);

    let cx = first.load_trap_cx(&k.machine);
    assert_eq!(cx.sepc, 0x1_0000);
    assert_eq!(cx.x[2], 0x2_3000 + USER_STACK_SIZE as u64);
    assert_eq!(cx.sstatus, 0x8000_0000_0000_0020);
    assert_eq!(cx.trap_handler_address, 0x8000_0200);
    assert_eq!(cx.user_satp, first.aspace().token());
    assert_eq!(cx.kernel_satp, k.machine.kernel_space.token());
    assert_eq!(cx.user_cx_addr, 0x7ff_fffe << 12);
    assert_eq!(cx.kernel_sp, stack + 0x10000);
    let second = k.tasks.ready_tasks[0].load_trap_cx(&k.machine);
    assert_eq!(second.sepc, 0x1_0abc);
    assert_ne!(second.user_satp, cx.user_satp);
}

#[test]
fn the_kernel_stack_holds_the_launch_context() {
    let k = running(two_apps());
    let stack = kernel_stack_addr(1, 0).unwrap();
    let mut out = vec![0u8; 104];
    let n = k.machine.kernel_space.read(&k.machine.mem, VirtAddr(stack + 0x10000 - 104), &mut out, false);
    assert_eq!(n, 104);
    assert_eq!(&out[..8], &0x8000_0100u64.to_le_bytes());
    assert!(out[8..].iter().all(|b| *b == 0));
    let mut guard = vec![0u8; 1];
    assert_eq!(k.machine.kernel_space.read(&k.machine.mem, VirtAddr(stack + 0x10000), &mut guard, false), 0);
    assert_eq!(k.machine.kernel_space.read(&k.machine.mem, VirtAddr(stack - 1), &mut guard, false), 0);
}

#[test]
fn launch_without_programs_shuts_down() {
    let mut k = boot(vec![]);
    assert_eq!(k.launch(SSTATUS, SP), Ok(SwitchAction::Shutdown));
    assert!(k.tasks.current.is_none());
}

#[test]
fn launch_fails_on_a_program_that_cannot_be_loaded() {
    let mut k = boot(vec![("good", program(0x1_0000, b"ok")), ("bad", b"garbage".to_vec())]);
    let after_boot = allocated(&k);
    assert_eq!(k.launch(SSTATUS, SP), Err(KernelError::ElfMalformed));
    assert_eq!(k.tasks.ready_tasks.len(), 1);
    assert!(k.machine.pids.check_allocated(0));
    assert!(!k.machine.pids.check_allocated(1));
    assert!(allocated(&k) > after_boot);
}

#[test]
fn priority_test() {
    let mut k = running(two_apps());
    assert_eq!(ecall(&mut k, 140, 10, 0, 0), 10);
    assert_eq!(k.tasks.current.as_ref().unwrap().priority, 10);
    assert_eq!(ecall(&mut k, 140, isize::MAX as u64, 0, 0), isize::MAX as i64);
    assert_eq!(k.tasks.current.as_ref().unwrap().priority, isize::MAX as u64);
    assert_eq!(ecall(&mut k, 140, 0, 0, 0), -1);
    assert_eq!(ecall(&mut k, 140, 1, 0, 0), -1);
    assert_eq!(ecall(&mut k, 140, (-10i64) as u64, 0, 0), -1);
    assert_eq!(k.tasks.current.as_ref().unwrap().priority, isize::MAX as u64);
    assert_eq!(sys_set_priority(&mut k, 2), 2);
    assert_eq!(sys_set_priority(&mut k, i64::MIN), -1);
    assert_eq!(k.tasks.current.as_ref().unwrap().priority, 2);
}

#[test]
fn mmap0() {
    let mut k = running(two_apps());
    let start: u64 = 0x1000_0000;
    let len: usize = 0x1000;
    assert_eq!(ecall(&mut k, 222, start, len as u64, 3), 0x1000);
    let fill: Vec<u8> = (start..start + len as u64).map(|i| i as u8).collect();
    assert_eq!(user_write(&mut k, start, &fill), len);
    assert_eq!(user_read(&k, start, len), fill);
    assert_eq!(user_read(&k, start + len as u64, 1), Vec::<u8>::new());
}

#[test]
fn mmap1() {
    let mut k = running(two_apps());
    let start: u64 = 0x1000_0000;
    assert_eq!(ecall(&mut k, 222, start, 0x1000, 1), 0x1000);
    assert_eq!(user_read(&k, start, 4), vec![0u8; 4]);
    assert_eq!(user_write(&mut k, start, &[start as u8]), 0);
    let pid = k.tasks.current.as_ref().unwrap().pid();
    let out = trap_handler(&mut k, STORE_PAGE_FAULT, start, 0, SP);
    assert!(matches!(out.action, SwitchAction::SwitchTo { .. }));
    assert_eq!(
        out.fault,
        Some(FaultReport { kind: TrapKind::Fault, stval: start, exit_code: -1 })
    );
    let gone = k.tasks.last.as_ref().unwrap();
    assert_eq!(gone.pid(), pid);
    assert_eq!(gone.status, TaskStatus::Exited);
    assert_eq!(gone.exit_code, Some(-1));
    assert_eq!(k.tasks.current.as_ref().unwrap().pid(), 1);
    assert!(k.tasks.ready_tasks.is_empty());
}

#[test]
fn mmap2() {
    let mut k = running(two_apps());
    let start: u64 = 0x1000_0000;
    assert_eq!(ecall(&mut k, 222, start, 0x1000, 2), 0x1000);
    assert_eq!(user_read(&k, start, 1), Vec::<u8>::new());
    assert_eq!(user_write(&mut k, start, &[1]), 1);
}

#[test]
fn mmap3() {
    let mut k = running(two_apps());
    let start: u64 = 0x1000_0000;
    let len: u64 = 0x1000;
    assert_eq!(ecall(&mut k, 222, start, len, 3), len as i64);
    assert_eq!(ecall(&mut k, 222, start - len, len + 1, 3), -1);
    assert_eq!(ecall(&mut k, 222, start + len + 1, len, 3), -1);
    assert_eq!(ecall(&mut k, 222, start + len, len, 0), -1);
    assert_eq!(ecall(&mut k, 222, start + len, len, 0b1011), -1);
    assert_eq!(k.tasks.current.as_ref().unwrap().aspace().mapping_count(), 6);
}

#[test]
fn mmap_says_how_much_it_mapped() {
    let mut k = running(two_apps());
    assert_eq!(sys_mmap(&mut k, VirtAddr(0x1000_0000), 1, 7), 0x1000);
    assert_eq!(sys_mmap(&mut k, VirtAddr(0x2000_0000), 0x3001, 1), 0x4000);
    assert_eq!(sys_mmap(&mut k, VirtAddr(0x3000_0000), 0, 1), 0);
    let space = k.tasks.current.as_ref().unwrap().aspace();
    let m = space.mapping(5).unwrap();
    assert_eq!((m.base_vpn(), m.page_count()), (VirtPageNum(0x10000), 1));
    assert_eq!(m.flags().bits(), PTEFlags::R | PTEFlags::W | PTEFlags::X | PTEFlags::U);
    let m = space.mapping(6).unwrap();
    assert_eq!((m.base_vpn(), m.page_count(), m.flags().bits()), (VirtPageNum(0x20000), 4, PTEFlags::R | PTEFlags::U));
    assert_eq!(sys_mmap(&mut k, VirtAddr(0x7f_ffff_f000), 0x2000, 1), -1);
    assert_eq!(sys_mmap(&mut k, VirtAddr(0x4000_0000), 0x1000 * FRAMES, 1), -1);
    assert_eq!(sys_mmap(&mut k, VirtAddr(0x4000_0000), u64::MAX, 1), -1);
    assert_eq!(sys_mmap(&mut k, VirtAddr(0x1_0000), 0x1000, 1), -1);
}

#[test]
fn munmap0() {
    let mut k = running(two_apps());
    let start: u64 = 0x1000_0000;
    let len: u64 = 0x1000;
    assert_eq!(ecall(&mut k, 222, start, len, 3), len as i64);
    assert_eq!(ecall(&mut k, 222, start + len, len * 2, 3), (len * 2) as i64);
    assert_eq!(ecall(&mut k, 215, start, len, 0), len as i64);
    assert_eq!(ecall(&mut k, 222, start - len, len + 1, 3), (len * 2) as i64);
    let fill: Vec<u8> = ((start - len)..(start + len * 3)).map(|i| i as u8).collect();
    assert_eq!(user_write(&mut k, start - len, &fill), fill.len());
    assert_eq!(user_read(&k, start - len, fill.len()), fill);
}

#[test]
fn munmap1() {
    let mut k = running(two_apps());
    let start: u64 = 0x1000_0000;
    let len: u64 = 0x1000;
    assert_eq!(ecall(&mut k, 222, start, len, 3), len as i64);
    assert_eq!(ecall(&mut k, 215, start, len + 1, 0), -1);
    assert_eq!(ecall(&mut k, 215, start + 1, len - 1, 0), -1);
    assert_eq!(user_read(&k, start, 1), vec![0]);
}

#[test]
fn munmap_cannot_take_what_is_not_for_the_user() {
    let mut k = running(two_apps());
    let before = allocated(&k);
    assert_eq!(sys_munmap(&mut k, VirtAddr(0x7ff_fffe << 12), 0x1000), -1);
    assert_eq!(sys_munmap(&mut k, VirtAddr(0x7ff_ffff << 12), 0x1000), -1);
    assert_eq!(k.tasks.current.as_ref().unwrap().aspace().mapping_count(), 5);
    assert_eq!(sys_munmap(&mut k, VirtAddr(0x1_0000), 0x1000), 0x1000);
    assert_eq!(allocated(&k), before - 1);
    assert_eq!(user_read(&k, 0x1_0000, 1), Vec::<u8>::new());
}

#[test]
fn write_hands_the_bytes_of_the_user_to_the_console() {
    let mut k = running(two_apps());
    assert_eq!(user_write(&mut k, 0x2_0100, b"AAAAAAAAAA [1/5]\n"), 17);
    let (n, out) = sys_write(&k, 1, VirtAddr(0x2_0100), 17);
    assert_eq!(n, 17);
    assert_eq!(out, b"AAAAAAAAAA [1/5]\n".to_vec());
    assert_eq!(sys_write(&k, 2, VirtAddr(0x2_0100), 17), (-1, vec![]));
    assert_eq!(sys_write(&k, 1, VirtAddr(0x2_2000 - 3), 17), (3, vec![0, 0, 0]));
    assert_eq!(sys_write(&k, 1, VirtAddr(0x9_0000), 17), (0, vec![]));
    assert_eq!(sys_write(&k, 1, VirtAddr(0x7ff_fffe << 12), 8), (0, vec![]));
    assert_eq!(sys_write(&k, 1, VirtAddr(0x2_0100), 0), (0, vec![]));
    let out = syscall(&mut k, 64, 1, 0x2_0100, 5, 0, SP);
    assert_eq!(out.ret, Some(5));
    assert_eq!(out.output, b"AAAAA".to_vec());
    assert!(out.action.is_none());
}

#[test]
fn write_a() {
    let mut k = running(vec![("write_a", program(0x1_0000, b"a"))]);
    let mut console: Vec<u8> = Vec::new();
    for i in 1..=5 {
        let line = format!("{} [{}/5]\n", "A".repeat(10), i);
        assert_eq!(user_write(&mut k, 0x2_0100, line.as_bytes()), line.len());
        let task = k.tasks.current.as_ref().unwrap();
        let mut cx = task.load_trap_cx(&k.machine);
        cx.x[17] = 64;
        cx.x[10] = 1;
        cx.x[11] = 0x2_0100;
        cx.x[12] = line.len() as u64;
        task.store_trap_cx(&mut k.machine, &cx);
        let out = trap_handler(&mut k, ECALL, 0, 0, SP);
        assert_eq!(regs(&k)[10], line.len() as u64);
        console.extend_from_slice(&out.output);
        let (r, action) = sys_yield(&mut k, SP);
        assert_eq!(r, 0);
        assert_eq!(action, SwitchAction::Stay);
        assert_eq!(regs(&k)[10], 0);
    }
    let want: String = (1..=5).map(|i| format!("AAAAAAAAAA [{}/5]\n", i)).collect();
    assert_eq!(String::from_utf8(console).unwrap(), want);
}

#[test]
fn get_time_writes_seconds_and_microseconds() {
    let mut k = running(two_apps());
    assert_eq!(time_val(0), TimeVal { sec: 0, usec: 0 });
    assert_eq!(time_val(12_500 * 3999), TimeVal { sec: 3, usec: 999_000 });
    assert_eq!(sys_get_time(&mut k, VirtAddr(0x2_0800), 12_500 * 3999), 0);
    let bytes = user_read(&k, 0x2_0800, 16);
    assert_eq!(&bytes[..8], &3u64.to_le_bytes());
    assert_eq!(&bytes[8..], &999_000u64.to_le_bytes());
    assert_eq!(sys_get_time(&mut k, VirtAddr(0x1_0000), 0), -1);
    assert_eq!(sys_get_time(&mut k, VirtAddr(0x9_0000), 0), -1);
    assert_eq!(sys_get_time(&mut k, VirtAddr(0x2_2000 - 8), 12_500_000 * 7), -1);
    assert_eq!(user_read(&k, 0x2_2000 - 8, 8), 7u64.to_le_bytes().to_vec());
}

#[test]
fn sleep() {
    let mut k = running(vec![("sleep", program(0x1_0000, b"s"))]);
    let mut cycles: u64 = 555_000_000;
    let read_ms = |k: &mut Kernel, cycles: u64| -> u64 {
        let task = k.tasks.current.as_ref().unwrap();
        let mut cx = task.load_trap_cx(&k.machine);
        cx.x[17] = 169;
        cx.x[10] = 0x2_0800;
        task.store_trap_cx(&mut k.machine, &cx);
        let out = trap_handler(k, ECALL, 0, cycles, SP);
        assert_eq!(out.action, SwitchAction::Stay);
        assert_eq!(regs(k)[10], 0);
        let bytes = user_read(k, 0x2_0800, 16);
        let sec = u64::from_le_bytes(bytes[..8].try_into().unwrap());
        let usec = u64::from_le_bytes(bytes[8..].try_into().unwrap());
        (sec & 0xffff) * 1000 + usec / 1000
    };
    let start = read_ms(&mut k, cycles);
    let mut yields = 0;
    while read_ms(&mut k, cycles) < start + 3000 {
        assert_eq!(sys_yield(&mut k, SP), (0, SwitchAction::Stay));
        cycles += 125_000;
        yields += 1;
    }
    assert_eq!(yields, 300);
    assert_eq!(read_ms(&mut k, cycles), start + 3000);
}

#[test]
fn fork_test() {
    let mut k = running(vec![("fork_test", program(0x1_0000, b"f"))]);
    assert_eq!(user_write(&mut k, 0x2_0100, b"before"), 6);
    let task = k.tasks.current.as_ref().unwrap();
    let mut cx = task.load_trap_cx(&k.machine);
    for i in 1..32 {
        cx.x[i] = 0x100 + i as u64;
    }
    cx.sepc = 0x1_0010;
    task.store_trap_cx(&mut k.machine, &cx);
    let result = ecall(&mut k, 220, 0, 0, 0);
    assert_eq!(result, 1);

    let parent = k.tasks.current.as_ref().unwrap();
    let child = &k.tasks.ready_tasks[0];
    assert_eq!(child.pid(), 1);
    assert_eq!(child.status, TaskStatus::Ready);
    assert_ne!(child.aspace().token(), parent.aspace().token());
    let p = parent.load_trap_cx(&k.machine);
    let c = child.load_trap_cx(&k.machine);
    assert_eq!(p.x[10], 1);
    assert_eq!(c.x[10], 0);
    for i in (0..32).filter(|i| *i != 10) {
        assert_eq!(c.x[i], p.x[i]);
    }
    for i in (1..32).filter(|i| ![10, 11, 12, 17].contains(i)) {
        assert_eq!(p.x[i], 0x100 + i as u64);
    }
    assert_eq!(p.x[17], 220);
    assert_eq!(c.sepc, 0x1_0014);
    assert_eq!(p.sepc, 0x1_0014);
    assert_eq!(c.sstatus, p.sstatus);
    assert_eq!(c.user_satp, child.aspace().token());
    assert_eq!(c.kernel_sp, kernel_stack_addr(1, 1).unwrap() + 0x10000);
    assert_ne!(c.kernel_cx_addr, p.kernel_cx_addr);

    let mut seen = vec![0u8; 6];
    child.aspace().read(&k.machine.mem, VirtAddr(0x2_0100), &mut seen, true);
    assert_eq!(seen, b"before".to_vec());
    assert_eq!(user_write(&mut k, 0x2_0100, b"after!"), 6);
    let child = &k.tasks.ready_tasks[0];
    child.aspace().read(&k.machine.mem, VirtAddr(0x2_0100), &mut seen, true);
    assert_eq!(seen, b"before".to_vec());

    let mut lines: Vec<String> = Vec::new();
    lines.push(format!("Fork success into pid {}", result));
    assert!(matches!(sys_exit(&mut k, 0, SP), SwitchAction::SwitchTo { .. }));
    assert_eq!(k.tasks.current.as_ref().unwrap().pid(), 1);
    if regs(&k)[10] == 0 {
        lines.push("Fork success, this is child".to_string());
    }
    assert_eq!(sys_exit(&mut k, 0, SP), SwitchAction::Shutdown);
    assert_eq!(lines, vec!["Fork success into pid 1", "Fork success, this is child"]);
}

#[test]
fn fork_without_frames_fails_and_keeps_none() {
    let mut k = running(vec![("fork_test", program(0x1_0000, b"f"))]);
    let mut forks = 0;
    loop {
        let before = allocated(&k);
        let r = sys_fork(&mut k);
        if r == -1 {
            assert_eq!(allocated(&k), before);
            break;
        }
        forks += 1;
        assert_eq!(r, forks);
        assert!(allocated(&k) > before);
    }
    assert!(forks >= 3);
    assert_eq!(k.tasks.ready_tasks.len() as i64, forks);
    assert!(!k.machine.pids.check_allocated(forks as usize + 1));
}

#[test]
fn exec_test() {
    let mut k = running(vec![("exec_test", program(0x1_0000, b"e")), ("hello_world", program(0x1_0abc, b"hello world!"))]);
    assert_eq!(user_write(&mut k, 0x2_0100, b"non_exist\0hello_world\0"), 22);
    let before = regs(&k);
    assert_eq!(ecall(&mut k, 221, 0x2_0100, 0, 0), -1);
    assert_eq!(user_read(&k, 0x1_0000, 1), b"e".to_vec());
    assert_eq!(regs(&k)[2], before[2]);

    let pid = k.tasks.current.as_ref().unwrap().pid();
    let cx_ptr = k.tasks.current_cx_ptr();
    assert_eq!(ecall(&mut k, 221, 0x2_010a, 0, 0), 0);
    let task = k.tasks.current.as_ref().unwrap();
    assert_eq!(task.pid(), pid);
    assert_eq!(task.trap_cx_ptr(), cx_ptr);
    let cx = task.load_trap_cx(&k.machine);
    assert_eq!(cx.sepc, 0x1_0abc);
    assert_eq!(cx.x[2], 0x2_3000 + USER_STACK_SIZE as u64);
    assert_eq!(user_read(&k, 0x1_0000, 12), b"hello world!".to_vec());
    assert_eq!(user_read(&k, 0x2_0100, 4), vec![0u8; 4]);
    assert_eq!(task.aspace().mapping_count(), 5);
    assert_eq!(sys_exec(&mut k, VirtAddr(0x9_0000)), -1);
}

#[test]
fn yield_runs_the_task_with_the_smallest_stride() {
    let mut k = running(two_apps());
    assert_eq!(sys_set_priority(&mut k, 4), 4);
    let mut order = Vec::new();
    for _ in 0..9 {
        let (r, action) = sys_yield(&mut k, SP);
        assert_eq!(r, 0);
        let now = k.tasks.current.as_ref().unwrap();
        assert_eq!(now.status, TaskStatus::Running);
        assert!(k.tasks.ready_tasks.iter().all(|t| t.status == TaskStatus::Ready));
        match action {
            SwitchAction::Stay => assert_eq!(order.last(), Some(&now.pid())),
            SwitchAction::SwitchTo { kernel_sp } => assert_eq!(kernel_sp, now.kernel_sp),
            SwitchAction::Shutdown => unreachable!(),
        }
        order.push(now.pid());
    }
    assert_eq!(order.iter().filter(|p| **p == 0).count(), 6);
    assert_eq!(order.iter().filter(|p| **p == 1).count(), 3);
    assert_eq!(k.tasks.ready_tasks.len(), 1);
}

#[test]
fn the_outgoing_task_keeps_the_stack_pointer_it_left_with() {
    let mut k = running(two_apps());
    let (_, action) = sys_yield(&mut k, 0x1234_5678);
    assert!(matches!(action, SwitchAction::SwitchTo { .. }));
    assert_eq!(k.tasks.ready_tasks[0].pid(), 0);
    assert_eq!(k.tasks.ready_tasks[0].kernel_sp, 0x1234_5678);
    let (_, action) = sys_yield(&mut k, 0x9999);
    assert_eq!(action, SwitchAction::SwitchTo { kernel_sp: 0x1234_5678 });
}

#[test]
fn timer_sets_the_next_deadline_and_switches() {
    let mut k = running(two_apps());
    let out = trap_handler(&mut k, TIMER, 0, 1000, SP);
    assert_eq!(out.timer, Some(126_000));
    assert!(matches!(out.action, SwitchAction::SwitchTo { .. }));
    assert_eq!(k.tasks.current.as_ref().unwrap().pid(), 1);
    assert_eq!(k.tasks.ready_tasks[0].sched_data.stride, u64::MAX / 2);
    assert!(out.output.is_empty());
}

#[test]
fn exit_gives_everything_back_at_the_next_switch() {
    let mut k = boot(two_apps());
    let after_boot = allocated(&k);
    k.launch(SSTATUS, SP).unwrap();
    assert_eq!(sys_mmap(&mut k, VirtAddr(0x1000_0000), 0x5000, 3), 0x5000);
    let with_tasks = allocated(&k);
    assert!(with_tasks > after_boot + 2 * 40);
    let action = sys_exit(&mut k, 0, SP);
    assert!(matches!(action, SwitchAction::SwitchTo { .. }));
    assert_eq!(allocated(&k), with_tasks);
    assert!(k.machine.pids.check_allocated(0));
    k.tasks.reap(&mut k.machine);
    assert!(k.tasks.last.is_none());
    assert!(!k.machine.pids.check_allocated(0));
    assert!(allocated(&k) < with_tasks);
    assert_eq!(sys_exit(&mut k, 3, SP), SwitchAction::Shutdown);
    assert!(k.tasks.current.is_none());
    k.tasks.reap(&mut k.machine);
    assert!(!k.machine.pids.check_allocated(1));
    assert_eq!(k.machine.kernel_space.mapping_count(), 7);
    let left = allocated(&k);
    assert!(left >= after_boot && left <= after_boot + 4);
}

#[test]
fn a_freed_identifier_is_used_again() {
    let mut k = running(two_apps());
    sys_exit(&mut k, 0, SP);
    assert_eq!(k.tasks.current.as_ref().unwrap().pid(), 1);
    assert_eq!(sys_fork(&mut k), 2);
    sys_yield(&mut k, SP);
    assert_eq!(sys_fork(&mut k), 0);
}

#[test]
fn an_unknown_system_call_comes_back_with_minus_one() {
    let mut k = running(two_apps());
    let frames = allocated(&k);
    for id in [0u64, 1, 63, 65, 92, 94, 123, 141, 216, 223, 9999, u64::MAX] {
        let before = regs(&k);
        assert_eq!(ecall(&mut k, id, 7, 8, 9), -1);
        let after = regs(&k);
        for i in 0..32 {
            if i != 10 && i != 11 && i != 12 && i != 17 {
                assert_eq!(after[i], before[i]);
            }
        }
        let task = k.tasks.current.as_ref().unwrap();
        assert_eq!(task.pid(), 0);
        assert_eq!(task.status, TaskStatus::Running);
        assert_eq!(task.exit_code, None);
        assert!(k.tasks.last.is_none());
        assert_eq!(k.tasks.ready_tasks.len(), 1);
        assert_eq!(allocated(&k), frames);
    }
    let out = syscall(&mut k, 9999, 1, 2, 3, 0, SP);
    assert_eq!(out.ret, Some(-1));
    assert!(out.action.is_none());
    assert!(out.output.is_empty());
}

#[test]
fn exit_keeps_the_code_of_the_task() {
    let mut k = running(two_apps());
    let out = syscall(&mut k, 93, 3, 0, 0, 0, SP);
    assert!(out.ret.is_none());
    assert!(matches!(out.action, Some(SwitchAction::SwitchTo { .. })));
    assert_eq!(k.tasks.last.as_ref().unwrap().exit_code, Some(3));
    assert_eq!(k.tasks.last.as_ref().unwrap().status, TaskStatus::Exited);
    let out = syscall(&mut k, 93, 0xffff_ffff_ffff_fffe, 0, 0, 0, SP);
    assert_eq!(out.action, Some(SwitchAction::Shutdown));
    assert_eq!(k.tasks.last.as_ref().unwrap().exit_code, Some(-2));
    let mut k = running(two_apps());
    syscall(&mut k, 93, 0x1_8000_0000, 0, 0, 0, SP);
    assert_eq!(k.tasks.last.as_ref().unwrap().exit_code, Some(i32::MIN));
}

#[test]
fn faults_and_unknown_instructions_end_the_task() {
    for cause in [1u64, 2, 5, 7, 12, 13, 15] {
        let mut k = running(two_apps());
        let out = trap_handler(&mut k, cause, 0xdead, 0, SP);
        assert!(matches!(out.action, SwitchAction::SwitchTo { .. }));
        assert!(out.timer.is_none());
        assert!(out.output.is_empty());
        let kind = if cause == 2 { TrapKind::IllegalInstruction } else { TrapKind::Fault };
        assert_eq!(out.fault, Some(FaultReport { kind, stval: 0xdead, exit_code: -1 }));
        assert_eq!(k.tasks.last.as_ref().unwrap().pid(), 0);
        assert_eq!(k.tasks.last.as_ref().unwrap().exit_code, Some(-1));
        assert_eq!(k.tasks.current.as_ref().unwrap().pid(), 1);
        assert_eq!(k.tasks.current.as_ref().unwrap().status, TaskStatus::Running);
        let out = trap_handler(&mut k, cause, 0xdead, 0, SP);
        assert_eq!(out.action, SwitchAction::Shutdown);
    }
}

#[test]
fn traps_are_told_apart_as_the_processor_numbers_them() {
    use_riscv_numbers();
    assert_eq!(classify(8), TrapKind::Syscall);
    for code in [1u64, 5, 7, 12, 13, 15] {
        assert_eq!(classify(code), TrapKind::Fault);
    }
    assert_eq!(classify(2), TrapKind::IllegalInstruction);
    assert_eq!(classify((1 << 63) | 5), TrapKind::Timer);
    for code in [0u64, 3, 4, 6, 9, 10, 11, 14, 16, 1 << 62] {
        assert_eq!(classify(code), TrapKind::Unsupported);
    }
    for code in [0u64, 1, 8, 9, 15] {
        assert_eq!(classify((1 << 63) | code), TrapKind::Unsupported);
    }
    assert_eq!(trap_from_kernel(), "Trap from kernel!");
}

fn use_riscv_numbers() {
    assert_eq!(riscv::interrupt::supervisor::Exception::UserEnvCall as u64, 8);
    assert_eq!(riscv::interrupt::supervisor::Exception::InstructionFault as u64, 1);
    assert_eq!(riscv::interrupt::supervisor::Exception::IllegalInstruction as u64, 2);
    assert_eq!(riscv::interrupt::supervisor::Exception::LoadFault as u64, 5);
    assert_eq!(riscv::interrupt::supervisor::Exception::StoreFault as u64, 7);
    assert_eq!(riscv::interrupt::supervisor::Exception::InstructionPageFault as u64, 12);
    assert_eq!(riscv::interrupt::supervisor::Exception::LoadPageFault as u64, 13);
    assert_eq!(riscv::interrupt::supervisor::Exception::StorePageFault as u64, 15);
    assert_eq!(riscv::interrupt::supervisor::Interrupt::SupervisorTimer as u64, 5);
}

#[test]
fn exec_of_a_missing_program_changes_nothing() {
    let mut k = running(two_apps());
    assert_eq!(sys_mmap(&mut k, VirtAddr(0x1000_0000), 0x1000, 3), 0x1000);
    assert_eq!(user_write(&mut k, 0x1000_0000, b"non_exist\0"), 10);
    let frames = allocated(&k);
    let before = regs(&k);
    let mappings = k.tasks.current.as_ref().unwrap().aspace().mapping_count();
    assert_eq!(sys_exec(&mut k, VirtAddr(0x1000_0000)), -1);
    assert_eq!(allocated(&k), frames);
    assert_eq!(regs(&k), before);
    assert_eq!(k.tasks.current.as_ref().unwrap().aspace().mapping_count(), mappings);
    assert_eq!(user_read(&k, 0x1000_0000, 10), b"non_exist\0".to_vec());
}
