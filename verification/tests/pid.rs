use breakcore::task::context::{TaskContext, TASK_CONTEXT_SIZE};
use breakcore::task::pid::{kernel_stack_addr, KernelStack, StackPidAllocator, KERNEL_STACK_SIZE};

#[test]
fn identifiers_count_up_from_zero() {
    let mut a = StackPidAllocator::default();
    assert_eq!(a.allocate(), Some(0));
    assert_eq!(a.allocate(), Some(1));
    assert_eq!(a.allocate(), Some(2));
    assert!(a.check_allocated(0));
    assert!(a.check_allocated(2));
    assert!(!a.check_allocated(3));
}

#[test]
fn a_recycled_identifier_is_the_next_identifier() {
    let mut a = StackPidAllocator::default();
    for _ in 0..4 {
        a.allocate();
    }
    a.dealloc(1);
    a.dealloc(3);
    assert!(!a.check_allocated(1));
    assert!(!a.check_allocated(3));
    assert!(a.check_allocated(2));
    assert_eq!(a.allocate(), Some(3));
    assert_eq!(a.allocate(), Some(1));
    assert_eq!(a.allocate(), Some(4));
}

#[test]
fn kernel_stacks_lie_below_the_trampoline_with_a_gap() {
    let top: u64 = 0x7ff_ffff << 12;
    assert_eq!(kernel_stack_addr(1, 0), Some(top - 0x11000));
    assert_eq!(kernel_stack_addr(1, 1), Some(top - 2 * 0x11000));
    assert_eq!(kernel_stack_addr(1, 9), Some(top - 10 * 0x11000));
    assert_eq!(kernel_stack_addr(2, 0), Some((0x7ff_fffe << 12) - 0x11000));
    let a = kernel_stack_addr(1, 0).unwrap();
    let b = kernel_stack_addr(1, 1).unwrap();
    assert_eq!(a - (b + KERNEL_STACK_SIZE as u64), 4096);
}

#[test]
fn kernel_stack_below_the_address_space_is_refused() {
    let slots = (0x7ff_ffffu64 << 12) / 0x11000;
    assert!(kernel_stack_addr(1, slots as usize - 1).is_some());
    assert_eq!(kernel_stack_addr(1, slots as usize), None);
    assert_eq!(kernel_stack_addr(1, usize::MAX), None);
    assert_eq!(kernel_stack_addr(0x800_0001, 0), None);
}

#[test]
fn stack_pointers_of_a_kernel_stack() {
    let s = KernelStack { base: 0x1000_0000 };
    assert_eq!(s.get_bottom_sp(), 0x1000_0000 + 0x10000);
    assert_eq!(s.get_init_sp(), 0x1000_0000 + 0x10000 - 104);
    assert_eq!(TASK_CONTEXT_SIZE, 13 * 8);
}

#[test]
fn goto_launch_returns_into_the_launch_code() {
    let cx = TaskContext::goto_launch(0x8020_1234);
    assert_eq!(cx.ra, 0x8020_1234);
    assert_eq!(cx.s, [0u64; 12]);
}
