//! The registers of a user program as they are saved when it traps into
//! the kernel.

use vstd::prelude::*;

verus! {

/// Words that a trap context takes in memory.
pub const TRAP_CONTEXT_WORDS: usize = 40;

/// Bytes that a trap context takes in memory.
pub const TRAP_CONTEXT_SIZE: usize = 320;

/// The bit of the status register that tells which privilege level a trap
/// came from.
pub const SSTATUS_SPP: u64 = 0x100;

/// The state of the processor of a user program, and what the trampoline
/// needs to get into the kernel and back.
#[derive(Copy, Clone, Debug)]
pub struct TrapContext {
    /// The 32 general registers.
    pub x: [u64; 32],
    /// The status register.
    pub sstatus: u64,
    /// The address of the instruction to go on with.
    pub sepc: u64,
    /// The address of the trap handler.
    pub trap_handler_address: u64,
    /// The activation value of the user address space.
    pub user_satp: u64,
    /// The activation value of the kernel address space.
    pub kernel_satp: u64,
    /// The address of this context in the user address space.
    pub user_cx_addr: u64,
    /// The address of this context in the kernel address space.
    pub kernel_cx_addr: u64,
    /// The stack pointer that the kernel starts with on a trap.
    pub kernel_sp: u64,
}

/// The status register `sstatus` with the previous privilege level set to
/// user.
pub open spec fn spec_user_status(sstatus: u64) -> u64 {
    sstatus & !SSTATUS_SPP
}

/// The words of the context of a user program that is about to start.
pub open spec fn spec_new_words(
    pc: u64,
    sp: u64,
    sstatus: u64,
    trap_handler_address: u64,
    user_satp: u64,
    kernel_satp: u64,
    user_cx_addr: u64,
    kernel_cx_addr: u64,
    kernel_sp: u64,
) -> Seq<u64> {
    Seq::new(32, |i: int| 0u64).update(2, sp) + seq![
        spec_user_status(sstatus),
        pc,
        trap_handler_address,
        user_satp,
        kernel_satp,
        user_cx_addr,
        kernel_cx_addr,
        kernel_sp,
    ]
}

impl TrapContext {
    /// The words of the context in the order in which they lie in memory.
    pub open spec fn words(&self) -> Seq<u64> {
        self.x@ + seq![
            self.sstatus,
            self.sepc,
            self.trap_handler_address,
            self.user_satp,
            self.kernel_satp,
            self.user_cx_addr,
            self.kernel_cx_addr,
            self.kernel_sp,
        ]
    }

    /// Sets the stack pointer of the user program.
    pub fn set_sp(&mut self, sp: u64)
        ensures
            final(self).x@ == old(self).x@.update(2, sp),
            final(self).words() == old(self).words().update(2, sp),
            *final(self) == (TrapContext { x: final(self).x, ..*old(self) }),
    {
        self.x[2] = sp;
        proof {
            assert(self.words() =~= old(self).words().update(2, sp));
        }
    }

    /// Sets the address at which the user program goes on.
    pub fn set_pc(&mut self, pc: u64)
        ensures
            final(self).words() == old(self).words().update(33, pc),
            *final(self) == (TrapContext { sepc: pc, ..*old(self) }),
    {
        self.sepc = pc;
        proof {
            assert(self.words() =~= old(self).words().update(33, pc));
        }
    }

    /// The context of a user program that is about to start at `pc` with
    /// the stack pointer `sp`: every other register zero, and the status
    /// register, read as `sstatus`, set to return to user mode.
    pub fn new(
        pc: u64,
        sp: u64,
        sstatus: u64,
        trap_handler_address: u64,
        user_satp: u64,
        kernel_satp: u64,
        user_cx_addr: u64,
        kernel_cx_addr: u64,
        kernel_sp: u64,
    ) -> (cx: TrapContext)
        ensures
            cx.x@ == Seq::new(32, |i: int| 0u64).update(2, sp),
            cx.sstatus == spec_user_status(sstatus),
            cx.sepc == pc,
            cx.trap_handler_address == trap_handler_address,
            cx.user_satp == user_satp,
            cx.kernel_satp == kernel_satp,
            cx.user_cx_addr == user_cx_addr,
            cx.kernel_cx_addr == kernel_cx_addr,
            cx.kernel_sp == kernel_sp,
            cx.words() == spec_new_words(
                pc,
                sp,
                sstatus,
                trap_handler_address,
                user_satp,
                kernel_satp,
                user_cx_addr,
                kernel_cx_addr,
                kernel_sp,
            ),
    {
        let mut cx = TrapContext {
            x: [
                0,
                0,
                0,
                0,
                0,
                0,
                0,
                0,
                0,
                0,
                0,
                0,
                0,
                0,
                0,
                0,
                0,
                0,
                0,
                0,
                0,
                0,
                0,
                0,
                0,
                0,
                0,
                0,
                0,
                0,
                0,
                0,
            ],
            sstatus: sstatus & !SSTATUS_SPP,
            sepc: pc,
            trap_handler_address,
            user_satp,
            kernel_satp,
            user_cx_addr,
            kernel_cx_addr,
            kernel_sp,
        };
        proof {
            assert(cx.x@ =~= Seq::new(32, |i: int| 0u64));
        }
        cx.set_sp(sp);
        cx
    }

    /// The words of the context in the order in which they lie in memory.
    pub fn to_words(&self) -> (ws: Vec<u64>)
        ensures
            ws@ == self.words(),
            ws@.len() == TRAP_CONTEXT_WORDS,
    {
        let mut ws: Vec<u64> = Vec::new();
        let mut i: usize = 0;
        while i < 32
            invariant
                i <= 32,
                ws@ == self.x@.subrange(0, i as int),
            decreases 32 - i,
        {
            ws.push(self.x[i]);
            proof {
                assert(ws@ =~= self.x@.subrange(0, i + 1));
            }
            i += 1;
        }
        ws.push(self.sstatus);
        ws.push(self.sepc);
        ws.push(self.trap_handler_address);
        ws.push(self.user_satp);
        ws.push(self.kernel_satp);
        ws.push(self.user_cx_addr);
        ws.push(self.kernel_cx_addr);
        ws.push(self.kernel_sp);
        proof {
            assert(ws@ =~= self.words());
        }
        ws
    }

    /// The context whose words are `ws`.
    pub fn from_words(ws: &Vec<u64>) -> (cx: TrapContext)
        requires
            ws@.len() == TRAP_CONTEXT_WORDS,
        ensures
            cx.words() == ws@,
    {
        let mut x: [u64; 32] = [
            0,
            0,
            0,
            0,
            0,
            0,
            0,
            0,
            0,
            0,
            0,
            0,
            0,
            0,
            0,
            0,
            0,
            0,
            0,
            0,
            0,
            0,
            0,
            0,
            0,
            0,
            0,
            0,
            0,
            0,
            0,
            0,
        ];
        let mut i: usize = 0;
        while i < 32
            invariant
                i <= 32,
                ws@.len() == TRAP_CONTEXT_WORDS,
                forall|k: int| 0 <= k < i ==> x@[k] == ws@[k],
            decreases 32 - i,
        {
            x[i] = ws[i];
            i += 1;
        }
        let cx = TrapContext {
            x,
            sstatus: ws[32],
            sepc: ws[33],
            trap_handler_address: ws[34],
            user_satp: ws[35],
            kernel_satp: ws[36],
            user_cx_addr: ws[37],
            kernel_cx_addr: ws[38],
            kernel_sp: ws[39],
        };
        proof {
            assert(cx.words() =~= ws@);
        }
        cx
    }
}

} // verus!
