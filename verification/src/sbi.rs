//! The calls into the firmware: which function the kernel asks for, with
//! which arguments. Making the call is up to the code that has the
//! processor.

use vstd::prelude::*;

verus! {

/// The number of the firmware function that sets the timer.
pub const SBI_SET_TIMER: u64 = 0;

/// The number of the firmware function that writes a character to the
/// console.
pub const SBI_CONSOLE_PUTCHAR: u64 = 1;

/// The number of the firmware function that reads a character from the
/// console.
pub const SBI_CONSOLE_GETCHAR: u64 = 2;

/// The number of the firmware function that shuts the machine down.
pub const SBI_SHUTDOWN: u64 = 8;

/// A call into the firmware: the number of the function in register a7 and
/// the arguments in registers a0 to a2.
#[derive(Copy, Clone, Debug, PartialEq, Eq, Structural)]
pub struct SbiCall {
    pub id: u64,
    pub arg0: u64,
    pub arg1: u64,
    pub arg2: u64,
}

/// The call with function number `id` and the arguments `arg0` to `arg2`.
pub fn sbi_call(id: u64, arg0: u64, arg1: u64, arg2: u64) -> (c: SbiCall)
    ensures
        c == (SbiCall { id, arg0, arg1, arg2 }),
{
    SbiCall { id, arg0, arg1, arg2 }
}

/// The call that writes the character `c` to the console.
pub fn console_putchar(c: u64) -> (call: SbiCall)
    ensures
        call == (SbiCall { id: SBI_CONSOLE_PUTCHAR, arg0: c, arg1: 0, arg2: 0 }),
{
    sbi_call(SBI_CONSOLE_PUTCHAR, c, 0, 0)
}

/// The call that reads a character from the console.
pub fn console_getchar() -> (call: SbiCall)
    ensures
        call == (SbiCall { id: SBI_CONSOLE_GETCHAR, arg0: 0, arg1: 0, arg2: 0 }),
{
    sbi_call(SBI_CONSOLE_GETCHAR, 0, 0, 0)
}

/// The call that shuts the machine down.
pub fn shutdown() -> (call: SbiCall)
    ensures
        call == (SbiCall { id: SBI_SHUTDOWN, arg0: 0, arg1: 0, arg2: 0 }),
{
    sbi_call(SBI_SHUTDOWN, 0, 0, 0)
}

/// The call that sets the timer to go off when the cycle counter reads
/// `timer`.
pub fn set_timer(timer: u64) -> (call: SbiCall)
    ensures
        call == (SbiCall { id: SBI_SET_TIMER, arg0: timer, arg1: 0, arg2: 0 }),
{
    sbi_call(SBI_SET_TIMER, timer, 0, 0)
}

} // verus!
