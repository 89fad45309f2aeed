//! The memory and task planes of a small Sv39 supervisor kernel, as verified
//! logic over an explicit machine state.
//!
//! Physical memory, the frame allocator, page tables, memory objects and
//! address spaces live in [`mm`]; tasks, process identifiers and the
//! scheduler in [`task`]. Every function states what it returns and how it
//! changes the state it is handed.

pub mod codec;
pub mod error;
pub mod kernel;
pub mod loader;
pub mod logging;
pub mod machine;
pub mod mm;
pub mod sbi;
pub mod syscall;
pub mod task;
pub mod timer;
pub mod trap;
