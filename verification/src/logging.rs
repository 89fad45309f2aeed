//! The colours of the lines of the kernel log.

use vstd::prelude::*;

verus! {

/// How grave a line of the log is.
#[derive(Copy, Clone, Debug, PartialEq, Eq, Structural)]
pub enum Level {
    Error,
    Warn,
    Info,
    Debug,
    Trace,
}

/// The number of the terminal colour in which a line of level `level` is
/// shown: red for errors, bright yellow for warnings, blue for
/// information, green for debugging, and bright black for traces.
pub fn color_id(level: Level) -> (id: u64)
    ensures
        id == (match level {
            Level::Error => 31u64,
            Level::Warn => 93u64,
            Level::Info => 34u64,
            Level::Debug => 32u64,
            Level::Trace => 90u64,
        }),
{
    match level {
        Level::Error => 31,
        Level::Warn => 93,
        Level::Info => 34,
        Level::Debug => 32,
        Level::Trace => 90,
    }
}

} // verus!
