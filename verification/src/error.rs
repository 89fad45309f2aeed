//! The ways in which a kernel operation can fail.

use vstd::prelude::*;

verus! {

/// Why an operation on memory, on an address space or on a program image
/// did not succeed.
#[derive(Copy, Clone, Debug, PartialEq, Eq, Structural)]
pub enum KernelError {
    /// The frame allocator has no frame left.
    OutOfFrames,
    /// The virtual range intersects a mapping that exists.
    Overlap,
    /// The range reaches past the memory object or past the virtual address
    /// space.
    OutOfRange,
    /// An argument has a form that the operation does not take.
    InvalidArgument,
    /// No mapping matches the range.
    NotFound,
    /// The bytes are not an executable image of the expected kind.
    ElfMalformed,
    /// The image asks for something that the kernel does not provide.
    Unsupported,
}

/// The error that a result holds, if it holds one.
pub open spec fn failure<T>(r: Result<T, KernelError>) -> Option<KernelError> {
    match r {
        Ok(_) => None,
        Err(e) => Some(e),
    }
}

} // verus!
