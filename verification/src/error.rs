//! The ways in which compiling a pattern or unpacking a sequence can fail.

use vstd::prelude::*;

verus! {

/// Why a pattern could not be compiled, or a sequence not unpacked.
///
/// Every failure is total: no pattern and no bindings exist beside an error.
#[derive(Clone, Copy, Debug, PartialEq, Eq, Structural)]
pub enum UnpackError {
    /// The slot list asks for more than one rest slot.
    MalformedPattern,
    /// A pattern without a rest slot met a sequence whose length is not its arity.
    ArityMismatch { expected: usize, actual: usize },
    /// A pattern with a rest slot met a sequence too short to fill its other slots.
    InsufficientElements { required: usize, actual: usize },
}

} // verus!
