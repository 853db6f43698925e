use vstd::prelude::*;

verus! {

/// Why a program could not be prepared or run.
#[derive(Clone, Copy, Debug, PartialEq, Eq, Structural)]
pub enum BfError {
    /// A `[` at this position has no matching `]`.
    UnmatchedLoopOpen(usize),
    /// A `]` at this position has no matching `[`.
    UnmatchedLoopClose(usize),
    /// `.` was executed on a cell whose value is outside `0..=127`.
    OutputValueOutOfRange(i32),
}

} // verus!
