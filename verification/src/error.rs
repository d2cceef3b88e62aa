//! What can go wrong while marks are consolidated.

use vstd::prelude::*;

verus! {

/// Why a consolidation was given up.
#[derive(Clone, Copy, Debug, PartialEq, Eq, Structural)]
pub enum Error {
    /// The boundaries of a file do not pair up: a label closes more often
    /// than it opened, or is still open when the boundaries end.
    InvariantViolation,
    /// Stored bytes do not have the layout of what should be stored there.
    Malformed,
    /// A line has no such column for a range to start at.
    InvalidStartColumn,
    /// A line has no such column for a range to end at.
    InvalidEndColumn,
    /// An expression closes what was not opened, or combines no arguments,
    /// or negates more than one.
    InvalidExpression,
}

} // verus!
