//! The instruction set and the failures that compiling or running can report.

use vstd::prelude::*;

verus! {

/// One instruction of a compiled program.
///
/// A loop bracket carries the position of its partner in the operation
/// sequence. The link is `None` only while a program is being compiled and
/// the closing bracket has not been seen yet.
#[derive(Debug, PartialEq, Eq, Clone, Copy, Structural)]
pub enum BrainfuckOperation {
    MovePointerRight,
    MovePointerLeft,
    IncrementData,
    DecrementData,
    LoopStart(Option<usize>),
    LoopEnd(Option<usize>),
    Print,
    Read,
}

/// Why compiling or running a program stopped.
#[derive(Debug, PartialEq, Eq, Clone, Copy, Structural)]
pub enum BrainfuckError {
    /// A `]` without an open `[`, or a `[` that is never closed.
    MismatchedBracket,
    /// The data pointer would have left the tape.
    TapeBoundsError,
    /// A `,` was executed when no input was left.
    EndOfInput,
}

} // verus!
