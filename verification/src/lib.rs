//! A Brainfuck interpreter.
//!
//! Source text is compiled into a sequence of operations whose loop brackets
//! are linked to each other by absolute position, and that sequence is then
//! executed over a fixed tape of 30,000 byte cells.
//!
//! The library does no input or output of its own. A program can be run in
//! memory, on a slice of input bytes and for a bounded number of steps, with
//! [`BrainfuckInterpreter::run`]; or it can be driven one operation at a
//! time with [`BrainfuckInterpreter::step`], in which case the caller writes
//! what is printed and fetches what is read.

pub mod brackets;
pub mod compiler;
pub mod console;
pub mod interpreter;
pub mod machine;
pub mod operation;

pub use compiler::compile;
pub use console::input_byte;
pub use interpreter::{Action, BrainfuckInterpreter, RunReport};
pub use machine::{RunStatus, TAPE_LENGTH};
pub use operation::{BrainfuckError, BrainfuckOperation};
