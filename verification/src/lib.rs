//! An interpreter core for a tape language of eight one-character operators.
//!
//! [`parse`] turns source text into a tree of [`Instruction`]s: runs of one
//! operator are folded into a single counted instruction, and bracketed
//! regions are nested as loops. [`BrainfuckContext::execute`] runs such a
//! tree on a circular tape of byte cells.
//!
//! The interpreter performs no input or output of its own. It runs until a
//! character has to be written or a line has to be read, says so with an
//! [`Action`], and is resumed with an [`Event`] that tells it what happened.
//! It also hands control back after a number of steps that its caller
//! chooses, so that a program that never ends can be run all the same.
//!
//! The modules [`source`], [`program`], [`grammar`] and [`unique`] say what
//! parsing means and show that a text has one parse at most. The modules
//! [`tape`], [`machine`] and [`session`] say what running means, one step at
//! a time, and [`meaning`] shows that this is what a program means when it is
//! read as a whole.
pub mod brainfuck;
pub mod grammar;
pub mod machine;
pub mod meaning;
pub mod parser;
pub mod program;
pub mod session;
pub mod source;
pub mod tape;
pub mod unique;

pub use brainfuck::{BrainfuckContext, Event, Execution, Instruction, RuntimeError};
pub use machine::Action;
pub use parser::{parse, ParseError};
pub use tape::CELL_AMOUNT;
