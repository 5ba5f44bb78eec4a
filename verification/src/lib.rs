//! Interpreter for a textual transition-table description of a single-tape
//! Turing machine, together with the doubly-infinite tape it runs on.
//!
//! A program is a line-oriented text; each non-blank line is a record
//! `state,condition,action,next` describing one transition.  The parser
//! builds a validated transition table, and the execution engine drives the
//! tape through that table until a halting transition is reached.

pub mod machine;
pub mod tape;

pub use machine::Machine;
pub use machine::ParseTu4Error;
pub use machine::ParseUintError;
pub use machine::UndefinedTransition;
pub use tape::Tape;
