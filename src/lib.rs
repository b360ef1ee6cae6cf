//! An optimizing interpreter for the eight-symbol tape language: a decoder from
//! source bytes to primitive instructions, a compiler that merges runs, collapses
//! loop idioms and resolves brackets, and an execution engine over a byte tape.

pub mod equivalence;
pub mod expansion;
pub mod idioms;
pub mod interpreter;
pub mod opt;
pub mod parser;
