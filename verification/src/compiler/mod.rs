//! The front end: the syntax of a program, its lexical blocks, and the
//! expansion of macros and constants down to primitive instructions.

pub mod syntax;
pub mod blocks;
pub mod patterns;
pub mod registers;
pub mod diagnostics;
pub mod expansion_info;
pub mod builtin_macros;
pub mod line_splitting;
pub mod macro_expansion;
pub mod optimization;
pub mod q_emitter;
