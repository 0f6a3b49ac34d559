//! Core of a toolchain that compiles a register-machine language onto twisty
//! puzzles: every register is a cycle of a puzzle's permutation group, adding to
//! a register applies its generator, and reading it decodes the puzzle state.
//!
//! Every function of this crate carries a contract that is machine-checked.

pub mod acyclicity;
pub mod all_topos;
pub mod architectures;
pub mod compiler;
pub mod cycle_notation;
pub mod decoding_laws;
pub mod decoding_table;
pub mod interpreter;
pub mod names;
pub mod numbers;
pub mod permutations;
pub mod presets;
pub mod signature_facelets;
pub mod span;
pub mod table_building;
