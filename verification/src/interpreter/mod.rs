//! The execution of programs on puzzles, and the protocol to a robot that
//! holds a puzzle.

pub mod remote_robot;
pub mod puzzle_states;
pub mod controller;
pub mod machine;
