//! A small stack-based bytecode virtual machine with closures and curried
//! calls.
//!
//! A program is a tree of prototypes. `Machine::boot` makes a machine and a
//! stack for the root, and `Machine::run` executes instructions until one
//! halts the machine or fails. What a step does is the spec function
//! `machine::step_spec`; `execution::run_spec` iterates it. Numbers are
//! doubles, held and added as bit patterns.

pub mod bytecode;
pub mod calling;
pub mod execution;
pub mod isolation;
pub mod machine;
pub mod number;
pub mod rounding;
pub mod stack;
pub mod value;
