//! The program that a comprehension compiles to, and its interpreter.
pub mod bounds;
pub mod condition;
pub mod condition_laws;
pub mod dispense;
pub mod op;
pub mod program;
pub mod interpreter;
pub mod comparison_laws;
pub mod compile;
pub mod tuple_laws;
pub mod shape_laws;
