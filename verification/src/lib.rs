//! Iteration and lowering of polydat programs, verified.
pub mod chars;
pub mod comprehension;
pub mod document;
pub mod dsl;
pub mod float;
pub mod float_laws;
pub mod pcg;
pub mod text_laws;
pub mod value;
