//! Comprehensions read from text.
pub mod convert_laws;
pub mod grouping_laws;
pub mod legacy_convert;
pub mod parallel_laws;
pub mod parse;
pub mod serde_form;
pub mod source_laws;
pub mod source_parser;
pub mod text;
