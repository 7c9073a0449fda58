//! What is known of a filter predicate and of the coordinates it names.
pub mod coordset;
pub mod info;
