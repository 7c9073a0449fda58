//! The comprehension algebra: sources, combinators, orderings, and the
//! program that dispenses a comprehension's tuples.
pub mod addressing_laws;
pub mod ast;
pub mod ast_legacy;
pub mod cardinality;
pub mod eval_source;
pub mod ir;
pub mod metadata;
pub mod optimize;
pub mod predicate;
pub mod runtime;
pub mod runtime_laws;
pub mod source;
pub mod spec;
pub mod strategies;
pub mod strategy;
pub mod surfaces;
pub mod tuple;
pub mod value_laws;
