//! Rewrites that keep what a comprehension dispenses.
pub mod r0b_flatten;
pub mod r3_commute;
pub mod rewrite_laws;
