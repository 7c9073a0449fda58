//! The language: syntax trees, the function registry and lowering.
pub mod assembly;
pub mod assembly_laws;
pub mod ast;
pub mod binding;
pub mod binding_laws;
pub mod catalog;
pub mod compile;
pub mod compiler;
pub mod const_constraints;
pub mod cursor;
pub mod cursor_laws;
pub mod cursor_policy_laws;
pub mod cursor_sugar;
pub mod debug;
pub mod diagnostics;
pub mod directive_laws;
pub mod distance_laws;
pub mod element_laws;
pub mod embedding;
pub mod events;
pub mod factory;
pub mod header_laws;
pub mod hole_reading_laws;
pub mod input_laws;
pub mod limit_laws;
pub mod measure_laws;
pub mod member_laws;
pub mod message_laws;
pub mod name_laws;
pub mod operation_laws;
pub mod pragmas;
pub mod program_laws;
pub mod reading_laws;
pub mod refs;
pub mod registry;
pub mod round_trip_laws;
pub mod rule_laws;
pub mod schema;
pub mod splice_laws;
pub mod stub;
pub mod template;
pub mod template_laws;
pub mod tile;
pub mod tile_hole_laws;
pub mod tile_kit;
pub mod tile_laws;
pub mod tile_lower;
pub mod tile_meaning_laws;
pub mod tile_ops;
pub mod tile_source;
pub mod tile_structural;
pub mod tile_typing_laws;
pub mod tile_whole_laws;
pub mod type_laws;
pub mod writing_laws;
