//! Compiles a stenography dictionary into a compact binary form: a chord
//! codec, a suffix-sharing string pool, and the dictionary model that emits
//! the key, value and string sections.
pub mod ascending;
pub mod dict;
pub mod encoding;
pub mod json;
pub mod pool_laws;
pub mod pool_model;
pub mod round_trip;
pub mod section_laws;
pub mod section_model;
pub mod string_section_builder;
pub mod stroke;
pub mod stroke_order;
