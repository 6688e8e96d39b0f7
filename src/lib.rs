//! Expansion of a search pattern into its visually confusable variants.
//!
//! A pattern is split into position units, each unit is widened with the
//! members of the equivalence classes it belongs to (homoglyphs, kana,
//! character width), and the result is assembled into an alternation regex
//! or into the full list of literal candidates.

pub mod cartesian;
pub mod config;
pub mod pattern;
pub mod resolve;
pub mod table;
pub mod text;
