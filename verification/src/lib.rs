//! Language-engine core for Enforce script: document snapshots and work
//! admission, the global symbol index and its build bookkeeping, syntax
//! tree queries, type-text analysis, expected construction types, comment
//! formatting, the plain-value parts of game-data search and inspection,
//! add-on sources and thumbnails, and command-line option parsing.
use vstd::prelude::*;

pub mod model;
pub mod text;
pub mod order;
pub mod index;
pub mod index_groups;
pub mod analysis_runtime;
pub mod index_build;
pub mod syntax;
pub mod ast;
pub mod declarators;
pub mod cli;
pub mod expression_type;
pub mod addon_thumbnail_color;
pub mod addon_sources;
pub mod game_data_search;
pub mod formatting;
pub mod construction;
pub mod game_data_inspection;
pub mod game_data_intent;

verus! {
} // verus!
