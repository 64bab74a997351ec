//! Markdown extensions: Obsidian and `CodeHike` constructs, configuration
//! presets, and the bookkeeping of incremental block rendering.

pub mod configuration;
pub mod mdast;
pub mod unist;
pub mod util;

pub mod code_hike_blocks;
pub mod construct;
pub mod tokenizer;
pub mod state;
pub mod message;
pub mod incremental;
