//! Constructs of the Obsidian extension.

pub mod obsidian_block_id;
pub mod obsidian_callout;
pub mod obsidian_comment;
pub mod obsidian_embed;
pub mod obsidian_highlight;
pub mod obsidian_target;
pub mod obsidian_wikilink;
