//! Incremental document parsing: source edits, block identity, checkpoints,
//! and block-level HTML patches.

pub mod edit;
pub mod events;
pub mod fingerprint;
pub mod blocks;
pub mod definitions;
pub mod html;
pub mod align;
pub mod patches;
pub mod tree;
pub mod reparse;
pub mod renderer;
pub mod ast_session;
pub mod placement;

use vstd::prelude::*;

verus! {

/// A half-open byte range in the current UTF-8 document.
#[derive(Clone, Copy, Debug, PartialEq, Eq, Structural)]
pub struct ByteRange {
    /// First included byte.
    pub start: usize,
    /// First excluded byte.
    pub end: usize,
}

/// One replacement against the document at `EditBatch::base_version`.
#[derive(Clone, Debug, PartialEq, Eq)]
pub struct Edit {
    /// First byte replaced.
    pub start_byte: usize,
    /// First byte not replaced.
    pub old_end_byte: usize,
    /// UTF-8 replacement text.
    pub replacement: String,
}

/// Atomic edits. Ranges are measured against the same base document.
#[derive(Clone, Debug, PartialEq, Eq)]
pub struct EditBatch {
    /// Version to which the edits apply.
    pub base_version: u64,
    /// Sorted, nonoverlapping replacements.
    pub edits: Vec<Edit>,
}

/// Parser state recorded at a safe top-level block boundary.
#[derive(Clone, Copy, Debug, PartialEq, Eq, Structural)]
pub struct BlockCheckpoint {
    /// Source byte offset.
    pub byte_offset: usize,
    /// Index of the following block.
    pub block_index: usize,
    /// Hash of definitions visible before this point.
    pub reference_environment_hash: u64,
}

/// One block-level DOM/HTML operation.
#[derive(Clone, Debug, PartialEq, Eq)]
pub enum Patch {
    /// Replace an existing block.
    Replace {
        /// Stable block identity.
        id: String,
        /// Complete replacement HTML.
        html: String,
    },
    /// Insert a block after another block, or at the start when `after` is `None`.
    InsertAfter {
        /// Previous visible block.
        after: Option<String>,
        /// Stable block identity.
        id: String,
        /// Complete block HTML.
        html: String,
    },
    /// Remove an existing block.
    Remove {
        /// Stable block identity.
        id: String,
    },
}

/// Public snapshot of a rendered block.
#[derive(Clone, Debug, PartialEq, Eq)]
pub struct RenderedBlock {
    /// Stable identity, preserved when the block is reused.
    pub id: String,
    /// Source range.
    pub range: ByteRange,
    /// HTML for this block.
    pub html: String,
}

/// Borrowed snapshot of a rendered block.
#[derive(Clone, Debug, PartialEq, Eq)]
pub struct RenderedBlockRef<'a> {
    /// Stable identity.
    pub id: String,
    /// Source range.
    pub range: ByteRange,
    /// HTML for this block.
    pub html: &'a str,
}

/// Result of applying one edit batch.
#[derive(Clone, Debug, PartialEq, Eq)]
pub struct ApplyResult {
    /// New renderer version.
    pub version: u64,
    /// Ordered block operations.
    pub patches: Vec<Patch>,
    /// Region actually reparsed to establish structural convergence.
    pub reparsed: ByteRange,
}

/// Stage timings captured while opening a renderer, in the caller's clock
/// unit.
#[derive(Clone, Copy, Debug, Default, PartialEq, Eq, Structural)]
pub struct OpenMetrics {
    /// Parsing into blocks.
    pub parse_blocks: u64,
    /// Rendering every block.
    pub render_all: u64,
    /// Rendering the canonical document.
    pub canonical_html: u64,
    /// Comparing segmented and canonical output.
    pub segmented_comparison: u64,
    /// Building checkpoints.
    pub checkpoint_construction: u64,
    /// Assembling the final HTML.
    pub final_html_assembly: u64,
    /// Number of parser runs.
    pub parser_invocations: u64,
    /// Number of parser events.
    pub event_count: usize,
    /// Number of blocks.
    pub block_count: usize,
    /// Bytes of block metadata.
    pub block_metadata_bytes: usize,
}

/// Stage timings captured while applying an incremental edit.
#[derive(Clone, Copy, Debug, Default, PartialEq, Eq, Structural)]
pub struct ApplyStageMetrics {
    /// Parsing.
    pub parser: u64,
    /// Rendering HTML.
    pub html_generation: u64,
    /// Computing patches.
    pub patch_generation: u64,
    /// Updating checkpoints.
    pub checkpoint_update: u64,
    /// Assembling the final HTML.
    pub final_html_assembly: u64,
    /// Number of parser runs.
    pub parser_invocations: u64,
}

/// Result of applying edits to an incremental syntax tree.
#[derive(Clone, Debug, PartialEq, Eq)]
pub struct AstApplyResult {
    /// New parser version.
    pub version: u64,
    /// Stable identities of blocks whose syntax trees changed.
    pub changed: Vec<String>,
    /// Stable identities of blocks whose cached syntax trees were reused.
    pub reused: Vec<String>,
    /// Region actually reparsed to establish structural convergence.
    pub reparsed: ByteRange,
}

/// Compact parser result for consumers that validate reuse from a snapshot.
#[derive(Clone, Debug, PartialEq, Eq)]
pub struct AstApplySummary {
    /// New parser version.
    pub version: u64,
    /// Stable identities of blocks whose syntax trees changed.
    pub changed: Vec<String>,
    /// Number of cached syntax trees reused.
    pub reused_count: usize,
    /// Region actually reparsed to establish structural convergence.
    pub reparsed: ByteRange,
}

} // verus!
