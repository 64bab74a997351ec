//! Top-level blocks of a rendered document and the parser checkpoints
//! recorded between them.

use vstd::prelude::*;
use crate::incremental::BlockCheckpoint;
use crate::incremental::fingerprint::{FNV_OFFSET, fingerprint, hash_bytes, hash_u64_le, le_bytes, spec_fingerprint, spec_hash};
use crate::configuration::ParseOptions;
use vstd::string::StringSliceAdditionalSpecFns;
use vstd::utf8::encode_utf8;

verus! {

/// Syntax class of a top-level block, compared when aligning old and new
/// blocks.
#[derive(Clone, Copy, Debug, PartialEq, Eq, Structural)]
pub struct BlockKind(pub u8);

/// Class of an MDX ESM block.
pub const MDX_ESM: u8 = 5;
/// Class of a TOML frontmatter block.
pub const TOML: u8 = 6;
/// Class of a YAML frontmatter block.
pub const YAML: u8 = 7;
/// Class of a block that stands for the whole document.
pub const DOCUMENT: u8 = 255;

/// One top-level block: where it lies, who it is, what it rendered to, and
/// which definitions it provides and uses.
#[derive(Debug)]
pub struct Block {
    /// First source byte.
    pub start: usize,
    /// First source byte after the block.
    pub end: usize,
    /// Stable identity (see `block_id_text`).
    pub id: u64,
    /// Content fingerprint.
    pub fingerprint: u64,
    /// Syntax class.
    pub kind: BlockKind,
    /// Rendered HTML; empty for blocks that render nothing.
    pub html: String,
    /// Definitions provided: normalized identifier and value fingerprint.
    pub definitions: Vec<(String, u64)>,
    /// Normalized identifiers referenced.
    pub references: Vec<String>,
    /// Whether a footnote definition or call occurs in the block.
    pub footnote: bool,
}

/// The definitions of a block as identifiers and values.
pub open spec fn defs_view(defs: Seq<(String, u64)>) -> Seq<(Seq<char>, u64)> {
    Seq::new(defs.len(), |i: int| (defs[i].0@, defs[i].1))
}

/// The reference environment hash after definitions `defs`, from `env`.
pub open spec fn env_after_defs(env: u64, defs: Seq<(Seq<char>, u64)>) -> u64
    decreases defs.len(),
{
    if defs.len() == 0 {
        env
    } else {
        let e = env_after_defs(env, defs.drop_last());
        spec_hash(spec_hash(e, encode_utf8(defs.last().0)), le_bytes(defs.last().1))
    }
}

/// The reference environment hash after blocks `from..to`, from `env`.
pub open spec fn env_through(env: u64, blocks: Seq<Block>, from: int, to: int) -> u64
    decreases to - from,
{
    if to <= from {
        env
    } else {
        env_after_defs(env_through(env, blocks, from, to - 1), defs_view(blocks[to - 1].definitions@))
    }
}

/// The checkpoint before any block.
pub open spec fn initial_checkpoint() -> BlockCheckpoint {
    BlockCheckpoint { byte_offset: 0, block_index: 0, reference_environment_hash: FNV_OFFSET }
}

/// The checkpoint after block `i` (0-based) when the environment before
/// block `from` is `env`.
pub open spec fn checkpoint_after(env: u64, blocks: Seq<Block>, from: int, i: int) -> BlockCheckpoint {
    BlockCheckpoint {
        byte_offset: blocks[i].end,
        block_index: (i + 1) as usize,
        reference_environment_hash: env_through(env, blocks, from, i + 1),
    }
}

/// A checkpoint before the first block and after every block.
pub open spec fn spec_checkpoints(blocks: Seq<Block>) -> Seq<BlockCheckpoint> {
    seq![initial_checkpoint()] + Seq::new(blocks.len(), |i: int| checkpoint_after(FNV_OFFSET, blocks, 0, i))
}

/// Fold definitions `defs` into the environment hash `env`.
pub fn hash_definitions(env: u64, defs: &Vec<(String, u64)>) -> (r: u64)
    ensures
        r == env_after_defs(env, defs_view(defs@)),
{
    let mut result = env;
    let mut index: usize = 0;
    while index < defs.len()
        invariant
            index <= defs@.len(),
            result == env_after_defs(env, defs_view(defs@).take(index as int)),
        decreases defs.len() - index,
    {
        let (identifier, value) = &defs[index];
        proof {
            assert(defs_view(defs@).take(index + 1).drop_last() =~= defs_view(defs@).take(index as int));
            assert(defs_view(defs@).take(index + 1).last() == (identifier@, *value));
        }
        result = hash_bytes(result, identifier.as_str().as_bytes());
        result = hash_u64_le(result, *value);
        index += 1;
    }
    proof {
        assert(defs_view(defs@).take(defs@.len() as int) =~= defs_view(defs@));
    }
    result
}

/// Checkpoints before the first block and after each block.
pub fn make_checkpoints(blocks: &[Block]) -> (r: Vec<BlockCheckpoint>)
    requires
        blocks@.len() < usize::MAX,
    ensures
        r@ == spec_checkpoints(blocks@),
{
    let mut result: Vec<BlockCheckpoint> = Vec::new();
    result.push(BlockCheckpoint { byte_offset: 0, block_index: 0, reference_environment_hash: FNV_OFFSET });
    let mut environment = FNV_OFFSET;
    let mut index: usize = 0;
    while index < blocks.len()
        invariant
            blocks@.len() < usize::MAX,
            index <= blocks@.len(),
            environment == env_through(FNV_OFFSET, blocks@, 0, index as int),
            result@ =~= spec_checkpoints(blocks@).take(index + 1),
        decreases blocks.len() - index,
    {
        let block = &blocks[index];
        environment = hash_definitions(environment, &block.definitions);
        result.push(BlockCheckpoint {
            byte_offset: block.end,
            block_index: index + 1,
            reference_environment_hash: environment,
        });
        index += 1;
    }
    result
}

/// The checkpoints before block `start` kept from `previous`, or the initial
/// checkpoint when none is kept.
pub open spec fn retained_checkpoints(previous: Seq<BlockCheckpoint>, start: int) -> Seq<BlockCheckpoint> {
    let retained = if start + 1 < previous.len() { start + 1 } else { previous.len() as int };
    if retained == 0 {
        seq![initial_checkpoint()]
    } else {
        previous.take(retained)
    }
}

/// Keep the checkpoints of `previous` up to block `start` and recompute the
/// rest for `blocks`.
pub fn update_checkpoints(previous: &[BlockCheckpoint], blocks: &[Block], start: usize) -> (r: Vec<BlockCheckpoint>)
    requires
        blocks@.len() < usize::MAX,
    ensures
        ({
            let base = retained_checkpoints(previous@, start as int);
            let env = base.last().reference_environment_hash;
            r@ == base + Seq::new(
                if start < blocks@.len() { (blocks@.len() - start) as nat } else { 0 },
                |k: int| checkpoint_after(env, blocks@, start as int, start + k),
            )
        }),
{
    let retained = if start < previous.len() { start + 1 } else { previous.len() };
    let mut result: Vec<BlockCheckpoint> = Vec::new();
    let mut copied: usize = 0;
    while copied < retained
        invariant
            retained <= previous@.len(),
            copied <= retained,
            result@ =~= previous@.take(copied as int),
        decreases retained - copied,
    {
        result.push(previous[copied]);
        copied += 1;
    }
    if result.len() == 0 {
        result.push(BlockCheckpoint { byte_offset: 0, block_index: 0, reference_environment_hash: FNV_OFFSET });
    }
    let ghost base = result@;
    proof {
        assert(base =~= retained_checkpoints(previous@, start as int));
    }
    let mut environment = result[result.len() - 1].reference_environment_hash;
    let ghost env = environment;
    let mut index: usize = start;
    while index < blocks.len()
        invariant
            blocks@.len() < usize::MAX,
            start <= index,
            start < blocks@.len() ==> index <= blocks@.len(),
            start >= blocks@.len() ==> index == start,
            base.len() > 0,
            env == base.last().reference_environment_hash,
            environment == env_through(env, blocks@, start as int, index as int),
            result@ =~= base + Seq::new((index - start) as nat, |k: int| checkpoint_after(env, blocks@, start as int, start + k)),
        decreases blocks.len() - index,
    {
        let block = &blocks[index];
        environment = hash_definitions(environment, &block.definitions);
        result.push(BlockCheckpoint {
            byte_offset: block.end,
            block_index: index + 1,
            reference_environment_hash: environment,
        });
        index += 1;
    }
    proof {
        let n: nat = if start < blocks@.len() { (blocks@.len() - start) as nat } else { 0 };
        assert(n == (index - start) as nat);
        assert(result@ =~= base + Seq::new(n, |k: int| checkpoint_after(env, blocks@, start as int, start + k)));
    }
    result
}

/// Folding blocks `from..to` from the hash after `0..from` is folding `0..to`.
proof fn lemma_env_through_split(env: u64, blocks: Seq<Block>, from: int, to: int)
    requires
        0 <= from <= to,
    ensures
        env_through(env_through(env, blocks, 0, from), blocks, from, to) == env_through(env, blocks, 0, to),
    decreases to - from,
{
    if from < to {
        lemma_env_through_split(env, blocks, from, to - 1);
    }
}

/// Blocks that agree in end and definitions give the same environment.
proof fn lemma_env_through_agrees(env: u64, a: Seq<Block>, b: Seq<Block>, to: int)
    requires
        0 <= to <= a.len(),
        to <= b.len(),
        forall|i: int| 0 <= i < to ==> defs_view((#[trigger] a[i]).definitions@) == defs_view(b[i].definitions@),
    ensures
        env_through(env, a, 0, to) == env_through(env, b, 0, to),
    decreases to,
{
    if to > 0 {
        assert(defs_view(a[to - 1].definitions@) == defs_view(b[to - 1].definitions@));
        lemma_env_through_agrees(env, a, b, to - 1);
    }
}

/// Updating the checkpoints of `old` from block `start` on gives the
/// checkpoints of `new`, when the blocks before `start` are unchanged in end
/// and definitions.
pub proof fn lemma_update_checkpoints_rebuilds(old: Seq<Block>, new: Seq<Block>, start: int)
    requires
        0 <= start <= old.len(),
        start <= new.len(),
        forall|i: int| 0 <= i < start ==> (#[trigger] old[i]).end == new[i].end
            && defs_view(old[i].definitions@) == defs_view(new[i].definitions@),
    ensures
        ({
            let previous = spec_checkpoints(old);
            let base = retained_checkpoints(previous, start);
            let env = base.last().reference_environment_hash;
            base + Seq::new(
                if start < new.len() { (new.len() - start) as nat } else { 0 },
                |k: int| checkpoint_after(env, new, start, start + k),
            ) == spec_checkpoints(new)
        }),
{
    let previous = spec_checkpoints(old);
    let base = retained_checkpoints(previous, start);
    let env = base.last().reference_environment_hash;
    assert(base =~= previous.take(start + 1));
    lemma_env_through_agrees(FNV_OFFSET, old, new, start);
    assert(env == env_through(FNV_OFFSET, new, 0, start)) by {
        if start > 0 {
            assert(base.last() == checkpoint_after(FNV_OFFSET, old, 0, start - 1));
        }
    }
    let tail = Seq::new(
        if start < new.len() { (new.len() - start) as nat } else { 0 },
        |k: int| checkpoint_after(env, new, start, start + k),
    );
    assert forall|i: int| 0 <= i < new.len() + 1 implies #[trigger] (base + tail)[i] == spec_checkpoints(new)[i] by {
        if i == 0 {
        } else if i <= start {
            assert(old[i - 1].end == new[i - 1].end);
            lemma_env_through_agrees(FNV_OFFSET, old, new, i);
            assert(base[i] == checkpoint_after(FNV_OFFSET, old, 0, i - 1));
        } else {
            lemma_env_through_split(FNV_OFFSET, new, start, i);
            assert(tail[i - start - 1] == checkpoint_after(env, new, start, i - 1));
        }
    }
    assert(base + tail =~= spec_checkpoints(new));
}

/// The index of the first block, from `i` on, that ends at or after `offset`,
/// or the number of blocks when none does.
pub open spec fn containing_block(blocks: Seq<Block>, offset: usize, i: int) -> int
    decreases blocks.len() - i,
{
    if i < 0 || i >= blocks.len() {
        blocks.len() as int
    } else if blocks[i].end >= offset {
        i
    } else {
        containing_block(blocks, offset, i + 1)
    }
}

/// The block found by `containing_block` lies between `i` and the end.
pub proof fn lemma_containing_block_bound(blocks: Seq<Block>, offset: usize, i: int)
    requires
        0 <= i <= blocks.len(),
    ensures
        i <= containing_block(blocks, offset, i) <= blocks.len(),
    decreases blocks.len() - i,
{
    if i < blocks.len() && blocks[i].end < offset {
        lemma_containing_block_bound(blocks, offset, i + 1);
    }
}

/// The index of the block before the one that contains `offset`: the block
/// from which reparsing restarts.
pub fn checkpoint_before(blocks: &[Block], offset: usize) -> (r: usize)
    ensures
        r == if containing_block(blocks@, offset, 0) == 0 { 0 } else { containing_block(blocks@, offset, 0) - 1 },
{
    let mut index: usize = 0;
    while index < blocks.len() && blocks[index].end < offset
        invariant
            index <= blocks@.len(),
            containing_block(blocks@, offset, 0) == containing_block(blocks@, offset, index as int),
        decreases blocks.len() - index,
    {
        index += 1;
    }
    if index == 0 { 0 } else { index - 1 }
}

/// Whether a block needs the whole document rendered at once.
pub open spec fn needs_whole_document(block: Block) -> bool {
    block.footnote || block.kind.0 == MDX_ESM || block.kind.0 == TOML || block.kind.0 == YAML
        || block.kind.0 == DOCUMENT
}

/// Whether some block needs the whole document rendered at once: footnotes,
/// ESM, frontmatter, or a whole-document block.
pub fn requires_whole_document(blocks: &[Block]) -> (r: bool)
    ensures
        r == exists|i: int| 0 <= i < blocks@.len() && needs_whole_document(#[trigger] blocks@[i]),
{
    let mut index: usize = 0;
    while index < blocks.len()
        invariant
            index <= blocks@.len(),
            forall|i: int| 0 <= i < index ==> !needs_whole_document(#[trigger] blocks@[i]),
        decreases blocks.len() - index,
    {
        let block = &blocks[index];
        let kind = block.kind.0;
        if block.footnote || kind == MDX_ESM || kind == TOML || kind == YAML || kind == DOCUMENT {
            proof {
                assert(needs_whole_document(blocks@[index as int]));
            }
            return true;
        }
        index += 1;
    }
    false
}

/// Whether reparsing has converged: the last reparsed block matches, in
/// fingerprint and kind, the old block before `candidate`, and that old
/// block lies after `start`.
pub fn has_converged(old: &[Block], start: usize, candidate: usize, parsed: &[Block]) -> (r: bool)
    requires
        candidate <= old@.len(),
    ensures
        r == (start < candidate && parsed@.len() > 0
            && old@[candidate - 1].fingerprint == parsed@.last().fingerprint
            && old@[candidate - 1].kind == parsed@.last().kind),
{
    let span = if candidate > start { candidate - start } else { 0 };
    let available = if span < parsed.len() { span } else { parsed.len() };
    let count: usize = if available < 1 { available } else { 1 };
    if count == 0 {
        return false;
    }
    let left = &old[candidate - 1];
    let right = &parsed[parsed.len() - 1];
    left.fingerprint == right.fingerprint && left.kind == right.kind
}

/// Whether `source` may hold a definition: it holds `]:`.
pub fn may_have_definitions(source: &str) -> (r: bool)
    ensures
        r == exists|i: int| 0 <= i < source@.len() - 1 && #[trigger] source@[i] == ']' && source@[i + 1] == ':',
{
    let chars = crate::util::text::chars_of(source);
    let mut index: usize = 0;
    while index < chars.len() && chars.len() - index > 1
        invariant
            chars@ == source@,
            index <= chars@.len(),
            forall|i: int| 0 <= i < index && i < source@.len() - 1 ==> !(#[trigger] source@[i] == ']' && source@[i + 1] == ':'),
        decreases chars.len() - index,
    {
        if chars[index] == ']' && chars[index + 1] == ':' {
            return true;
        }
        index += 1;
    }
    false
}

/// Whether `a` and `b` hold the same strings.
pub fn same_strings(a: &Vec<String>, b: &Vec<String>) -> (r: bool)
    ensures
        r == (crate::incremental::definitions::strings_view(a@) == crate::incremental::definitions::strings_view(b@)),
{
    if a.len() != b.len() {
        proof {
            assert(crate::incremental::definitions::strings_view(a@).len() != crate::incremental::definitions::strings_view(b@).len());
        }
        return false;
    }
    let mut index: usize = 0;
    while index < a.len()
        invariant
            a@.len() == b@.len(),
            index <= a@.len(),
            forall|i: int| 0 <= i < index ==> (#[trigger] a@[i])@ == b@[i]@,
        decreases a.len() - index,
    {
        if a[index] != b[index] {
            proof {
                assert(crate::incremental::definitions::strings_view(a@)[index as int] != crate::incremental::definitions::strings_view(b@)[index as int]);
            }
            return false;
        }
        index += 1;
    }
    proof {
        assert(crate::incremental::definitions::strings_view(a@) =~= crate::incremental::definitions::strings_view(b@));
    }
    true
}

/// Whether a block must be rendered again: no old block has its identity,
/// or the last old block with it differs in content or references.
pub open spec fn block_changed(old: Seq<Block>, block: Block) -> bool {
    match last_with_id(old, block.id) {
        None => true,
        Some(o) => o.fingerprint != block.fingerprint
            || crate::incremental::definitions::strings_view(o.references@)
                != crate::incremental::definitions::strings_view(block.references@),
    }
}

/// The last block of `blocks` with identity `id`.
pub open spec fn last_with_id(blocks: Seq<Block>, id: u64) -> Option<Block>
    decreases blocks.len(),
{
    if blocks.len() == 0 {
        None
    } else if blocks.last().id == id {
        Some(blocks.last())
    } else {
        last_with_id(blocks.drop_last(), id)
    }
}

/// Whether `block` must be rendered again after `old`.
fn block_needs_render(old: &[Block], block: &Block) -> (r: bool)
    ensures
        r == block_changed(old@, *block),
{
    let mut index: usize = old.len();
    proof {
        assert(old@.take(old@.len() as int) =~= old@);
    }
    while index > 0
        invariant
            index <= old@.len(),
            last_with_id(old@, block.id) == last_with_id(old@.take(index as int), block.id),
        decreases index,
    {
        proof {
            assert(old@.take(index as int).drop_last() =~= old@.take(index - 1));
            assert(old@.take(index as int).last() == old@[index - 1]);
        }
        if old[index - 1].id == block.id {
            let candidate = &old[index - 1];
            return candidate.fingerprint != block.fingerprint
                || !same_strings(&candidate.references, &block.references);
        }
        index -= 1;
    }
    true
}

/// The identities of the new blocks that must be rendered again, in order.
pub fn changed_block_ids(old: &[Block], new: &[Block]) -> (r: ChangedBlocks)
    ensures
        forall|id: u64| r.ids@.contains(id) <==> exists|i: int| 0 <= i < new@.len()
            && (#[trigger] new@[i]).id == id && block_changed(old@, new@[i]),
{
    let mut result: Vec<u64> = Vec::new();
    let mut k: usize = 0;
    while k < new.len()
        invariant
            k <= new@.len(),
            forall|id: u64| result@.contains(id) <==> exists|i: int| 0 <= i < k
                && (#[trigger] new@[i]).id == id && block_changed(old@, new@[i]),
        decreases new.len() - k,
    {
        let block = &new[k];
        let changed = block_needs_render(old, block);
        let ghost before = result@;
        if changed {
            result.push(block.id);
        }
        proof {
            assert(changed == block_changed(old@, new@[k as int]));
            assert forall|id: u64| result@.contains(id) <==> exists|i: int| 0 <= i < k + 1
                && (#[trigger] new@[i]).id == id && block_changed(old@, new@[i]) by {
                if result@.contains(id) {
                    let j = choose|j: int| 0 <= j < result@.len() && result@[j] == id;
                    if j < before.len() {
                        assert(before[j] == id);
                        assert(before.contains(id));
                    } else {
                        assert(changed);
                        assert(new@[k as int].id == id);
                        assert(block_changed(old@, new@[k as int]));
                    }
                }
                if exists|i: int| 0 <= i < k + 1 && (#[trigger] new@[i]).id == id && block_changed(old@, new@[i]) {
                    let i = choose|i: int| 0 <= i < k + 1 && (#[trigger] new@[i]).id == id && block_changed(old@, new@[i]);
                    if i < k {
                        assert(before.contains(id));
                        let j = choose|j: int| 0 <= j < before.len() && before[j] == id;
                        assert(result@[j] == id);
                    } else {
                        assert(result@[result@.len() - 1] == id);
                    }
                }
            }
        }
        k += 1;
    }
    ChangedBlocks { ids: result }
}

/// Identities of blocks that must be rendered again.
pub struct ChangedBlocks {
    /// The identities.
    pub ids: Vec<u64>,
}

impl ChangedBlocks {
    /// Whether block `id` must be rendered again.
    pub fn contains(&self, id: u64) -> (r: bool)
        ensures
            r == self.ids@.contains(id),
    {
        let mut index: usize = 0;
        while index < self.ids.len()
            invariant
                index <= self.ids@.len(),
                forall|i: int| 0 <= i < index ==> self.ids@[i] != id,
            decreases self.ids.len() - index,
        {
            if self.ids[index] == id {
                proof {
                    assert(self.ids@[index as int] == id);
                }
                return true;
            }
            index += 1;
        }
        false
    }
}

/// Whether rendering needs the syntax tree rather than parser events:
/// `CodeHike` blocks or any MDX construct.
pub fn renderer_needs_mdast(options: &ParseOptions) -> (r: bool)
    ensures
        r == (options.constructs.code_hike_blocks || options.constructs.mdx_esm
            || options.constructs.mdx_expression_flow || options.constructs.mdx_expression_text
            || options.constructs.mdx_jsx_flow || options.constructs.mdx_jsx_text),
{
    let constructs = &options.constructs;
    constructs.code_hike_blocks || constructs.mdx_esm || constructs.mdx_expression_flow
        || constructs.mdx_expression_text || constructs.mdx_jsx_flow || constructs.mdx_jsx_text
}

/// One block standing for the whole document `value`, rendered as `html`,
/// with the next identity from `next_id`.
pub fn document_block(value: &str, html: String, next_id: &mut u64) -> (b: Block)
    requires
        *old(next_id) < u64::MAX,
    ensures
        b.start == 0,
        b.end == value.spec_bytes().len(),
        b.id == *old(next_id),
        *final(next_id) == *old(next_id) + 1,
        b.fingerprint == spec_fingerprint(DOCUMENT, value.spec_bytes()),
        b.kind.0 == DOCUMENT,
        b.html@ == html@,
        b.definitions@.len() == 0,
        b.references@.len() == 0,
        b.footnote,
{
    let id = *next_id;
    *next_id = *next_id + 1;
    Block {
        start: 0,
        end: value.as_bytes().len(),
        id,
        fingerprint: fingerprint(DOCUMENT, value.as_bytes()),
        kind: BlockKind(DOCUMENT),
        html,
        definitions: Vec::new(),
        references: Vec::new(),
        footnote: true,
    }
}

/// Move the absolute offset of each expression stop by `shift`.
pub fn rebase_stops(stops: &mut Vec<(usize, usize)>, shift: (usize, usize))
    requires
        forall|i: int| 0 <= i < old(stops)@.len() ==> shift.1 <= (#[trigger] old(stops)@[i]).1
            && old(stops)@[i].1 - shift.1 + shift.0 <= usize::MAX,
    ensures
        final(stops)@.len() == old(stops)@.len(),
        forall|i: int| 0 <= i < final(stops)@.len() ==> (#[trigger] final(stops)@[i]).0 == old(stops)@[i].0
            && final(stops)@[i].1 == old(stops)@[i].1 - shift.1 + shift.0,
{
    let ghost initial = stops@;
    let mut index: usize = 0;
    while index < stops.len()
        invariant
            stops@.len() == initial.len(),
            index <= initial.len(),
            forall|i: int| 0 <= i < initial.len() ==> shift.1 <= (#[trigger] initial[i]).1
                && initial[i].1 - shift.1 + shift.0 <= usize::MAX,
            forall|i: int| 0 <= i < index ==> (#[trigger] stops@[i]).0 == initial[i].0
                && stops@[i].1 == initial[i].1 - shift.1 + shift.0,
            forall|i: int| index <= i < initial.len() ==> #[trigger] stops@[i] == initial[i],
        decreases initial.len() - index,
    {
        let (relative, absolute) = stops[index];
        proof {
            assert(stops@[index as int] == initial[index as int]);
        }
        let moved = crate::incremental::edit::add_delta(absolute, shift);
        stops.set(index, (relative, moved));
        index += 1;
    }
}

} // verus!
