//! The persistent incremental renderer: a document, its blocks with their
//! HTML, and the checkpoints between them, updated one edit batch at a time.
//!
//! Parsing and HTML compilation are the caller's: `plan_apply` says what an
//! edit batch needs reparsed, `reparse_step` drives the parser over the
//! reparse window, and `commit_apply` folds the parsed blocks in.

use vstd::prelude::*;
use vstd::utf8::{encode_utf8, is_char_boundary};
use crate::configuration::Options;
use crate::incremental::{ApplyResult, BlockCheckpoint, ByteRange, Edit, EditBatch, RenderedBlock, RenderedBlockRef};
use crate::incremental::blocks::{Block, containing_block, defs_view, lemma_containing_block_bound, spec_checkpoints};
use crate::incremental::definitions::{all_defs, first_defs, keys, strings_view};
use crate::incremental::edit::{added_before, batch_problem, delta_before, is_edit_message, problem_reason, removed_before, spliced, valid_edits};
use crate::incremental::fingerprint::block_id_text;
use crate::incremental::html::{ends_with_newline, spec_definition_sources, spec_join_html};
use crate::incremental::patches::{visible_blocks, visible_entries};
use crate::incremental::align::{fix_ids, hands_over_html, html_list, ids_of, lcs, same_but_id_html, same_content, walk_html, walk_ids};
use crate::incremental::definitions::definition_changed;
use crate::incremental::patches::{apply_patches, patch_is, same_order, spec_diff, unique_ids};
use crate::incremental::fingerprint::spec_fingerprint;
use crate::incremental::blocks::needs_whole_document;
use crate::incremental::reparse::{ReparsePlan, first_ending_after, initial_candidate, plan_fits, window_end};
use crate::incremental::placement::{blocks_placed, ids_placed, lemma_replaced_placed, lemma_suffix_shiftable};
use crate::message::Message;
use vstd::string::StringSliceAdditionalSpecFns;
use crate::util::text::{lemma_encode_utf8_concat, push_char};

verus! {

broadcast use vstd::string::group_string_axioms;

/// Whether `s` holds `]:`, the mark of a possible definition.
pub open spec fn has_definition_mark(s: Seq<char>) -> bool {
    exists|i: int| 0 <= i < s.len() - 1 && #[trigger] s[i] == ']' && s[i + 1] == ':'
}

/// Whether block ends never decrease.
pub open spec fn ends_sorted(blocks: Seq<Block>) -> bool {
    forall|i: int, j: int| 0 <= i <= j < blocks.len() ==> (#[trigger] blocks[i]).end <= (#[trigger] blocks[j]).end
}

/// `seed` followed by the identifiers of `ids` that it lacks, each once, in
/// order.
pub open spec fn seed_with(seed: Seq<Seq<char>>, ids: Seq<Seq<char>>) -> Seq<Seq<char>>
    decreases ids.len(),
{
    if ids.len() == 0 {
        seed
    } else {
        let s = seed_with(seed, ids.drop_last());
        if s.contains(ids.last()) { s } else { s.push(ids.last()) }
    }
}

/// The first definitions of a document whose blocks are `blocks`, or none
/// when it is known to have none.
pub open spec fn known_definitions(blocks: Seq<Block>, has_definitions: bool, end: int) -> Seq<(Seq<char>, u64)> {
    if has_definitions { first_defs(all_defs(blocks, end)) } else { Seq::empty() }
}

/// The plan for applying `batch` to a document `source` whose blocks are
/// `blocks`. With `global_allowed`, a document that has or may get
/// definitions is reparsed from its first block to its end.
pub open spec fn planned(
    source: Seq<char>,
    blocks: Seq<Block>,
    has_definitions: bool,
    global_allowed: bool,
    edits: Seq<Edit>,
    plan: ReparsePlan,
) -> bool {
    let bytes = encode_utf8(source);
    let n = edits.len() as int;
    let global = global_allowed && (has_definitions || has_definition_mark(source)
        || has_definition_mark(plan.new_source@));
    let earliest: usize = if n == 0 { 0 } else { edits[0].start_byte };
    let containing = containing_block(blocks, earliest, 0);
    let start_index: int = if global { 0 } else if containing == 0 { 0 } else { containing - 1 };
    let latest_old: int = if global { bytes.len() as int } else if n == 0 { 0 } else { edits[n - 1].old_end_byte as int };
    let start: int = if start_index < blocks.len() {
        if blocks[start_index].start <= earliest { blocks[start_index].start as int } else { earliest as int }
    } else {
        0
    };
    let old_ids = keys(known_definitions(blocks, has_definitions, blocks.len() as int));
    let inherited = keys(known_definitions(blocks, has_definitions, start_index));
    &&& encode_utf8(plan.new_source@) == spliced(bytes, edits)
    &&& plan.edits@ == edits
    &&& plan.global_references == global
    &&& plan.total_delta.0 == added_before(edits, n)
    &&& plan.total_delta.1 == removed_before(edits, n)
    &&& plan.latest_old == latest_old
    &&& plan.start_index == start_index
    &&& plan.start == start
    &&& defs_view(plan.old_definitions@) == known_definitions(blocks, has_definitions, blocks.len() as int)
    &&& strings_view(plan.seed@) == if start != 0 { seed_with(inherited, old_ids) } else { inherited }
    &&& plan.first_candidate == initial_candidate(blocks, start_index, latest_old, start)
}

/// The identity of the last block of `blocks` that renders something.
pub open spec fn last_visible(blocks: Seq<Block>) -> Option<u64>
    decreases blocks.len(),
{
    if blocks.len() == 0 {
        None
    } else if blocks.last().html@.len() > 0 {
        Some(blocks.last().id)
    } else {
        last_visible(blocks.drop_last())
    }
}

/// `last_visible` is the identity of the last visible entry.
proof fn lemma_last_visible(blocks: Seq<Block>)
    ensures
        last_visible(blocks) == crate::incremental::patches::last_entry_id(blocks),
    decreases blocks.len(),
{
    if blocks.len() > 0 {
        lemma_last_visible(blocks.drop_last());
    }
}

/// The identity of the last block that renders something.
pub fn last_visible_id(blocks: &[Block]) -> (r: Option<u64>)
    ensures
        r == last_visible(blocks@),
{
    let mut index: usize = blocks.len();
    proof {
        assert(blocks@.take(blocks@.len() as int) =~= blocks@);
    }
    while index > 0
        invariant
            index <= blocks@.len(),
            last_visible(blocks@) == last_visible(blocks@.take(index as int)),
        decreases index,
    {
        proof {
            assert(blocks@.take(index as int).drop_last() =~= blocks@.take(index - 1));
            assert(blocks@.take(index as int).last() == blocks@[index - 1]);
        }
        if !blocks[index - 1].html.as_str().is_empty() {
            return Some(blocks[index - 1].id);
        }
        index -= 1;
    }
    None
}

/// Whether `s` holds a carriage return.
pub fn has_carriage_return(s: &str) -> (r: bool)
    ensures
        r == encode_utf8(s@).contains(13u8),
{
    let bytes = s.as_bytes();
    let mut index: usize = 0;
    while index < bytes.len()
        invariant
            bytes@ == encode_utf8(s@),
            index <= bytes@.len(),
            forall|i: int| 0 <= i < index ==> bytes@[i] != 13u8,
        decreases bytes.len() - index,
    {
        if bytes[index] == 13u8 {
            proof {
                assert(bytes@[index as int] == 13u8);
            }
            return true;
        }
        index += 1;
    }
    false
}

/// The shift of the old blocks from `co` on: the bytes added and removed
/// by the edits that end at or before the first of them.
pub open spec fn suffix_shift(old: Seq<Block>, edits: Seq<Edit>, co: int) -> (nat, int) {
    delta_before(edits, edits.len() as int, old[co].start as int)
}

/// Whether the old blocks from `co` on can be moved by their shift.
pub open spec fn suffix_shiftable(old: Seq<Block>, edits: Seq<Edit>, co: int) -> bool {
    co < old.len() ==> {
        let d = suffix_shift(old, edits, co);
        forall|j: int| co <= j < old.len() ==> {
            &&& d.1 <= (#[trigger] old[j]).start
            &&& d.1 <= old[j].end
            &&& old[j].start - d.1 + d.0 <= usize::MAX
            &&& old[j].end - d.1 + d.0 <= usize::MAX
        }
    }
}

/// Whether `b` is `a` moved by `d`.
pub open spec fn moved_by(a: Block, b: Block, d: (nat, int)) -> bool {
    &&& b.start == a.start - d.1 + d.0
    &&& b.end == a.end - d.1 + d.0
    &&& b.id == a.id
    &&& b.fingerprint == a.fingerprint
    &&& b.kind == a.kind
    &&& b.html == a.html
    &&& b.definitions@ == a.definitions@
    &&& b.references@ == a.references@
    &&& b.footnote == a.footnote
}

/// Whether `b` is a copy of `a`.
pub open spec fn copy_of(a: Block, b: Block) -> bool {
    moved_by(a, b, (0, 0))
}

/// A copy of `block`.
pub fn copy_block(block: &Block) -> (r: Block)
    ensures
        copy_of(*block, r),
{
    let mut definitions: Vec<(String, u64)> = Vec::new();
    let mut index: usize = 0;
    while index < block.definitions.len()
        invariant
            index <= block.definitions@.len(),
            definitions@ == block.definitions@.take(index as int),
        decreases block.definitions.len() - index,
    {
        let (identifier, value) = &block.definitions[index];
        definitions.push((identifier.clone(), *value));
        proof {
            assert(definitions@ =~= block.definitions@.take(index + 1));
        }
        index += 1;
    }
    let mut references: Vec<String> = Vec::new();
    let mut k: usize = 0;
    while k < block.references.len()
        invariant
            k <= block.references@.len(),
            references@ == block.references@.take(k as int),
        decreases block.references.len() - k,
    {
        references.push(block.references[k].clone());
        proof {
            assert(references@ =~= block.references@.take(k + 1));
        }
        k += 1;
    }
    proof {
        assert(definitions@ =~= block.definitions@);
        assert(references@ =~= block.references@);
    }
    Block {
        start: block.start,
        end: block.end,
        id: block.id,
        fingerprint: block.fingerprint,
        kind: block.kind,
        html: block.html.clone(),
        definitions,
        references,
        footnote: block.footnote,
    }
}

/// Whether `a` and `b` hold the same identifiers, in any order.
pub fn same_identifiers(a: &Vec<String>, b: &Vec<String>) -> (r: bool)
    ensures
        r == (strings_view(a@).to_set() == strings_view(b@).to_set()),
{
    let mut index: usize = 0;
    while index < a.len()
        invariant
            index <= a@.len(),
            forall|i: int| 0 <= i < index ==> strings_view(b@).contains(#[trigger] strings_view(a@)[i]),
        decreases a.len() - index,
    {
        if !crate::incremental::definitions::contains_string(b, &a[index]) {
            proof {
                assert(strings_view(a@)[index as int] == a@[index as int]@);
                assert(strings_view(a@).contains(a@[index as int]@));
                assert(strings_view(a@).to_set().contains(a@[index as int]@));
                assert(!strings_view(b@).to_set().contains(a@[index as int]@));
            }
            return false;
        }
        index += 1;
    }
    let mut k: usize = 0;
    while k < b.len()
        invariant
            k <= b@.len(),
            forall|i: int| 0 <= i < a@.len() ==> strings_view(b@).contains(#[trigger] strings_view(a@)[i]),
            forall|i: int| 0 <= i < k ==> strings_view(a@).contains(#[trigger] strings_view(b@)[i]),
        decreases b.len() - k,
    {
        if !crate::incremental::definitions::contains_string(a, &b[k]) {
            proof {
                assert(strings_view(b@)[k as int] == b@[k as int]@);
                assert(strings_view(b@).contains(b@[k as int]@));
                assert(strings_view(b@).to_set().contains(b@[k as int]@));
                assert(!strings_view(a@).to_set().contains(b@[k as int]@));
            }
            return false;
        }
        k += 1;
    }
    proof {
        assert forall|x: Seq<char>| strings_view(a@).to_set().contains(x) <==> strings_view(b@).to_set().contains(x) by {
            if strings_view(a@).contains(x) {
                let i = choose|i: int| 0 <= i < strings_view(a@).len() && strings_view(a@)[i] == x;
                assert(strings_view(b@).contains(strings_view(a@)[i]));
            }
            if strings_view(b@).contains(x) {
                let i = choose|i: int| 0 <= i < strings_view(b@).len() && strings_view(b@)[i] == x;
                assert(strings_view(a@).contains(strings_view(b@)[i]));
            }
        }
        assert(strings_view(a@).to_set() =~= strings_view(b@).to_set());
    }
    true
}

/// Move every block by `shift`.
fn shift_blocks(blocks: &mut Vec<Block>, shift: (usize, usize))
    requires
        forall|j: int| 0 <= j < old(blocks)@.len() ==> {
            &&& shift.1 <= (#[trigger] old(blocks)@[j]).start
            &&& shift.1 <= old(blocks)@[j].end
            &&& old(blocks)@[j].start - shift.1 + shift.0 <= usize::MAX
            &&& old(blocks)@[j].end - shift.1 + shift.0 <= usize::MAX
        },
    ensures
        final(blocks)@.len() == old(blocks)@.len(),
        forall|j: int| 0 <= j < final(blocks)@.len() ==> moved_by(old(blocks)@[j], #[trigger] final(blocks)@[j], (shift.0 as nat, shift.1 as int)),
{
    let ghost initial = blocks@;
    let mut index: usize = 0;
    while index < blocks.len()
        invariant
            blocks@.len() == initial.len(),
            index <= initial.len(),
            forall|j: int| 0 <= j < initial.len() ==> {
                &&& shift.1 <= (#[trigger] initial[j]).start
                &&& shift.1 <= initial[j].end
                &&& initial[j].start - shift.1 + shift.0 <= usize::MAX
                &&& initial[j].end - shift.1 + shift.0 <= usize::MAX
            },
            forall|j: int| 0 <= j < index ==> moved_by(initial[j], #[trigger] blocks@[j], (shift.0 as nat, shift.1 as int)),
            forall|j: int| index <= j < initial.len() ==> #[trigger] blocks@[j] == initial[j],
        decreases initial.len() - index,
    {
        proof {
            assert(blocks@[index as int] == initial[index as int]);
        }
        let start = crate::incremental::edit::add_delta(blocks[index].start, shift);
        let end = crate::incremental::edit::add_delta(blocks[index].end, shift);
        blocks[index].start = start;
        blocks[index].end = end;
        index += 1;
    }
}

/// Validate `batch` against the document `source` at `version`, apply it,
/// and plan the reparse over the old `blocks`.
pub fn plan_edits(
    source: &str,
    blocks: &Vec<Block>,
    version: u64,
    has_definitions: bool,
    global_allowed: bool,
    batch: EditBatch,
) -> (r: Result<ReparsePlan, Message>)
    ensures
        r is Ok <==> batch_problem(source.spec_bytes(), version, batch) is None,
        r matches Err(m) ==> batch_problem(source.spec_bytes(), version, batch) matches Some(p)
            && m.reason@ == problem_reason(p, version, batch.base_version) && is_edit_message(m),
        r matches Ok(plan) ==> planned(source@, blocks@, has_definitions, global_allowed, batch.edits@, plan),
        r matches Ok(plan) ==> valid_edits(source.spec_bytes(), plan.edits@),
        r matches Ok(plan) ==> plan.start <= encode_utf8(plan.new_source@).len(),
        r matches Ok(plan) ==> (ends_sorted(blocks@) ==> plan_fits(blocks@, plan)),
{
    let new_source = match batch.apply_to(source, version) {
        Ok(s) => s,
        Err(m) => return Err(m),
    };
    let ghost bytes = source.spec_bytes();
    let EditBatch { base_version: _, edits } = batch;
    let n = edits.len();
    proof {
        crate::incremental::edit::lemma_spliced_len(bytes, edits@);
        if n > 0 {
            crate::incremental::edit::lemma_removed_within(bytes, edits@, n as int);
        }
        assert(forall|i: int| 0 <= i < edits@.len() ==> (#[trigger] edits@[i]).start_byte <= edits@[i].old_end_byte);
    }
    let new_len = new_source.as_str().as_bytes().len();
    let total_delta = crate::incremental::edit::byte_delta(edits.as_slice());
    let earliest = if n == 0 { 0 } else { edits[0].start_byte };
    let mut latest_old = if n == 0 { 0 } else { edits[n - 1].old_end_byte };
    let global = global_allowed && (has_definitions
        || crate::incremental::blocks::may_have_definitions(source)
        || crate::incremental::blocks::may_have_definitions(new_source.as_str()));
    proof {
        lemma_containing_block_bound(blocks@, earliest, 0);
    }
    let start_index = if global {
        latest_old = source.as_bytes().len();
        0
    } else {
        crate::incremental::blocks::checkpoint_before(blocks.as_slice(), earliest)
    };
    let start = if start_index < blocks.len() {
        if blocks[start_index].start <= earliest { blocks[start_index].start } else { earliest }
    } else {
        0
    };
    proof {
        if n > 0 {
            crate::incremental::edit::lemma_removed_span(bytes, edits@, n as int);
            assert(edits@[0] == edits@[0]);
            assert(edits@[n - 1] == edits@[n - 1]);
        }
        assert(start <= earliest);
        assert(earliest <= new_len);
    }
    let old_definitions = if has_definitions {
        crate::incremental::definitions::definition_map(blocks.as_slice())
    } else {
        Vec::new()
    };
    let mut seed = if has_definitions {
        crate::incremental::definitions::definitions_before(blocks.as_slice(), start_index)
    } else {
        Vec::new()
    };
    let ghost inherited = strings_view(seed@);
    let ghost old_ids = keys(defs_view(old_definitions@));
    proof {
        assert(defs_view(old_definitions@) =~= known_definitions(blocks@, has_definitions, blocks@.len() as int));
        assert(inherited =~= keys(known_definitions(blocks@, has_definitions, start_index as int)));
    }
    if start != 0 {
        let mut k: usize = 0;
        while k < old_definitions.len()
            invariant
                k <= old_definitions@.len(),
                old_ids == keys(defs_view(old_definitions@)),
                strings_view(seed@) == seed_with(inherited, old_ids.take(k as int)),
            decreases old_definitions.len() - k,
        {
            let identifier = &old_definitions[k].0;
            proof {
                assert(old_ids.take(k + 1).drop_last() =~= old_ids.take(k as int));
                assert(old_ids.take(k + 1).last() == identifier@);
            }
            if !crate::incremental::definitions::contains_string(&seed, identifier) {
                let ghost before = seed@;
                seed.push(identifier.clone());
                proof {
                    assert(strings_view(seed@) =~= strings_view(before).push(identifier@));
                }
            }
            k += 1;
        }
        proof {
            assert(old_ids.take(old_ids.len() as int) =~= old_ids);
        }
    }
    let first = crate::incremental::reparse::first_candidate(blocks.as_slice(), start_index, latest_old, start);
    let plan = ReparsePlan {
        new_source,
        edits,
        start_index,
        start,
        latest_old,
        total_delta,
        seed,
        global_references: global,
        old_definitions,
        first_candidate: first,
    };
    proof {
        let minimum: int = if latest_old < start { start as int } else { latest_old as int };
        crate::incremental::reparse::lemma_first_ending_after(blocks@, minimum, start_index as int);
        let f = first_ending_after(blocks@, minimum, start_index as int);
        assert(total_delta.1 <= latest_old);
        if ends_sorted(blocks@) {
            assert forall|i: int| plan.first_candidate <= i + 1 < blocks@.len() && 0 <= i
                implies plan.total_delta.1 <= (#[trigger] blocks@[i]).end by {
                assert(blocks@[f].end <= blocks@[i].end);
            }
        }
    }
    Ok(plan)
}

/// What becomes of a block's HTML in a full rendering pass.
pub enum BlockRender {
    /// The block keeps its HTML.
    Keep,
    /// The block provides definitions and renders to nothing.
    Clear,
    /// The block is compiled from `input`: its source, followed by the
    /// definition sources when `appended`.
    Compile { input: String, appended: bool },
}

/// Whether definition `key` changed in the slow apply `slow`.
pub open spec fn definition_changed_in(slow: SlowApply, key: Seq<char>) -> bool {
    !slow.parsed_whole_document && definition_changed(defs_view(slow.plan.old_definitions@),
        first_defs(all_defs(slow.blocks@, slow.blocks@.len() as int)), key)
}

/// Whether a new block with identity `id` is new or changed against `old`.
pub open spec fn id_changed(old: Seq<Block>, blocks: Seq<Block>, id: u64) -> bool {
    exists|j: int| 0 <= j < blocks.len() && (#[trigger] blocks[j]).id == id
        && crate::incremental::blocks::block_changed(old, blocks[j])
}

/// Whether new block `i` of `slow` must be compiled again: its identity is
/// that of a new or changed block and it has no HTML, or a definition it
/// references changed.
pub open spec fn needs_render(old: Seq<Block>, slow: SlowApply, i: int) -> bool {
    let b = slow.blocks@[i];
    ||| id_changed(old, slow.blocks@, b.id) && b.html@.len() == 0
    ||| exists|k: int| 0 <= k < b.references@.len() && definition_changed_in(slow, #[trigger] b.references@[k]@)
}

/// Whether block `i` is compiled with the definition sources appended.
pub open spec fn appends_definitions(bytes: Seq<u8>, blocks: Seq<Block>, i: int) -> bool {
    spec_definition_sources(bytes, blocks).len() > 0 && blocks[i].references@.len() > 0
}

/// The Markdown that block `i` is compiled from.
pub open spec fn render_input(bytes: Seq<u8>, blocks: Seq<Block>, i: int) -> Seq<u8> {
    let own = bytes.subrange(blocks[i].start as int, blocks[i].end as int);
    if appends_definitions(bytes, blocks, i) {
        own + seq![10u8, 10u8] + spec_definition_sources(bytes, blocks)
    } else {
        own
    }
}

/// Compiled HTML without the line ending that the appended definitions
/// left at its end.
pub open spec fn trim_rendered(html: Seq<char>, appended: bool) -> Seq<char> {
    if appended && ends_with_newline(html) {
        let t = html.drop_last();
        if t.len() > 0 && t.last() == '\r' { t.drop_last() } else { t }
    } else {
        html
    }
}

/// Whether every block range lies on code point boundaries of `bytes`.
pub open spec fn ranges_valid(bytes: Seq<u8>, blocks: Seq<Block>) -> bool {
    forall|i: int| 0 <= i < blocks.len() ==> {
        &&& (#[trigger] blocks[i]).start <= blocks[i].end <= bytes.len()
        &&& is_char_boundary(bytes, blocks[i].start as int)
        &&& is_char_boundary(bytes, blocks[i].end as int)
    }
}

/// `html` without the line ending that appended definitions left.
fn trim_rendered_exec(html: String, appended: bool) -> (r: String)
    ensures
        r@ == trim_rendered(html@, appended),
{
    if !appended {
        return html;
    }
    let chars = crate::util::text::chars_of(html.as_str());
    let n = chars.len();
    if n == 0 || chars[n - 1] != '\n' {
        return html;
    }
    let k = if n >= 2 && chars[n - 2] == '\r' { n - 2 } else { n - 1 };
    crate::util::text::string_of(&chars, 0, k)
}

/// The slow apply of `slow_before` with the whole document parsed again
/// into `fresh`, which took identities from the old blocks `old`.
pub open spec fn adopted(old: Seq<Block>, slow_before: SlowApply, fresh: Seq<Block>, next_id: u64, slow_after: SlowApply) -> bool {
    let limit: int = if old.len() < fresh.len() { old.len() as int } else { fresh.len() as int };
    &&& slow_after.plan == slow_before.plan
    &&& slow_after.reparsed_end == slow_before.reparsed_end
    &&& slow_after.parsed_whole_document == slow_before.parsed_whole_document
    &&& !slow_after.identifiers_changed
    &&& !slow_after.needs_full_parse
    &&& slow_after.checkpoints_start == 0
    &&& slow_after.next_id == next_id
    &&& slow_after.blocks@.len() == fresh.len()
    &&& forall|i: int| 0 <= i < fresh.len() ==> same_but_id_html(fresh[i], #[trigger] slow_after.blocks@[i])
    &&& ids_of(slow_after.blocks@) == fix_ids(old, fresh, walk_ids(old, fresh, 0, 0, ids_of(fresh)), 0, limit)
    &&& html_list(slow_after.blocks@) == walk_html(old, fresh, 0, 0, html_list(fresh), true)
}

/// Whether `r` is what block `i` of `slow` becomes in a full rendering pass.
pub open spec fn render_planned(old: Seq<Block>, slow: SlowApply, i: int, r: BlockRender) -> bool {
    let bytes = encode_utf8(slow.plan.new_source@);
    if !needs_render(old, slow, i) {
        r is Keep
    } else if slow.blocks@[i].definitions@.len() > 0 {
        r is Clear
    } else {
        r matches BlockRender::Compile { input, appended }
            && encode_utf8(input@) == render_input(bytes, slow.blocks@, i)
            && appended == appends_definitions(bytes, slow.blocks@, i)
    }
}

/// Whether `renders` says what every block of `slow` becomes.
pub open spec fn renders_planned(old: Seq<Block>, slow: SlowApply, renders: Seq<BlockRender>) -> bool {
    renders.len() == slow.blocks@.len()
    && forall|i: int| 0 <= i < renders.len() ==> render_planned(old, slow, i, #[trigger] renders[i])
}

/// Whether `b` is `a` with the HTML that `r` and `compiled` give it.
pub open spec fn rendered_block(a: Block, r: BlockRender, compiled: Option<String>, b: Block) -> bool {
    &&& same_but_id_html(a, b)
    &&& b.id == a.id
    &&& b.html@ == match r {
        BlockRender::Keep => a.html@,
        BlockRender::Clear => Seq::empty(),
        BlockRender::Compile { input: _, appended } => match compiled {
            Some(h) => trim_rendered(h@, appended),
            None => Seq::empty(),
        },
    }
}

/// What `commit_rendered` makes of the renderer `old_self`.
pub open spec fn rendered(
    old_self: Renderer,
    slow: SlowApply,
    renders: Seq<BlockRender>,
    compiled: Seq<Option<String>>,
    canonical: Option<String>,
    new_self: Renderer,
    result: ApplyResult,
) -> bool {
    let before = old_self.blocks@;
    let after = new_self.blocks@;
    let whole = old_self.whole_after(slow);
    let bytes = encode_utf8(slow.plan.new_source@);
    &&& whole ==> {
        &&& after.len() == 1
        &&& after[0].start == 0
        &&& after[0].end == bytes.len()
        &&& after[0].id == if before.len() > 0 { before[0].id } else { slow.next_id }
        &&& new_self.next_id == if before.len() > 0 { slow.next_id } else { (slow.next_id + 1) as u64 }
        &&& after[0].fingerprint == spec_fingerprint(crate::incremental::blocks::DOCUMENT, bytes)
        &&& after[0].kind.0 == crate::incremental::blocks::DOCUMENT
        &&& canonical matches Some(h) && after[0].html@ == h@ && new_self.trailing_html_newline == ends_with_newline(h@)
        &&& after[0].definitions@.len() == 0
        &&& after[0].references@.len() == 0
        &&& after[0].footnote
    }
    &&& !whole ==> {
        &&& after.len() == slow.blocks@.len()
        &&& forall|i: int| 0 <= i < after.len() ==> rendered_block(slow.blocks@[i], renders[i], compiled[i], #[trigger] after[i])
        &&& new_self.next_id == slow.next_id
        &&& new_self.trailing_html_newline == ends_with_newline(slow.plan.new_source@)
    }
    &&& new_self.whole_document == whole
    &&& new_self.has_definitions == (first_defs(all_defs(after, after.len() as int)).len() > 0)
    &&& result.patches@.len() == spec_diff(before, after, None).len()
    &&& forall|i: int| 0 <= i < result.patches@.len() ==> patch_is(#[trigger] result.patches@[i], spec_diff(before, after, None)[i])
    &&& unique_ids(visible_entries(before)) && unique_ids(visible_entries(after))
        && same_order(visible_entries(before), visible_entries(after))
        ==> apply_patches(visible_entries(before), spec_diff(before, after, None)) == visible_entries(after)
    &&& result.version == new_self.version == old_self.version + 1
    &&& result.reparsed == (ByteRange { start: slow.plan.start, end: slow.reparsed_end })
    &&& new_self.source@ == slow.plan.new_source@
    &&& new_self.checkpoints@ == spec_checkpoints(after)
}

/// An edit whose parsed blocks could not be spliced in place: the blocks
/// assembled from the old ones and the parsed ones, before rendering.
pub struct SlowApply {
    /// The plan of the edit.
    pub plan: ReparsePlan,
    /// The new blocks, in document order.
    pub blocks: Vec<Block>,
    /// End of the reparsed region in the new source.
    pub reparsed_end: usize,
    /// Next block identity left unused.
    pub next_id: u64,
    /// Whether the reparse covered the whole new document.
    pub parsed_whole_document: bool,
    /// Whether the set of defined identifiers changed.
    pub identifiers_changed: bool,
    /// Whether the whole document must be parsed again: the set of defined
    /// identifiers changed and the reparse did not cover it all.
    pub needs_full_parse: bool,
    /// Index of the first block whose checkpoint is recomputed.
    pub checkpoints_start: usize,
}

/// Whether some identifier is defined differently, or only, in one of
/// `previous` and `current`.
pub open spec fn definitions_differ(previous: Seq<(Seq<char>, u64)>, current: Seq<(Seq<char>, u64)>) -> bool {
    exists|key: Seq<char>| #[trigger] definition_changed(previous, current, key)
}

/// Whether the first definitions of `previous` and `current` differ.
fn definitions_differ_exec(previous: &Vec<(String, u64)>, current: &Vec<(String, u64)>) -> (r: bool)
    ensures
        r == definitions_differ(defs_view(previous@), defs_view(current@)),
{
    let changed = crate::incremental::definitions::changed_definition_ids(previous, current);
    proof {
        if changed@.len() > 0 {
            assert(strings_view(changed@)[0] == changed@[0]@);
            assert(strings_view(changed@).contains(changed@[0]@));
            assert(definition_changed(defs_view(previous@), defs_view(current@), changed@[0]@));
        }
        if definitions_differ(defs_view(previous@), defs_view(current@)) {
            let key = choose|key: Seq<char>| #[trigger] definition_changed(defs_view(previous@), defs_view(current@), key);
            assert(strings_view(changed@).contains(key));
        }
    }
    changed.len() > 0
}

/// Blocks that agree in everything the alignment reads.
pub open spec fn copies(a: Seq<Block>, b: Seq<Block>) -> bool {
    a.len() == b.len() && forall|i: int| 0 <= i < a.len() ==> copy_of(a[i], #[trigger] b[i])
}

/// The common-subsequence lengths do not tell copies apart.
proof fn lemma_copies_lcs(a: Seq<Block>, b: Seq<Block>, new: Seq<Block>, o: int, n: int)
    requires
        copies(a, b),
    ensures
        lcs(a, new, o, n) == lcs(b, new, o, n),
    decreases a.len() - o + new.len() - n,
{
    if o < 0 || n < 0 || o >= a.len() || n >= new.len() {
    } else {
        assert(copy_of(a[o], b[o]));
        if same_content(a[o], new[n]) {
            lemma_copies_lcs(a, b, new, o + 1, n + 1);
        } else {
            lemma_copies_lcs(a, b, new, o + 1, n);
            lemma_copies_lcs(a, b, new, o, n + 1);
        }
    }
}

/// The alignment walk does not tell copies apart.
proof fn lemma_copies_walk(a: Seq<Block>, b: Seq<Block>, new: Seq<Block>, o: int, n: int, ids: Seq<u64>, html: Seq<Seq<char>>, preserve_html: bool)
    requires
        copies(a, b),
    ensures
        walk_ids(a, new, o, n, ids) == walk_ids(b, new, o, n, ids),
        walk_html(a, new, o, n, html, preserve_html) == walk_html(b, new, o, n, html, preserve_html),
    decreases a.len() - o + new.len() - n,
{
    if o < 0 || n < 0 || o >= a.len() || n >= new.len() {
    } else {
        assert(copy_of(a[o], b[o]));
        if same_content(a[o], new[n]) {
            let h = if hands_over_html(a[o], new[n], preserve_html) { html.update(n, a[o].html@) } else { html };
            lemma_copies_walk(a, b, new, o + 1, n + 1, ids.update(n, a[o].id), h, preserve_html);
        } else {
            lemma_copies_lcs(a, b, new, o + 1, n);
            lemma_copies_lcs(a, b, new, o, n + 1);
            lemma_copies_walk(a, b, new, o + 1, n, ids, html, preserve_html);
            lemma_copies_walk(a, b, new, o, n + 1, ids, html, preserve_html);
        }
    }
}

/// Fixing identities does not tell copies apart.
proof fn lemma_copies_fix(a: Seq<Block>, b: Seq<Block>, new: Seq<Block>, ids: Seq<u64>, index: int, limit: int)
    requires
        copies(a, b),
        limit <= a.len(),
    ensures
        fix_ids(a, new, ids, index, limit) == fix_ids(b, new, ids, index, limit),
    decreases limit - index,
{
    if index < 0 || index >= limit {
    } else {
        assert(copy_of(a[index], b[index]));
        let next = if a[index].kind == new[index].kind && !ids.contains(a[index].id) {
            ids.update(index, a[index].id)
        } else {
            ids
        };
        lemma_copies_fix(a, b, new, next, index + 1, limit);
    }
}

/// What `assemble` gives for the old blocks `before`.
pub open spec fn assembled(
    before: Seq<Block>,
    plan: ReparsePlan,
    parsed: Seq<Block>,
    reparsed_end: usize,
    co: int,
    next_id: u64,
    r: SlowApply,
) -> bool {
    let si = plan.start_index as int;
    let p = parsed.len() as int;
    let after = r.blocks@;
    let middle = before.subrange(si, co);
    let replaced = after.subrange(si, si + p);
    let changed = plan.global_references
        && definitions_differ(defs_view(plan.old_definitions@), first_defs(all_defs(parsed, p)));
    &&& r.plan == plan
    &&& r.reparsed_end == reparsed_end
    &&& r.next_id == next_id
    &&& r.checkpoints_start == plan.start_index
    &&& r.parsed_whole_document == (plan.start_index == 0 && reparsed_end == encode_utf8(plan.new_source@).len())
    &&& after.len() == si + p + (before.len() - co)
    &&& forall|i: int| 0 <= i < si ==> copy_of(before[i], #[trigger] after[i])
    &&& forall|k: int| 0 <= k < p ==> same_but_id_html(parsed[k], #[trigger] replaced[k])
    &&& ids_of(replaced) == fix_ids(middle, parsed, walk_ids(middle, parsed, 0, 0, ids_of(parsed)), 0,
        if middle.len() < p { middle.len() as int } else { p })
    &&& html_list(replaced) == walk_html(middle, parsed, 0, 0, html_list(parsed), !changed)
    &&& r.identifiers_changed == (keys(first_defs(all_defs(after, after.len() as int))).to_set()
        != keys(defs_view(plan.old_definitions@)).to_set())
    &&& r.needs_full_parse == (r.identifiers_changed && !r.parsed_whole_document)
    &&& forall|j: int| co <= j < before.len() ==> moved_by(before[j], #[trigger] after[si + p + j - co],
        suffix_shift(before, plan.edits@, co))
}

/// The renderer `new_self` is `old_self` with the parsed blocks spliced in
/// place of the old ones they stand for, and `result` reports it.
pub open spec fn spliced_in(
    old_self: Renderer,
    new_self: Renderer,
    plan: ReparsePlan,
    parsed: Seq<Block>,
    reparsed_end: usize,
    convergence_old: int,
    next_id: u64,
    result: ApplyResult,
) -> bool {
    let before = old_self.blocks@;
    let after = new_self.blocks@;
    let si = plan.start_index as int;
    let co = convergence_old as int;
    let p = parsed.len() as int;
    let middle = before.subrange(si, co);
    let replaced = after.subrange(si, si + p);
    &&& after.len() == si + p + (before.len() - co)
    &&& after.take(si) == before.take(si)
    &&& forall|k: int| 0 <= k < p ==> same_but_id_html(parsed[k], #[trigger] replaced[k])
    &&& ids_of(replaced) == fix_ids(middle, parsed, walk_ids(middle, parsed, 0, 0, ids_of(parsed)), 0,
        if middle.len() < p { middle.len() as int } else { p })
    &&& html_list(replaced) == walk_html(middle, parsed, 0, 0, html_list(parsed), true)
    &&& forall|j: int| co <= j < before.len() ==> moved_by(before[j], #[trigger] after[si + p + j - co],
        suffix_shift(before, plan.edits@, co))
    &&& result.patches@.len() == spec_diff(middle, replaced, last_visible(before.take(si))).len()
    &&& forall|i: int| 0 <= i < result.patches@.len() ==> patch_is(#[trigger] result.patches@[i],
        spec_diff(middle, replaced, last_visible(before.take(si)))[i])
    &&& unique_ids(visible_entries(before)) && unique_ids(visible_entries(after))
        && same_order(visible_entries(before), visible_entries(after))
        ==> apply_patches(visible_entries(before), spec_diff(middle, replaced, last_visible(before.take(si))))
            == visible_entries(after)
    &&& result.version == new_self.version == old_self.version + 1
    &&& result.reparsed == (ByteRange { start: plan.start, end: reparsed_end })
    &&& new_self.source@ == plan.new_source@
    &&& new_self.checkpoints@ == spec_checkpoints(after)
    &&& new_self.next_id == next_id
    &&& new_self.trailing_html_newline == ends_with_newline(plan.new_source@)
    &&& !new_self.has_definitions
    &&& !new_self.whole_document
}

/// The blocks of the new document when the parsed blocks cannot be
/// spliced in place: copies of the old blocks before the reparse, the
/// parsed blocks with identities (and, unless their definitions changed,
/// HTML) taken from matching old ones, and copies of the old blocks after
/// convergence moved by the edits.
pub fn assemble(
    old: &Vec<Block>,
    plan: ReparsePlan,
    parsed: Vec<Block>,
    reparsed_end: usize,
    convergence_old: usize,
    next_id: u64,
) -> (r: SlowApply)
    requires
        old@.len() < usize::MAX,
        forall|i: int| 0 <= i < plan.edits@.len() ==> (#[trigger] plan.edits@[i]).start_byte <= plan.edits@[i].old_end_byte,
        plan.start_index <= convergence_old <= old@.len(),
        suffix_shiftable(old@, plan.edits@, convergence_old as int),
        plan.start_index + parsed@.len() + (old@.len() - convergence_old) < usize::MAX,
    ensures
        assembled(old@, plan, parsed@, reparsed_end, convergence_old as int, next_id, r),
{
    let parsed_map = crate::incremental::definitions::definition_map(parsed.as_slice());
    let definitions_changed = plan.global_references && definitions_differ_exec(&plan.old_definitions, &parsed_map);
    let mut blocks: Vec<Block> = Vec::new();
    let mut index: usize = 0;
    while index < plan.start_index
        invariant
            old@.len() < usize::MAX,
            plan.start_index <= convergence_old <= old@.len(),
            index <= plan.start_index,
            blocks@.len() == index,
            forall|i: int| 0 <= i < index ==> copy_of(old@[i], #[trigger] blocks@[i]),
        decreases plan.start_index - index,
    {
        blocks.push(copy_block(&old[index]));
        index += 1;
    }
    let mut middle: Vec<Block> = Vec::new();
    while index < convergence_old
        invariant
            old@.len() < usize::MAX,
            plan.start_index <= index <= convergence_old <= old@.len(),
            middle@.len() == index - plan.start_index,
            forall|i: int| 0 <= i < middle@.len() ==> copy_of(old@[plan.start_index + i], #[trigger] middle@[i]),
        decreases convergence_old - index,
    {
        middle.push(copy_block(&old[index]));
        index += 1;
    }
    let ghost prefix = blocks@;
    assert(middle@.len() <= old@.len());
    let mut parsed = parsed;
    let ghost unaligned = parsed@;
    crate::incremental::align::align_ids_preserving_html(&middle, &mut parsed, !definitions_changed);
    let ghost aligned = parsed@;
    let ghost copied_middle = middle@;
    proof {
        let kept = old@.subrange(plan.start_index as int, convergence_old as int);
        assert(copies(kept, copied_middle));
        let limit: int = if kept.len() < unaligned.len() { kept.len() as int } else { unaligned.len() as int };
        lemma_copies_walk(kept, copied_middle, unaligned, 0, 0, ids_of(unaligned), html_list(unaligned), !definitions_changed);
        lemma_copies_fix(kept, copied_middle, unaligned,
            walk_ids(kept, unaligned, 0, 0, ids_of(unaligned)), 0, limit);
    }
    blocks.append(&mut parsed);
    if convergence_old < old.len() {
        proof {
            assert(old@[convergence_old as int] == old@[convergence_old as int]);
        }
        let shift = crate::incremental::edit::delta_at_old_offset(plan.edits.as_slice(), old[convergence_old].start);
        let ghost d = suffix_shift(old@, plan.edits@, convergence_old as int);
        let ghost base = blocks@.len();
        let ghost fixed = blocks@;
        let mut j = convergence_old;
        while j < old.len()
            invariant
                convergence_old <= j <= old@.len(),
                d == suffix_shift(old@, plan.edits@, convergence_old as int),
                shift.0 == d.0,
                shift.1 == d.1,
                suffix_shiftable(old@, plan.edits@, convergence_old as int),
                blocks@.len() == base + j - convergence_old,
                forall|i: int| 0 <= i < base ==> #[trigger] blocks@[i] == fixed[i],
                forall|k: int| convergence_old <= k < j ==> moved_by(old@[k],
                    #[trigger] blocks@[base + k - convergence_old], d),
            decreases old.len() - j,
        {
            let mut block = copy_block(&old[j]);
            proof {
                assert(old@[j as int] == old@[j as int]);
            }
            block.start = crate::incremental::edit::add_delta(block.start, shift);
            block.end = crate::incremental::edit::add_delta(block.end, shift);
            blocks.push(block);
            j += 1;
        }
    }
    let ghost assembled_blocks = blocks@;
    proof {
        let si = plan.start_index as int;
        let p = unaligned.len() as int;
        assert(assembled_blocks.len() == si + p + (old@.len() - convergence_old));
        assert forall|i: int| 0 <= i < si implies copy_of(old@[i], #[trigger] assembled_blocks[i]) by {
            assert(assembled_blocks[i] == prefix[i]);
        }
        assert(assembled_blocks.subrange(si, si + p) =~= aligned);
    }
    let parsed_whole_document = plan.start_index == 0 && reparsed_end == plan.new_source.as_str().as_bytes().len();
    let new_ids = crate::incremental::definitions::definition_ids(blocks.as_slice());
    let mut old_ids: Vec<String> = Vec::new();
    let mut k: usize = 0;
    while k < plan.old_definitions.len()
        invariant
            k <= plan.old_definitions@.len(),
            strings_view(old_ids@) =~= keys(defs_view(plan.old_definitions@)).take(k as int),
        decreases plan.old_definitions.len() - k,
    {
        let ghost before = old_ids@;
        old_ids.push(plan.old_definitions[k].0.clone());
        proof {
            assert(strings_view(old_ids@) =~= strings_view(before).push(plan.old_definitions@[k as int].0@));
        }
        k += 1;
    }
    proof {
        assert(keys(defs_view(plan.old_definitions@)).take(plan.old_definitions@.len() as int)
            =~= keys(defs_view(plan.old_definitions@)));
    }
    let same = same_identifiers(&new_ids, &old_ids);
    let needs_full_parse = !same && !parsed_whole_document;
    let start_index = plan.start_index;
    SlowApply {
        plan,
        blocks,
        reparsed_end,
        next_id,
        parsed_whole_document,
        identifiers_changed: !same,
        needs_full_parse,
        checkpoints_start: start_index,
    }
}

/// Take the whole new document, parsed again into `fresh` because the
/// set of defined identifiers changed, as the new blocks; they take the
/// identities and HTML of matching old blocks.
pub fn adopt_full_parse(old: &Vec<Block>, slow: SlowApply, fresh: Vec<Block>, next_id: u64) -> (r: SlowApply)
    requires
        old@.len() < usize::MAX,
        fresh@.len() < usize::MAX,
    ensures
        adopted(old@, slow, fresh@, next_id, r),
        ids_placed(old@, slow.next_id) && slow.next_id <= next_id
            && blocks_placed(fresh@, encode_utf8(slow.plan.new_source@).len() as int, next_id)
            && (forall|i: int| 0 <= i < fresh@.len() ==> slow.next_id <= (#[trigger] fresh@[i]).id)
            ==> blocks_placed(r.blocks@, encode_utf8(slow.plan.new_source@).len() as int, next_id),
{
    let mut fresh = fresh;
    let ghost parsed = fresh@;
    crate::incremental::align::align_ids(old, &mut fresh);
    proof {
        let len = encode_utf8(slow.plan.new_source@).len() as int;
        if ids_placed(old@, slow.next_id) && slow.next_id <= next_id && blocks_placed(parsed, len, next_id)
            && (forall|i: int| 0 <= i < parsed.len() ==> slow.next_id <= (#[trigger] parsed[i]).id) {
            assert(old@.subrange(0, old@.len() as int) =~= old@);
            assert forall|i: int| 0 <= i < parsed.len() implies 0 <= (#[trigger] parsed[i]).start
                && slow.next_id <= parsed[i].id by {
            }
            crate::incremental::placement::lemma_middle_placed(old@, parsed, 0, old@.len() as int, fresh@, len,
                slow.next_id, next_id, 0, len);
        }
    }
    SlowApply {
        plan: slow.plan,
        blocks: fresh,
        reparsed_end: slow.reparsed_end,
        next_id,
        parsed_whole_document: slow.parsed_whole_document,
        identifiers_changed: false,
        needs_full_parse: false,
        checkpoints_start: 0,
    }
}

/// Every visible block is one of the blocks.
proof fn lemma_visible_in(blocks: Seq<Block>)
    ensures
        forall|x: int| 0 <= x < visible_blocks(blocks).len() ==> exists|k: int| 0 <= k < blocks.len()
            && #[trigger] visible_blocks(blocks)[x] == blocks[k],
    decreases blocks.len(),
{
    if blocks.len() > 0 {
        let prefix = blocks.drop_last();
        lemma_visible_in(prefix);
        let v = visible_blocks(prefix);
        let w = visible_blocks(blocks);
        assert forall|x: int| 0 <= x < w.len() implies exists|k: int| 0 <= k < blocks.len()
            && #[trigger] w[x] == blocks[k] by {
            if x < v.len() {
                assert(w[x] == v[x]);
                let k = choose|k: int| 0 <= k < prefix.len() && #[trigger] v[x] == prefix[k];
                assert(prefix[k] == blocks[k]);
            } else {
                assert(w[x] == blocks[blocks.len() - 1]);
            }
        }
    }
}

/// The visible blocks of placed blocks are placed: in bounds, in document
/// order without overlapping, with distinct identities.
pub proof fn lemma_visible_blocks_placed(blocks: Seq<Block>, len: int, next_id: u64)
    requires
        blocks_placed(blocks, len, next_id),
    ensures
        blocks_placed(visible_blocks(blocks), len, next_id),
    decreases blocks.len(),
{
    if blocks.len() > 0 {
        let prefix = blocks.drop_last();
        assert forall|i: int, j: int| 0 <= i < j < prefix.len() implies (#[trigger] prefix[i]).end <= (#[trigger] prefix[j]).start
            && prefix[i].id != prefix[j].id by {
            assert(prefix[i] == blocks[i] && prefix[j] == blocks[j]);
        }
        assert forall|i: int| 0 <= i < prefix.len() implies (#[trigger] prefix[i]).start <= prefix[i].end <= len
            && prefix[i].id < next_id by {
            assert(prefix[i] == blocks[i]);
        }
        lemma_visible_blocks_placed(prefix, len, next_id);
        lemma_visible_in(prefix);
        let v = visible_blocks(prefix);
        let w = visible_blocks(blocks);
        let last = blocks[blocks.len() - 1];
        if blocks.last().html@.len() > 0 {
            assert(w == v.push(last));
            assert forall|x: int| 0 <= x < w.len() implies (#[trigger] w[x]).start <= w[x].end <= len && w[x].id < next_id by {
                if x < v.len() {
                    assert(w[x] == v[x]);
                }
            }
            assert forall|x: int, y: int| 0 <= x < y < w.len() implies (#[trigger] w[x]).end <= (#[trigger] w[y]).start
                && w[x].id != w[y].id by {
                assert(w[x] == v[x]);
                if y < v.len() {
                    assert(w[y] == v[y]);
                } else {
                    let k = choose|k: int| 0 <= k < prefix.len() && #[trigger] v[x] == prefix[k];
                    assert(prefix[k] == blocks[k]);
                    assert(blocks[k].end <= blocks[blocks.len() - 1].start);
                }
            }
        }
    }
}

/// Placed blocks show distinct identities.
pub proof fn lemma_placed_unique(blocks: Seq<Block>, len: int, next_id: u64)
    requires
        blocks_placed(blocks, len, next_id),
    ensures
        unique_ids(visible_entries(blocks)),
{
    lemma_visible_blocks_placed(blocks, len, next_id);
    crate::incremental::patches::lemma_visible_blocks_entries(blocks);
    let v = visible_blocks(blocks);
    let e = visible_entries(blocks);
    assert forall|i: int, j: int| 0 <= i < j < e.len() implies (#[trigger] e[i]).0 != (#[trigger] e[j]).0 by {
        assert(e[i] == (v[i].id, v[i].html@));
        assert(e[j] == (v[j].id, v[j].html@));
    }
}

/// The checkpoints of placed blocks: the initial checkpoint, then one per
/// block, indexed in order, at offsets that never decrease and stay within
/// the document.
pub proof fn lemma_checkpoints_ordered(blocks: Seq<Block>, len: int, next_id: u64)
    requires
        blocks_placed(blocks, len, next_id),
        blocks.len() < usize::MAX,
        0 <= len,
    ensures
        ({
            let cs = spec_checkpoints(blocks);
            &&& cs.len() == blocks.len() + 1
            &&& cs[0] == crate::incremental::blocks::initial_checkpoint()
            &&& forall|i: int| 0 <= i < cs.len() ==> (#[trigger] cs[i]).block_index == i
            &&& forall|i: int, j: int| 0 <= i <= j < cs.len() ==> (#[trigger] cs[i]).byte_offset
                <= (#[trigger] cs[j]).byte_offset <= len
        }),
{
    let cs = spec_checkpoints(blocks);
    assert forall|i: int| 0 <= i < cs.len() implies (#[trigger] cs[i]).block_index == i by {
        if i > 0 {
            assert(cs[i] == crate::incremental::blocks::checkpoint_after(crate::incremental::fingerprint::FNV_OFFSET, blocks, 0, i - 1));
        }
    }
    assert forall|i: int, j: int| 0 <= i <= j < cs.len() implies (#[trigger] cs[i]).byte_offset
        <= (#[trigger] cs[j]).byte_offset <= len by {
        if j > 0 {
            assert(cs[j].byte_offset == blocks[j - 1].end);
            if i > 0 {
                assert(cs[i].byte_offset == blocks[i - 1].end);
                if i < j {
                    assert(blocks[i - 1].end <= blocks[j - 1].start);
                }
            }
        }
    }
}

/// Whether `parsed`, ending at `reparsed_end` and standing in for the old
/// blocks before `co`, is what a converged reparse gives: the window of a
/// candidate from the first one on, and blocks placed within it with fresh
/// identities from `old_next` up to below `next_id`.
pub open spec fn converged_parse(
    old: Seq<Block>,
    plan: ReparsePlan,
    parsed: Seq<Block>,
    reparsed_end: usize,
    co: int,
    old_next: u64,
    next_id: u64,
) -> bool {
    &&& plan.first_candidate <= co
    &&& reparsed_end == window_end(old, plan, co)
    &&& plan.start <= reparsed_end
    &&& blocks_placed(parsed, reparsed_end as int, next_id)
    &&& forall|i: int| 0 <= i < parsed.len() ==> plan.start <= (#[trigger] parsed[i]).start && old_next <= parsed[i].id
    &&& old_next <= next_id
}

/// Persistent incremental Markdown renderer.
pub struct Renderer {
    /// Current Markdown source.
    pub source: String,
    /// Parse and compile options.
    pub options: Options,
    /// Current document version.
    pub version: u64,
    /// Top-level blocks in document order.
    pub blocks: Vec<Block>,
    /// Parser checkpoints between the blocks.
    pub checkpoints: Vec<BlockCheckpoint>,
    /// Next block identity to hand out.
    pub next_id: u64,
    /// Whether the document is rendered as one block.
    pub whole_document: bool,
    /// Whether the complete HTML ends in a line ending.
    pub trailing_html_newline: bool,
    /// Whether some block provides a definition.
    pub has_definitions: bool,
}

impl Renderer {
    /// The renderer's invariant: the checkpoints are those of the blocks,
    /// and the blocks lie within the source in document order without
    /// overlapping, with distinct identities below the next one to hand out.
    pub open spec fn wf(&self) -> bool {
        &&& self.checkpoints@ == spec_checkpoints(self.blocks@)
        &&& self.blocks@.len() < usize::MAX
        &&& blocks_placed(self.blocks@, encode_utf8(self.source@).len() as int, self.next_id)
    }

    /// Open a renderer on `value`, given the blocks that parsing it gave
    /// (each holding its segment of the canonical HTML), the canonical HTML
    /// itself, and the next unused block identity.
    pub fn open_parsed(value: &str, options: Options, blocks: Vec<Block>, html: String, next_id: u64) -> (r: Self)
        requires
            blocks@.len() < usize::MAX,
            next_id < u64::MAX,
            blocks_placed(blocks@, value.spec_bytes().len() as int, next_id),
        ensures
            r.wf(),
            r.version == 0,
            r.source@ == value@,
            r.trailing_html_newline == ends_with_newline(html@),
            r.has_definitions == exists|i: int| 0 <= i < blocks@.len() && (#[trigger] blocks@[i]).definitions@.len() > 0,
            r.whole_document == exists|i: int| 0 <= i < blocks@.len() && (#[trigger] blocks@[i]).footnote,
            !r.whole_document ==> r.blocks@ == blocks@ && r.next_id == next_id,
            r.whole_document ==> {
                &&& r.blocks@.len() == 1
                &&& r.blocks@[0].id == next_id
                &&& r.next_id == next_id + 1
                &&& r.blocks@[0].start == 0
                &&& r.blocks@[0].end == value.spec_bytes().len()
                &&& r.blocks@[0].html@ == html@
                &&& r.blocks@[0].footnote
            },
            r.checkpoints@ == spec_checkpoints(r.blocks@),
    {
        let mut whole_document = false;
        let mut has_definitions = false;
        let mut index: usize = 0;
        while index < blocks.len()
            invariant
                index <= blocks@.len(),
                whole_document == exists|i: int| 0 <= i < index && (#[trigger] blocks@[i]).footnote,
                has_definitions == exists|i: int| 0 <= i < index && (#[trigger] blocks@[i]).definitions@.len() > 0,
            decreases blocks.len() - index,
        {
            if blocks[index].footnote {
                whole_document = true;
            }
            if blocks[index].definitions.len() > 0 {
                has_definitions = true;
            }
            index += 1;
        }
        let trailing_html_newline = crate::incremental::html::ends_with_line_feed(html.as_str());
        let mut id = next_id;
        let blocks = if whole_document {
            let block = crate::incremental::blocks::document_block(value, html, &mut id);
            vec![block]
        } else {
            blocks
        };
        let checkpoints = crate::incremental::blocks::make_checkpoints(blocks.as_slice());
        Renderer {
            source: value.to_string(),
            options,
            version: 0,
            blocks,
            checkpoints,
            next_id: id,
            whole_document,
            trailing_html_newline,
            has_definitions,
        }
    }

    /// Current document version.
    pub fn version(&self) -> (r: u64)
        ensures
            r == self.version,
    {
        self.version
    }

    /// Current Markdown source.
    pub fn source(&self) -> (r: &str)
        ensures
            r@ == self.source@,
    {
        self.source.as_str()
    }

    /// Current complete HTML: the visible blocks joined.
    pub fn html(&self) -> (r: String)
        ensures
            r@ == spec_join_html(self.blocks@, self.source@, self.trailing_html_newline),
    {
        crate::incremental::html::join_html(self.blocks.as_slice(), self.source.as_str(), self.trailing_html_newline)
    }

    /// Assemble the complete HTML from the block segments.
    pub fn segmented_html(&self) -> (r: String)
        ensures
            r@ == spec_join_html(self.blocks@, self.source@, self.trailing_html_newline),
    {
        crate::incremental::html::join_html(self.blocks.as_slice(), self.source.as_str(), self.trailing_html_newline)
    }

    /// Share the complete HTML.
    pub fn shared_html(&self) -> (r: std::sync::Arc<String>)
        ensures
            (*r)@ == spec_join_html(self.blocks@, self.source@, self.trailing_html_newline),
    {
        std::sync::Arc::new(crate::incremental::html::join_html(
            self.blocks.as_slice(),
            self.source.as_str(),
            self.trailing_html_newline,
        ))
    }

    /// Borrow the visible rendered blocks, in document order.
    pub fn block_refs(&self) -> (r: Vec<RenderedBlockRef<'_>>)
        ensures
            r@.len() == visible_blocks(self.blocks@).len(),
            forall|i: int| 0 <= i < r@.len() ==> {
                let b = visible_blocks(self.blocks@)[i];
                &&& (#[trigger] r@[i]).id@ == block_id_text(b.id)
                &&& r@[i].range == (ByteRange { start: b.start, end: b.end })
                &&& r@[i].html@ == b.html@
            },
    {
        let mut result: Vec<RenderedBlockRef<'_>> = Vec::new();
        let mut index: usize = 0;
        while index < self.blocks.len()
            invariant
                index <= self.blocks@.len(),
                result@.len() == visible_blocks(self.blocks@.take(index as int)).len(),
                forall|i: int| 0 <= i < result@.len() ==> {
                    let b = visible_blocks(self.blocks@.take(index as int))[i];
                    &&& (#[trigger] result@[i]).id@ == block_id_text(b.id)
                    &&& result@[i].range == (ByteRange { start: b.start, end: b.end })
                    &&& result@[i].html@ == b.html@
                },
            decreases self.blocks.len() - index,
        {
            let block = &self.blocks[index];
            proof {
                assert(self.blocks@.take(index + 1).drop_last() =~= self.blocks@.take(index as int));
                assert(self.blocks@.take(index + 1).last() == *block);
            }
            if !block.html.as_str().is_empty() {
                result.push(RenderedBlockRef {
                    id: crate::incremental::fingerprint::block_id_string(block.id),
                    range: ByteRange { start: block.start, end: block.end },
                    html: block.html.as_str(),
                });
            }
            index += 1;
        }
        proof {
            assert(self.blocks@.take(self.blocks@.len() as int) =~= self.blocks@);
        }
        result
    }

    /// Whether the complete HTML ends in a line ending.
    pub fn html_has_trailing_newline(&self) -> (r: bool)
        ensures
            r == self.trailing_html_newline,
            r ==> ends_with_newline(spec_join_html(self.blocks@, self.source@, self.trailing_html_newline)),
    {
        self.trailing_html_newline
    }

    /// Current parser checkpoints.
    pub fn checkpoints(&self) -> (r: &[BlockCheckpoint])
        ensures
            r@ == self.checkpoints@,
    {
        self.checkpoints.as_slice()
    }

    /// Validate an edit batch against the current document and plan its
    /// reparse: with definitions around, from the first block to the end.
    pub fn plan_apply(&self, batch: EditBatch) -> (r: Result<ReparsePlan, Message>)
        ensures
            r is Ok <==> batch_problem(encode_utf8(self.source@), self.version, batch) is None,
            r matches Err(m) ==> batch_problem(encode_utf8(self.source@), self.version, batch) matches Some(p)
                && m.reason@ == problem_reason(p, self.version, batch.base_version) && is_edit_message(m),
            r matches Ok(plan) ==> planned(self.source@, self.blocks@, self.has_definitions, true, batch.edits@, plan),
            r matches Ok(plan) ==> valid_edits(encode_utf8(self.source@), plan.edits@),
            r matches Ok(plan) ==> plan.start <= encode_utf8(plan.new_source@).len(),
            r matches Ok(plan) ==> (ends_sorted(self.blocks@) ==> plan_fits(self.blocks@, plan)),
            r matches Ok(plan) ==> (self.wf() ==> plan_fits(self.blocks@, plan)),
    {
        proof {
            if self.wf() {
                assert forall|i: int, j: int| 0 <= i <= j < self.blocks@.len()
                    implies (#[trigger] self.blocks@[i]).end <= (#[trigger] self.blocks@[j]).end by {
                    if i < j {
                        assert(self.blocks@[i].end <= self.blocks@[j].start);
                    }
                }
            }
        }
        plan_edits(self.source.as_str(), &self.blocks, self.version, self.has_definitions, true, batch)
    }

    /// For each new block, what becomes of its HTML: kept unless it must be
    /// rendered again; cleared when it provides definitions; else compiled
    /// from its source, with the definition sources appended when it
    /// references any.
    pub fn render_requests(&self, slow: &SlowApply) -> (r: Vec<BlockRender>)
        requires
            ranges_valid(encode_utf8(slow.plan.new_source@), slow.blocks@),
        ensures
            renders_planned(self.blocks@, *slow, r@),
    {
        let ghost bytes = encode_utf8(slow.plan.new_source@);
        let source = slow.plan.new_source.as_str();
        let blocks = slow.blocks.as_slice();
        proof {
            assert(crate::incremental::html::definition_ranges_valid(bytes, blocks@));
        }
        let definitions = crate::incremental::html::definition_sources(source, blocks);
        let changed_ids = crate::incremental::blocks::changed_block_ids(self.blocks.as_slice(), blocks);
        let changed_definitions = if slow.parsed_whole_document {
            Vec::new()
        } else {
            let current = crate::incremental::definitions::definition_map(blocks);
            crate::incremental::definitions::changed_definition_ids(&slow.plan.old_definitions, &current)
        };
        let mut result: Vec<BlockRender> = Vec::new();
        let mut index: usize = 0;
        while index < blocks.len()
            invariant
                bytes == encode_utf8(slow.plan.new_source@),
                bytes == source.spec_bytes(),
                blocks@ == slow.blocks@,
                ranges_valid(bytes, blocks@),
                encode_utf8(definitions@) == spec_definition_sources(bytes, blocks@),
                forall|id: u64| changed_ids.ids@.contains(id) <==> exists|i: int| 0 <= i < blocks@.len()
                    && (#[trigger] blocks@[i]).id == id && crate::incremental::blocks::block_changed(self.blocks@, blocks@[i]),
                forall|key: Seq<char>| strings_view(changed_definitions@).contains(key)
                    <==> definition_changed_in(*slow, key),
                index <= blocks@.len(),
                result@.len() == index,
                forall|i: int| 0 <= i < index ==> render_planned(self.blocks@, *slow, i, #[trigger] result@[i]),
            decreases blocks.len() - index,
        {
            let block = &blocks[index];
            let mut dependency_changed = false;
            let mut k: usize = 0;
            while k < block.references.len()
                invariant
                    k <= block.references@.len(),
                    forall|key: Seq<char>| strings_view(changed_definitions@).contains(key)
                        <==> definition_changed_in(*slow, key),
                    dependency_changed == exists|j: int| 0 <= j < k
                        && definition_changed_in(*slow, #[trigger] block.references@[j]@),
                decreases block.references.len() - k,
            {
                if crate::incremental::definitions::contains_string(&changed_definitions, &block.references[k]) {
                    dependency_changed = true;
                }
                k += 1;
            }
            let changed = changed_ids.contains(block.id);
            proof {
                assert(blocks@[index as int] == *block);
                assert(changed == id_changed(self.blocks@, slow.blocks@, block.id));
                assert(dependency_changed == exists|j: int| 0 <= j < block.references@.len()
                    && definition_changed_in(*slow, #[trigger] block.references@[j]@));
            }
            let render = (changed && block.html.as_str().is_empty()) || dependency_changed;
            let ghost before = result@;
            if !render {
                result.push(BlockRender::Keep);
            } else if block.definitions.len() > 0 {
                result.push(BlockRender::Clear);
            } else {
                let appended = definitions.as_str().as_bytes().len() > 0 && block.references.len() > 0;
                let own = crate::util::text::substring(source, block.start, block.end);
                let mut input = own.to_string();
                let ghost own_text = input@;
                if appended {
                    push_char(&mut input, '\n');
                    push_char(&mut input, '\n');
                    let ghost separated = input@;
                    input.append(definitions.as_str());
                    proof {
                        assert(separated =~= own_text + seq!['\n', '\n']);
                        lemma_encode_utf8_concat(own_text, seq!['\n', '\n']);
                        crate::incremental::html::lemma_encode_blank_line();
                        lemma_encode_utf8_concat(separated, definitions@);
                    }
                }
                result.push(BlockRender::Compile { input, appended });
            }
            proof {
                assert forall|i: int| 0 <= i < index + 1 implies render_planned(self.blocks@, *slow, i, #[trigger] result@[i]) by {
                    if i < index {
                        assert(result@[i] == before[i]);
                    }
                }
            }
            index += 1;
        }
        proof {
            assert(slow.blocks@.len() == result@.len());
        }
        result
    }

    /// Whether the whole document must be rendered as one block after the
    /// slow apply `slow`.
    pub open spec fn whole_after(&self, slow: SlowApply) -> bool {
        ||| self.whole_document
        ||| exists|i: int| 0 <= i < slow.blocks@.len() && needs_whole_document(#[trigger] slow.blocks@[i])
        ||| encode_utf8(slow.plan.new_source@).contains(13u8)
    }

    /// Whether the slow apply `slow` needs the canonical HTML of the whole
    /// new document.
    pub fn needs_canonical(&self, slow: &SlowApply) -> (r: bool)
        ensures
            r == self.whole_after(*slow),
    {
        self.whole_document || crate::incremental::blocks::requires_whole_document(slow.blocks.as_slice())
            || has_carriage_return(slow.plan.new_source.as_str())
    }

    /// Finish a slow apply: give each block the HTML that `renders` says,
    /// taking compiled HTML from `compiled`; render the document as one block
    /// when it needs it, from `canonical`; then diff against the old blocks
    /// and rebuild the checkpoints.
    pub fn commit_rendered(
        &mut self,
        slow: SlowApply,
        renders: Vec<BlockRender>,
        compiled: Vec<Option<String>>,
        canonical: Option<String>,
    ) -> (r: ApplyResult)
        requires
            old(self).wf(),
            old(self).version < u64::MAX,
            slow.blocks@.len() < usize::MAX,
            renders@.len() == slow.blocks@.len(),
            compiled@.len() == slow.blocks@.len(),
            forall|i: int| 0 <= i < renders@.len() ==> ((#[trigger] renders@[i]) is Compile <==> compiled@[i] is Some),
            old(self).whole_after(slow) ==> canonical is Some,
            old(self).whole_after(slow) && old(self).blocks@.len() == 0 ==> slow.next_id < u64::MAX,
            blocks_placed(slow.blocks@, encode_utf8(slow.plan.new_source@).len() as int, slow.next_id),
            old(self).next_id <= slow.next_id,
            forall|i: int| 0 <= i < slow.checkpoints_start ==> i < old(self).blocks@.len() && i < slow.blocks@.len()
                && (#[trigger] old(self).blocks@[i]).end == slow.blocks@[i].end
                && defs_view(old(self).blocks@[i].definitions@) == defs_view(slow.blocks@[i].definitions@),
        ensures
            final(self).wf(),
            unique_ids(visible_entries(old(self).blocks@)) && unique_ids(visible_entries(final(self).blocks@)),
            rendered(*old(self), slow, renders@, compiled@, canonical, *final(self), r),
    {
        let whole = self.needs_canonical(&slow);
        let ghost before = *self;
        let SlowApply { plan, blocks, reparsed_end, next_id, parsed_whole_document: _, identifiers_changed: _, needs_full_parse: _, checkpoints_start } = slow;
        let mut blocks = blocks;
        let mut next_id = next_id;
        let ghost unrendered = blocks@;
        let mut renders = renders;
        let mut compiled = compiled;
        let mut index: usize = 0;
        while index < blocks.len()
            invariant
                blocks@.len() == unrendered.len(),
                renders@.len() == unrendered.len(),
                compiled@.len() == unrendered.len(),
                index <= blocks@.len(),
                forall|i: int| 0 <= i < index ==> rendered_block(unrendered[i], renders@[i], compiled@[i], #[trigger] blocks@[i]),
                forall|i: int| index <= i < blocks@.len() ==> #[trigger] blocks@[i] == unrendered[i],
            decreases blocks.len() - index,
        {
            let ghost before = blocks@;
            match &renders[index] {
                BlockRender::Keep => {},
                BlockRender::Clear => {
                    blocks[index].html = String::new();
                },
                BlockRender::Compile { input: _, appended } => {
                    let html = match &compiled[index] {
                        Some(h) => h.clone(),
                        None => String::new(),
                    };
                    blocks[index].html = trim_rendered_exec(html, *appended);
                },
            }
            proof {
                assert forall|i: int| 0 <= i < index + 1 implies rendered_block(unrendered[i], renders@[i], compiled@[i], #[trigger] blocks@[i]) by {
                    if i < index {
                        assert(blocks@[i] == before[i]);
                    }
                }
                assert forall|i: int| index + 1 <= i < blocks@.len() implies #[trigger] blocks@[i] == unrendered[i] by {
                    assert(blocks@[i] == before[i]);
                }
            }
            index += 1;
        }
        let ghost html_done = blocks@;
        let mut checkpoints_start = checkpoints_start;
        let mut trailing = crate::incremental::html::ends_with_line_feed(plan.new_source.as_str());
        if whole {
            let html = match canonical {
                Some(h) => h,
                None => String::new(),
            };
            trailing = crate::incremental::html::ends_with_line_feed(html.as_str());
            let id = if self.blocks.len() > 0 {
                self.blocks[0].id
            } else {
                let id = next_id;
                next_id = next_id + 1;
                id
            };
            let fingerprint = crate::incremental::fingerprint::fingerprint(
                crate::incremental::blocks::DOCUMENT,
                plan.new_source.as_str().as_bytes(),
            );
            blocks = vec![Block {
                start: 0,
                end: plan.new_source.as_str().as_bytes().len(),
                id,
                fingerprint,
                kind: crate::incremental::blocks::BlockKind(crate::incremental::blocks::DOCUMENT),
                html,
                definitions: Vec::new(),
                references: Vec::new(),
                footnote: true,
            }];
            checkpoints_start = 0;
        }
        let patches = crate::incremental::patches::diff_blocks(self.blocks.as_slice(), blocks.as_slice());
        proof {
            if checkpoints_start > 0 {
                let last = checkpoints_start - 1;
                assert(self.blocks@[last as int].end == unrendered[last as int].end);
                assert(rendered_block(unrendered[last as int], renders@[last as int], compiled@[last as int], html_done[last as int]));
            }
            assert forall|i: int| 0 <= i < checkpoints_start implies (#[trigger] self.blocks@[i]).end == blocks@[i].end
                && defs_view(self.blocks@[i].definitions@) == defs_view(blocks@[i].definitions@) by {
                assert(self.blocks@[i].end == unrendered[i].end);
                assert(rendered_block(unrendered[i], renders@[i], compiled@[i], html_done[i]));
                assert(blocks@[i] == html_done[i]);
            }
            crate::incremental::blocks::lemma_update_checkpoints_rebuilds(self.blocks@, blocks@, checkpoints_start as int);
        }
        let checkpoints = crate::incremental::blocks::update_checkpoints(self.checkpoints.as_slice(), blocks.as_slice(), checkpoints_start);
        let definitions = crate::incremental::definitions::definition_map(blocks.as_slice());
        let ghost old_blocks = self.blocks@;
        proof {
            if unique_ids(visible_entries(old_blocks)) && unique_ids(visible_entries(blocks@))
                && same_order(visible_entries(old_blocks), visible_entries(blocks@)) {
                crate::incremental::patches::lemma_diff_rebuilds(old_blocks, blocks@);
            }
        }
        self.source = plan.new_source;
        self.version = self.version + 1;
        self.blocks = blocks;
        self.checkpoints = checkpoints;
        self.next_id = next_id;
        self.whole_document = whole;
        self.trailing_html_newline = trailing;
        self.has_definitions = definitions.len() > 0;
        proof {
            let len = encode_utf8(self.source@).len() as int;
            if whole {
                if before.blocks@.len() > 0 {
                    assert(before.blocks@[0].id < before.next_id);
                }
                assert(self.blocks@.len() == 1);
            } else {
                assert(self.blocks@ == html_done);
                assert forall|i: int| 0 <= i < html_done.len() implies (#[trigger] html_done[i]).start <= html_done[i].end <= len
                    && html_done[i].id < self.next_id by {
                    assert(rendered_block(unrendered[i], renders@[i], compiled@[i], html_done[i]));
                }
                assert forall|i: int, j: int| 0 <= i < j < html_done.len()
                    implies (#[trigger] html_done[i]).end <= (#[trigger] html_done[j]).start && html_done[i].id != html_done[j].id by {
                    assert(rendered_block(unrendered[i], renders@[i], compiled@[i], html_done[i]));
                    assert(rendered_block(unrendered[j], renders@[j], compiled@[j], html_done[j]));
                    assert(unrendered[i].end <= unrendered[j].start);
                }
            }
            lemma_placed_unique(before.blocks@, encode_utf8(before.source@).len() as int, before.next_id);
            lemma_placed_unique(self.blocks@, len, self.next_id);
        }
        ApplyResult {
            version: self.version,
            patches,
            reparsed: ByteRange { start: plan.start, end: reparsed_end },
        }
    }

    /// Whether the parsed blocks can be spliced in place: no definitions
    /// around, no whole-document rendering, no carriage return.
    pub open spec fn fast_path(&self, plan: ReparsePlan, parsed: Seq<Block>) -> bool {
        &&& !plan.global_references
        &&& !self.whole_document
        &&& !(exists|i: int| 0 <= i < parsed.len() && needs_whole_document(#[trigger] parsed[i]))
        &&& !encode_utf8(plan.new_source@).contains(13u8)
    }

    /// Fold the blocks parsed for a planned edit into the renderer. `parsed`
    /// covers the new source from `plan.start` to `reparsed_end` and stands
    /// in for the old blocks from `plan.start_index` to `convergence_old`;
    /// `next_id` is the next identity left unused by parsing.
    ///
    /// On the fast path the parsed blocks take the identities and HTML of
    /// matching old ones, the old blocks after them move by the edits, and
    /// the patches cover the replaced interval. Otherwise the renderer is
    /// left as it was and the assembled blocks are handed back for a full
    /// rendering pass.
    pub fn commit_apply(
        &mut self,
        plan: ReparsePlan,
        parsed: Vec<Block>,
        reparsed_end: usize,
        convergence_old: usize,
        next_id: u64,
    ) -> (r: Result<ApplyResult, SlowApply>)
        requires
            old(self).wf(),
            old(self).version < u64::MAX,
            planned(old(self).source@, old(self).blocks@, old(self).has_definitions, true, plan.edits@, plan),
            valid_edits(encode_utf8(old(self).source@), plan.edits@),
            plan.start_index <= convergence_old <= old(self).blocks@.len(),
            converged_parse(old(self).blocks@, plan, parsed@, reparsed_end, convergence_old as int, old(self).next_id, next_id),
            plan.start_index + parsed@.len() + (old(self).blocks@.len() - convergence_old) < usize::MAX,
        ensures
            r is Ok <==> old(self).fast_path(plan, parsed@),
            r is Ok ==> final(self).wf(),
            r is Ok ==> unique_ids(visible_entries(old(self).blocks@)) && unique_ids(visible_entries(final(self).blocks@)),
            r matches Ok(result) ==> spliced_in(*old(self), *final(self), plan, parsed@, reparsed_end, convergence_old as int, next_id, result),
            r matches Err(slow) ==> assembled(old(self).blocks@, plan, parsed@, reparsed_end, convergence_old as int, next_id, slow),
            r matches Err(slow) ==> blocks_placed(slow.blocks@, encode_utf8(plan.new_source@).len() as int, next_id),
            r is Err ==> *final(self) == *old(self),
    {
        let new_length = plan.new_source.as_str().as_bytes().len();
        let fast = !plan.global_references && !self.whole_document
            && !crate::incremental::blocks::requires_whole_document(parsed.as_slice())
            && !has_carriage_return(plan.new_source.as_str());
        proof {
            lemma_suffix_shiftable(self.source@, self.blocks@, self.has_definitions, true, plan,
                convergence_old as int, self.next_id);
        }
        if !fast {
            proof {
                assert forall|i: int| 0 <= i < plan.edits@.len() implies (#[trigger] plan.edits@[i]).start_byte
                    <= plan.edits@[i].old_end_byte by {
                    assert(valid_edits(encode_utf8(self.source@), plan.edits@));
                }
            }
            let ghost parsed_blocks = parsed@;
            let ghost the_plan = plan;
            let slow = assemble(&self.blocks, plan, parsed, reparsed_end, convergence_old, next_id);
            proof {
                let si = the_plan.start_index as int;
                assert forall|i: int| 0 <= i < si implies (#[trigger] slow.blocks@[i]).start == self.blocks@[i].start
                    && slow.blocks@[i].end == self.blocks@[i].end && slow.blocks@[i].id == self.blocks@[i].id by {
                    assert(copy_of(self.blocks@[i], slow.blocks@[i]));
                }
                assert forall|k: int| 0 <= k < parsed_blocks.len() implies (#[trigger] slow.blocks@[si + k]).start
                    == parsed_blocks[k].start && slow.blocks@[si + k].end == parsed_blocks[k].end by {
                    assert(slow.blocks@.subrange(si, si + parsed_blocks.len())[k] == slow.blocks@[si + k]);
                }
                lemma_replaced_placed(self.source@, self.blocks@, self.has_definitions, true, the_plan, parsed_blocks,
                    convergence_old as int, reparsed_end as int, self.next_id, next_id, slow.blocks@);
            }
            return Err(slow);
        }
        let ghost before = *self;
        let ghost parsed_blocks = parsed@;
        let ghost the_plan = plan;
        let result = self.splice_parsed(plan, parsed, reparsed_end, convergence_old, next_id);
        proof {
            let si = the_plan.start_index as int;
            assert forall|i: int| 0 <= i < si implies (#[trigger] self.blocks@[i]).start == before.blocks@[i].start
                && self.blocks@[i].end == before.blocks@[i].end && self.blocks@[i].id == before.blocks@[i].id by {
                assert(self.blocks@.take(si)[i] == before.blocks@.take(si)[i]);
            }
            assert forall|k: int| 0 <= k < parsed_blocks.len() implies (#[trigger] self.blocks@[si + k]).start
                == parsed_blocks[k].start && self.blocks@[si + k].end == parsed_blocks[k].end by {
                assert(self.blocks@.subrange(si, si + parsed_blocks.len())[k] == self.blocks@[si + k]);
            }
            lemma_replaced_placed(before.source@, before.blocks@, before.has_definitions, true, the_plan, parsed_blocks,
                convergence_old as int, reparsed_end as int, before.next_id, next_id, self.blocks@);
            lemma_placed_unique(before.blocks@, encode_utf8(before.source@).len() as int, before.next_id);
            lemma_placed_unique(self.blocks@, encode_utf8(self.source@).len() as int, self.next_id);
        }
        Ok(result)
    }

    /// Splice the parsed blocks in place of the old blocks they stand for.
    #[verifier::rlimit(30)]
    fn splice_parsed(
        &mut self,
        plan: ReparsePlan,
        parsed: Vec<Block>,
        reparsed_end: usize,
        convergence_old: usize,
        next_id: u64,
    ) -> (result: ApplyResult)
        requires
            old(self).wf(),
            old(self).version < u64::MAX,
            valid_edits(encode_utf8(old(self).source@), plan.edits@),
            plan.start_index <= convergence_old <= old(self).blocks@.len(),
            suffix_shiftable(old(self).blocks@, plan.edits@, convergence_old as int),
            plan.start_index + parsed@.len() + (old(self).blocks@.len() - convergence_old) < usize::MAX,
            !old(self).whole_document,
        ensures
            final(self).checkpoints@ == spec_checkpoints(final(self).blocks@),
            final(self).blocks@.len() < usize::MAX,
            spliced_in(*old(self), *final(self), plan, parsed@, reparsed_end, convergence_old as int, next_id, result),
    {
        let ghost before = self.blocks@;
        let mut all: Vec<Block> = Vec::new();
        std::mem::swap(&mut all, &mut self.blocks);
        let mut suffix = all.split_off(convergence_old);
        let middle = all.split_off(plan.start_index);
        let mut blocks = all;
        proof {
            assert(blocks@ =~= before.take(plan.start_index as int));
            assert(middle@ =~= before.subrange(plan.start_index as int, convergence_old as int));
            assert(suffix@ =~= before.subrange(convergence_old as int, before.len() as int));
        }
        let mut parsed = parsed;
        let ghost unaligned = parsed@;
        crate::incremental::align::align_ids(&middle, &mut parsed);
        let after = last_visible_id(blocks.as_slice());
        let patches = crate::incremental::patches::diff_interval(middle.as_slice(), parsed.as_slice(), after);
        if suffix.len() > 0 {
            proof {
                assert(suffix@[0] == before[convergence_old as int]);
            }
            proof {
                assert forall|i: int| 0 <= i < plan.edits@.len() implies (#[trigger] plan.edits@[i]).start_byte
                    <= plan.edits@[i].old_end_byte by {
                    assert(valid_edits(encode_utf8(old(self).source@), plan.edits@));
                }
            }
            let shift = crate::incremental::edit::delta_at_old_offset(plan.edits.as_slice(), suffix[0].start);
            proof {
                assert forall|j: int| 0 <= j < suffix@.len() implies {
                    &&& shift.1 <= (#[trigger] suffix@[j]).start
                    &&& shift.1 <= suffix@[j].end
                    &&& suffix@[j].start - shift.1 + shift.0 <= usize::MAX
                    &&& suffix@[j].end - shift.1 + shift.0 <= usize::MAX
                } by {
                    assert(suffix@[j] == before[convergence_old + j]);
                }
            }
            shift_blocks(&mut suffix, shift);
        }
        let ghost replaced = parsed@;
        let ghost moved = suffix@;
        blocks.append(&mut parsed);
        blocks.append(&mut suffix);
        proof {
            assert forall|i: int| 0 <= i < plan.start_index implies (#[trigger] before[i]).end == blocks@[i].end
                && defs_view(before[i].definitions@) == defs_view(blocks@[i].definitions@) by {
                assert(blocks@[i] == before[i]);
            }
            crate::incremental::blocks::lemma_update_checkpoints_rebuilds(before, blocks@, plan.start_index as int);
        }
        let checkpoints = crate::incremental::blocks::update_checkpoints(
            self.checkpoints.as_slice(),
            blocks.as_slice(),
            plan.start_index,
        );
        let trailing = crate::incremental::html::ends_with_line_feed(plan.new_source.as_str());
        self.source = plan.new_source;
        self.version = self.version + 1;
        self.blocks = blocks;
        self.checkpoints = checkpoints;
        self.next_id = next_id;
        self.trailing_html_newline = trailing;
        self.has_definitions = false;
        proof {
            let si = plan.start_index as int;
            let p = unaligned.len() as int;
            assert(self.blocks@.subrange(si, si + p) =~= replaced);
            assert(self.blocks@.take(si) =~= before.take(si));
            assert forall|j: int| convergence_old <= j < before.len() implies moved_by(before[j],
                #[trigger] self.blocks@[si + p + j - convergence_old], suffix_shift(before, plan.edits@, convergence_old as int)) by {
                assert(self.blocks@[si + p + j - convergence_old] == moved[j - convergence_old]);
                assert(middle@.len() == convergence_old - si);
            }
            let after = self.blocks@;
            if unique_ids(visible_entries(before)) && unique_ids(visible_entries(after))
                && same_order(visible_entries(before), visible_entries(after)) {
                assert forall|i: int| 0 <= i < si implies (#[trigger] after[i]).id == before[i].id
                    && after[i].html@ == before[i].html@ by {
                    assert(after.take(si)[i] == before.take(si)[i]);
                }
                assert forall|j: int| convergence_old <= j < before.len() implies (#[trigger] after[si + p + j - convergence_old]).id
                    == before[j].id && after[si + p + j - convergence_old].html@ == before[j].html@ by {
                    assert(moved_by(before[j], after[si + p + j - convergence_old], suffix_shift(before, plan.edits@, convergence_old as int)));
                }
                crate::incremental::patches::lemma_interval_diff(before, after, si, convergence_old as int, p);
                lemma_last_visible(before.take(si));
                crate::incremental::patches::lemma_diff_rebuilds(before, after);
            }
        }
        ApplyResult {
            version: self.version,
            patches,
            reparsed: ByteRange { start: plan.start, end: reparsed_end },
        }
    }

    /// Visible rendered blocks in document order.
    pub fn blocks(&self) -> (r: Vec<RenderedBlock>)
        ensures
            r@.len() == visible_blocks(self.blocks@).len(),
            forall|i: int| 0 <= i < r@.len() ==> {
                let b = visible_blocks(self.blocks@)[i];
                &&& (#[trigger] r@[i]).id@ == block_id_text(b.id)
                &&& r@[i].range == (ByteRange { start: b.start, end: b.end })
                &&& r@[i].html@ == b.html@
            },
    {
        let mut result: Vec<RenderedBlock> = Vec::new();
        let mut index: usize = 0;
        while index < self.blocks.len()
            invariant
                index <= self.blocks@.len(),
                result@.len() == visible_blocks(self.blocks@.take(index as int)).len(),
                forall|i: int| 0 <= i < result@.len() ==> {
                    let b = visible_blocks(self.blocks@.take(index as int))[i];
                    &&& (#[trigger] result@[i]).id@ == block_id_text(b.id)
                    &&& result@[i].range == (ByteRange { start: b.start, end: b.end })
                    &&& result@[i].html@ == b.html@
                },
            decreases self.blocks.len() - index,
        {
            let block = &self.blocks[index];
            proof {
                assert(self.blocks@.take(index + 1).drop_last() =~= self.blocks@.take(index as int));
                assert(self.blocks@.take(index + 1).last() == *block);
            }
            if !block.html.as_str().is_empty() {
                result.push(RenderedBlock {
                    id: crate::incremental::fingerprint::block_id_string(block.id),
                    range: ByteRange { start: block.start, end: block.end },
                    html: block.html.clone(),
                });
            }
            index += 1;
        }
        proof {
            assert(self.blocks@.take(self.blocks@.len() as int) =~= self.blocks@);
        }
        result
    }
}

} // verus!
