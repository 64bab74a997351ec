//! The persistent incremental syntax-tree session: a document and its
//! top-level blocks, updated one edit batch at a time.
//!
//! Parsing is the caller's: `plan_apply` says what an edit batch needs
//! reparsed, `reparse_step` drives the parser, `assemble_apply` folds the
//! parsed blocks in, and `commit` makes the result current. Nothing before
//! `commit` changes the session, so a failed parse leaves it as it was.

use vstd::prelude::*;
use vstd::utf8::encode_utf8;
use crate::configuration::ParseOptions;
use crate::incremental::{AstApplyResult, AstApplySummary, ByteRange, EditBatch};
use crate::incremental::blocks::Block;
use crate::incremental::edit::{batch_problem, is_edit_message, problem_reason, valid_edits};
use crate::incremental::fingerprint::{block_id_string, block_id_text, lemma_block_id_text_injective};
use crate::incremental::reparse::{ReparsePlan, plan_fits};
use crate::incremental::renderer::{SlowApply, assembled, converged_parse, copy_of, ends_sorted, id_changed, planned};
use crate::incremental::placement::{blocks_placed, lemma_replaced_placed, lemma_suffix_shiftable};
use crate::message::Message;

verus! {

/// The identities of the blocks `0..k` of `blocks` whose identity is (when
/// `changed`) or is not (otherwise) that of a new or changed block.
pub open spec fn ids_where(old: Seq<Block>, blocks: Seq<Block>, k: int, changed: bool) -> Seq<u64>
    decreases k,
{
    if k <= 0 || k > blocks.len() {
        Seq::empty()
    } else {
        let before = ids_where(old, blocks, k - 1, changed);
        if id_changed(old, blocks, blocks[k - 1].id) == changed {
            before.push(blocks[k - 1].id)
        } else {
            before
        }
    }
}

/// Every identity listed by `ids_where` is, or is not, changed as asked.
pub proof fn lemma_ids_where(old: Seq<Block>, blocks: Seq<Block>, k: int, changed: bool)
    requires
        0 <= k <= blocks.len(),
    ensures
        forall|j: int| 0 <= j < ids_where(old, blocks, k, changed).len()
            ==> id_changed(old, blocks, #[trigger] ids_where(old, blocks, k, changed)[j]) == changed,
    decreases k,
{
    if k > 0 {
        lemma_ids_where(old, blocks, k - 1, changed);
        let before = ids_where(old, blocks, k - 1, changed);
        assert forall|j: int| 0 <= j < ids_where(old, blocks, k, changed).len()
            implies id_changed(old, blocks, #[trigger] ids_where(old, blocks, k, changed)[j]) == changed by {
            if j < before.len() {
                assert(ids_where(old, blocks, k, changed)[j] == before[j]);
            }
        }
    }
}

/// The block identities as strings.
pub open spec fn id_texts(ids: Seq<u64>) -> Seq<Seq<char>> {
    Seq::new(ids.len(), |i: int| block_id_text(ids[i]))
}

/// Persistent incremental Markdown/MDX syntax tree.
pub struct AstSession {
    /// Current source.
    pub source: String,
    /// Parse options.
    pub options: ParseOptions,
    /// Current document version.
    pub version: u64,
    /// Top-level blocks in document order.
    pub blocks: Vec<Block>,
    /// Next block identity to hand out.
    pub next_id: u64,
}

/// Read-only view of the blocks of a document.
pub struct AstSnapshot<'a> {
    /// Snapshot source.
    pub source: &'a str,
    /// Blocks in document order.
    pub blocks: &'a [Block],
}

/// Borrowed metadata for one top-level block.
pub struct AstBlock<'a> {
    /// The block.
    pub block: &'a Block,
}

impl<'a> AstBlock<'a> {
    /// Stable identity.
    pub fn id(&self) -> (r: String)
        ensures
            r@ == block_id_text(self.block.id),
    {
        block_id_string(self.block.id)
    }

    /// Source range in the snapshot.
    pub fn range(&self) -> (r: ByteRange)
        ensures
            r == (ByteRange { start: self.block.start, end: self.block.end }),
    {
        ByteRange { start: self.block.start, end: self.block.end }
    }

    /// Content and syntax fingerprint used for cache validation.
    pub fn fingerprint(&self) -> (r: u64)
        ensures
            r == self.block.fingerprint,
    {
        self.block.fingerprint
    }
}

impl<'a> AstSnapshot<'a> {
    /// Snapshot source.
    pub fn source(&self) -> (r: &str)
        ensures
            r@ == self.source@,
    {
        self.source
    }

    /// Metadata of each block, in order.
    pub fn blocks(&self) -> (r: Vec<AstBlock<'a>>)
        ensures
            r@.len() == self.blocks@.len(),
            forall|i: int| 0 <= i < r@.len() ==> *(#[trigger] r@[i]).block == self.blocks@[i],
    {
        let mut result: Vec<AstBlock<'a>> = Vec::new();
        let mut index: usize = 0;
        while index < self.blocks.len()
            invariant
                index <= self.blocks@.len(),
                result@.len() == index,
                forall|i: int| 0 <= i < index ==> *(#[trigger] result@[i]).block == self.blocks@[i],
            decreases self.blocks.len() - index,
        {
            result.push(AstBlock { block: &self.blocks[index] });
            index += 1;
        }
        result
    }

    /// Number of blocks.
    pub fn block_count(&self) -> (r: usize)
        ensures
            r == self.blocks@.len(),
    {
        self.blocks.len()
    }

    /// Whether some block provides or references a definition, or holds a
    /// footnote, so that compiling needs document-wide state.
    pub fn has_global_dependencies(&self) -> (r: bool)
        ensures
            r == exists|i: int| 0 <= i < self.blocks@.len() && ({
                let b = #[trigger] self.blocks@[i];
                b.definitions@.len() > 0 || b.references@.len() > 0 || b.footnote
            }),
    {
        let mut index: usize = 0;
        while index < self.blocks.len()
            invariant
                index <= self.blocks@.len(),
                forall|i: int| 0 <= i < index ==> {
                    let b = #[trigger] self.blocks@[i];
                    !(b.definitions@.len() > 0 || b.references@.len() > 0 || b.footnote)
                },
            decreases self.blocks.len() - index,
        {
            let b = &self.blocks[index];
            if b.definitions.len() > 0 || b.references.len() > 0 || b.footnote {
                proof {
                    assert(self.blocks@[index as int] == *b);
                }
                return true;
            }
            index += 1;
        }
        false
    }
}

impl AstSession {
    /// The session's invariant: the blocks lie within the source in document
    /// order without overlapping, with distinct identities below the next one
    /// to hand out.
    pub open spec fn wf(&self) -> bool {
        &&& self.blocks@.len() < usize::MAX
        &&& blocks_placed(self.blocks@, encode_utf8(self.source@).len() as int, self.next_id)
    }

    /// Open a session on `value`, given the blocks that parsing it gave and
    /// the next unused block identity.
    pub fn open_parsed(value: &str, options: ParseOptions, blocks: Vec<Block>, next_id: u64) -> (r: Self)
        requires
            blocks@.len() < usize::MAX,
            blocks_placed(blocks@, encode_utf8(value@).len() as int, next_id),
        ensures
            r.wf(),
            r.version == 0,
            r.source@ == value@,
            r.blocks@ == blocks@,
            r.next_id == next_id,
    {
        AstSession { source: value.to_string(), options, version: 0, blocks, next_id }
    }

    /// Current document version.
    pub fn version(&self) -> (r: u64)
        ensures
            r == self.version,
    {
        self.version
    }

    /// Current source.
    pub fn source(&self) -> (r: &str)
        ensures
            r@ == self.source@,
    {
        self.source.as_str()
    }

    /// Stable identities of the blocks, in order.
    pub fn block_ids(&self) -> (r: Vec<String>)
        ensures
            r@.len() == self.blocks@.len(),
            forall|i: int| 0 <= i < r@.len() ==> (#[trigger] r@[i])@ == block_id_text(self.blocks@[i].id),
    {
        let mut result: Vec<String> = Vec::new();
        let mut index: usize = 0;
        while index < self.blocks.len()
            invariant
                index <= self.blocks@.len(),
                result@.len() == index,
                forall|i: int| 0 <= i < index ==> (#[trigger] result@[i])@ == block_id_text(self.blocks@[i].id),
            decreases self.blocks.len() - index,
        {
            result.push(block_id_string(self.blocks[index].id));
            index += 1;
        }
        result
    }

    /// Read-only view of the current blocks.
    pub fn snapshot(&self) -> (r: AstSnapshot<'_>)
        ensures
            r.source@ == self.source@,
            r.blocks@ == self.blocks@,
            self.wf() ==> blocks_placed(r.blocks@, encode_utf8(r.source@).len() as int, self.next_id),
    {
        AstSnapshot { source: self.source.as_str(), blocks: self.blocks.as_slice() }
    }

    /// Validate an edit batch against the current document and plan its
    /// reparse from the block before the first edit.
    pub fn plan_apply(&self, batch: EditBatch) -> (r: Result<ReparsePlan, Message>)
        ensures
            r is Ok <==> batch_problem(encode_utf8(self.source@), self.version, batch) is None,
            r matches Err(m) ==> batch_problem(encode_utf8(self.source@), self.version, batch) matches Some(p)
                && m.reason@ == problem_reason(p, self.version, batch.base_version) && is_edit_message(m),
            r matches Ok(plan) ==> planned(self.source@, self.blocks@, true, false, batch.edits@, plan),
            r matches Ok(plan) ==> valid_edits(encode_utf8(self.source@), plan.edits@),
            r matches Ok(plan) ==> plan.start <= encode_utf8(plan.new_source@).len(),
            r matches Ok(plan) ==> (ends_sorted(self.blocks@) ==> plan_fits(self.blocks@, plan)),
            r matches Ok(plan) ==> (self.wf() ==> plan_fits(self.blocks@, plan)),
    {
        proof {
            if self.wf() {
                assert forall|i: int, j: int| 0 <= i <= j < self.blocks@.len()
                    implies (#[trigger] self.blocks@[i]).end <= (#[trigger] self.blocks@[j]).end by {
                    if i < j {
                        assert(self.blocks@[i].end <= self.blocks@[j].start);
                    }
                }
            }
        }
        crate::incremental::renderer::plan_edits(self.source.as_str(), &self.blocks, self.version, true, false, batch)
    }

    /// The new blocks for the parsed ones: copies of the old blocks before
    /// the reparse, the parsed blocks with the identities of matching old
    /// ones, and the old blocks after convergence moved by the edits. When
    /// `identifiers_changed` holds, the whole document must be parsed again
    /// and taken in with `adopt_full_parse`.
    pub fn assemble_apply(
        &self,
        plan: ReparsePlan,
        parsed: Vec<Block>,
        reparsed_end: usize,
        convergence_old: usize,
        next_id: u64,
    ) -> (r: SlowApply)
        requires
            self.wf(),
            planned(self.source@, self.blocks@, true, false, plan.edits@, plan),
            valid_edits(encode_utf8(self.source@), plan.edits@),
            plan.start_index <= convergence_old <= self.blocks@.len(),
            converged_parse(self.blocks@, plan, parsed@, reparsed_end, convergence_old as int, self.next_id, next_id),
            plan.start_index + parsed@.len() + (self.blocks@.len() - convergence_old) < usize::MAX,
        ensures
            assembled(self.blocks@, plan, parsed@, reparsed_end, convergence_old as int, next_id, r),
            blocks_placed(r.blocks@, encode_utf8(plan.new_source@).len() as int, next_id),
            !r.plan.global_references,
    {
        let new_length = plan.new_source.as_str().as_bytes().len();
        proof {
            assert forall|i: int| 0 <= i < plan.edits@.len() implies (#[trigger] plan.edits@[i]).start_byte
                <= plan.edits@[i].old_end_byte by {
                assert(valid_edits(encode_utf8(self.source@), plan.edits@));
            }
            lemma_suffix_shiftable(self.source@, self.blocks@, true, false, plan, convergence_old as int, self.next_id);
        }
        let ghost parsed_blocks = parsed@;
        let ghost the_plan = plan;
        let slow = crate::incremental::renderer::assemble(&self.blocks, plan, parsed, reparsed_end, convergence_old, next_id);
        proof {
            let si = the_plan.start_index as int;
            assert forall|i: int| 0 <= i < si implies (#[trigger] slow.blocks@[i]).start == self.blocks@[i].start
                && slow.blocks@[i].end == self.blocks@[i].end && slow.blocks@[i].id == self.blocks@[i].id by {
                assert(copy_of(self.blocks@[i], slow.blocks@[i]));
            }
            assert forall|k: int| 0 <= k < parsed_blocks.len() implies (#[trigger] slow.blocks@[si + k]).start
                == parsed_blocks[k].start && slow.blocks@[si + k].end == parsed_blocks[k].end by {
                assert(slow.blocks@.subrange(si, si + parsed_blocks.len())[k] == slow.blocks@[si + k]);
            }
            lemma_replaced_placed(self.source@, self.blocks@, true, false, the_plan, parsed_blocks,
                convergence_old as int, reparsed_end as int, self.next_id, next_id, slow.blocks@);
        }
        slow
    }

    /// Make the assembled blocks current, reporting which block identities
    /// changed and which were reused, in document order.
    pub fn commit(&mut self, slow: SlowApply) -> (r: AstApplyResult)
        requires
            old(self).version < u64::MAX,
            slow.blocks@.len() < usize::MAX,
            blocks_placed(slow.blocks@, encode_utf8(slow.plan.new_source@).len() as int, slow.next_id),
        ensures
            final(self).wf(),
            final(self).version == old(self).version + 1,
            r.version == final(self).version,
            final(self).source@ == slow.plan.new_source@,
            final(self).blocks@ == slow.blocks@,
            final(self).next_id == slow.next_id,
            final(self).options == old(self).options,
            r.reparsed == (ByteRange { start: slow.plan.start, end: slow.reparsed_end }),
            r.changed@.len() == ids_where(old(self).blocks@, slow.blocks@, slow.blocks@.len() as int, true).len(),
            forall|j: int| 0 <= j < r.changed@.len() ==> (#[trigger] r.changed@[j])@
                == block_id_text(ids_where(old(self).blocks@, slow.blocks@, slow.blocks@.len() as int, true)[j]),
            r.reused@.len() == ids_where(old(self).blocks@, slow.blocks@, slow.blocks@.len() as int, false).len(),
            forall|j: int| 0 <= j < r.reused@.len() ==> (#[trigger] r.reused@[j])@
                == block_id_text(ids_where(old(self).blocks@, slow.blocks@, slow.blocks@.len() as int, false)[j]),
            forall|a: int, b: int| 0 <= a < r.changed@.len() && 0 <= b < r.reused@.len()
                ==> (#[trigger] r.changed@[a])@ != (#[trigger] r.reused@[b])@,
    {
        let (changed, reused) = self.changed_and_reused(&slow.blocks, true);
        let SlowApply { plan, blocks, reparsed_end, next_id, .. } = slow;
        self.source = plan.new_source;
        self.version = self.version + 1;
        self.blocks = blocks;
        self.next_id = next_id;
        AstApplyResult {
            version: self.version,
            changed,
            reused,
            reparsed: ByteRange { start: plan.start, end: reparsed_end },
        }
    }

    /// Make the assembled blocks current, reporting only the changed block
    /// identities and how many blocks were reused.
    pub fn commit_changed_only(&mut self, slow: SlowApply) -> (r: AstApplySummary)
        requires
            old(self).version < u64::MAX,
            slow.blocks@.len() < usize::MAX,
            blocks_placed(slow.blocks@, encode_utf8(slow.plan.new_source@).len() as int, slow.next_id),
        ensures
            final(self).wf(),
            final(self).version == old(self).version + 1,
            r.version == final(self).version,
            final(self).source@ == slow.plan.new_source@,
            final(self).blocks@ == slow.blocks@,
            final(self).next_id == slow.next_id,
            r.reparsed == (ByteRange { start: slow.plan.start, end: slow.reparsed_end }),
            r.changed@.len() == ids_where(old(self).blocks@, slow.blocks@, slow.blocks@.len() as int, true).len(),
            forall|j: int| 0 <= j < r.changed@.len() ==> (#[trigger] r.changed@[j])@
                == block_id_text(ids_where(old(self).blocks@, slow.blocks@, slow.blocks@.len() as int, true)[j]),
            r.reused_count == slow.blocks@.len() - r.changed@.len(),
    {
        let (changed, _) = self.changed_and_reused(&slow.blocks, false);
        proof {
            lemma_ids_where_len(self.blocks@, slow.blocks@, slow.blocks@.len() as int);
        }
        let SlowApply { plan, blocks, reparsed_end, next_id, .. } = slow;
        self.source = plan.new_source;
        self.version = self.version + 1;
        let count = blocks.len() - changed.len();
        self.blocks = blocks;
        self.next_id = next_id;
        AstApplySummary {
            version: self.version,
            changed,
            reused_count: count,
            reparsed: ByteRange { start: plan.start, end: reparsed_end },
        }
    }

    /// The identities of the new blocks that changed and, when asked, of
    /// those reused, in document order.
    fn changed_and_reused(&self, blocks: &Vec<Block>, report_reused: bool) -> (r: (Vec<String>, Vec<String>))
        ensures
            r.0@.len() == ids_where(self.blocks@, blocks@, blocks@.len() as int, true).len(),
            forall|j: int| 0 <= j < r.0@.len() ==> (#[trigger] r.0@[j])@
                == block_id_text(ids_where(self.blocks@, blocks@, blocks@.len() as int, true)[j]),
            report_reused ==> r.1@.len() == ids_where(self.blocks@, blocks@, blocks@.len() as int, false).len(),
            report_reused ==> forall|j: int| 0 <= j < r.1@.len() ==> (#[trigger] r.1@[j])@
                == block_id_text(ids_where(self.blocks@, blocks@, blocks@.len() as int, false)[j]),
            !report_reused ==> r.1@.len() == 0,
            forall|a: int, b: int| 0 <= a < r.0@.len() && 0 <= b < r.1@.len()
                ==> (#[trigger] r.0@[a])@ != (#[trigger] r.1@[b])@,
    {
        let set = crate::incremental::blocks::changed_block_ids(self.blocks.as_slice(), blocks.as_slice());
        let mut changed: Vec<String> = Vec::new();
        let mut reused: Vec<String> = Vec::new();
        let mut index: usize = 0;
        while index < blocks.len()
            invariant
                index <= blocks@.len(),
                forall|id: u64| set.ids@.contains(id) <==> id_changed(self.blocks@, blocks@, id),
                changed@.len() == ids_where(self.blocks@, blocks@, index as int, true).len(),
                forall|j: int| 0 <= j < changed@.len() ==> (#[trigger] changed@[j])@
                    == block_id_text(ids_where(self.blocks@, blocks@, index as int, true)[j]),
                report_reused ==> reused@.len() == ids_where(self.blocks@, blocks@, index as int, false).len(),
                report_reused ==> forall|j: int| 0 <= j < reused@.len() ==> (#[trigger] reused@[j])@
                    == block_id_text(ids_where(self.blocks@, blocks@, index as int, false)[j]),
                !report_reused ==> reused@.len() == 0,
            decreases blocks.len() - index,
        {
            let id = blocks[index].id;
            if set.contains(id) {
                changed.push(block_id_string(id));
            } else if report_reused {
                reused.push(block_id_string(id));
            }
            index += 1;
        }
        proof {
            let n = blocks@.len() as int;
            lemma_ids_where(self.blocks@, blocks@, n, true);
            lemma_ids_where(self.blocks@, blocks@, n, false);
            assert forall|a: int, b: int| 0 <= a < changed@.len() && 0 <= b < reused@.len()
                implies (#[trigger] changed@[a])@ != (#[trigger] reused@[b])@ by {
                let x = ids_where(self.blocks@, blocks@, n, true)[a];
                let y = ids_where(self.blocks@, blocks@, n, false)[b];
                assert(id_changed(self.blocks@, blocks@, x));
                assert(!id_changed(self.blocks@, blocks@, y));
                if changed@[a]@ == reused@[b]@ {
                    lemma_block_id_text_injective(x, y);
                }
            }
        }
        (changed, reused)
    }
}

/// The changed and the reused identities together list every block.
proof fn lemma_ids_where_len(old: Seq<Block>, blocks: Seq<Block>, k: int)
    requires
        0 <= k <= blocks.len(),
    ensures
        ids_where(old, blocks, k, true).len() + ids_where(old, blocks, k, false).len() == k,
    decreases k,
{
    if k > 0 {
        lemma_ids_where_len(old, blocks, k - 1);
    }
}

} // verus!
