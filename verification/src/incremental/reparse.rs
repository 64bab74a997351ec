//! The reparse window: where reparsing after an edit starts, how far each
//! attempt reaches, and when the new blocks have converged with the old ones.
//!
//! Parsing itself is done by the caller: `reparse_step` says which window to
//! parse next and takes back what the parser gave for it.

use vstd::prelude::*;
use vstd::utf8::{encode_utf8, is_char_boundary};
use crate::incremental::Edit;
use crate::incremental::blocks::Block;
use crate::message::Message;

verus! {

broadcast use vstd::string::group_string_axioms;

/// What an edit batch needs reparsed, worked out before any parsing.
pub struct ReparsePlan {
    /// The document with the edits applied.
    pub new_source: String,
    /// The edits, sorted and nonoverlapping.
    pub edits: Vec<Edit>,
    /// Index of the first old block that is reparsed.
    pub start_index: usize,
    /// Byte at which reparsing starts: the start of the block before the
    /// first edit, or the first edit when that lies before every block.
    pub start: usize,
    /// Old offset after which reparsing may stop.
    pub latest_old: usize,
    /// Bytes added and removed by all edits.
    pub total_delta: (usize, usize),
    /// Definition identifiers that the parser is told are already defined.
    pub seed: Vec<String>,
    /// Whether definitions make every block depend on the whole document.
    pub global_references: bool,
    /// First definition of each identifier before the edit (empty when the
    /// document had none).
    pub old_definitions: Vec<(String, u64)>,
    /// Old block index that the first window reaches.
    pub first_candidate: usize,
}

/// What to do next while reparsing.
pub enum ReparseStep {
    /// Parse bytes `start..end` of the new source, with `seed` defined.
    Parse { start: usize, end: usize },
    /// Reparsing is over: `parsed` covers new bytes up to `end` and stands in
    /// for the old blocks before index `old_end`.
    Done { parsed: Vec<Block>, end: usize, old_end: usize },
    /// The parser refused the whole rest of the document.
    Failed { error: Message },
}

/// The first old block, from `c` on, that ends after `minimum`, or the
/// number of blocks.
pub open spec fn first_ending_after(old: Seq<Block>, minimum: int, c: int) -> int
    decreases old.len() - c,
{
    if c < 0 || c >= old.len() {
        if c < 0 { old.len() as int } else { c }
    } else if old[c].end > minimum {
        c
    } else {
        first_ending_after(old, minimum, c + 1)
    }
}

/// The block found by `first_ending_after` lies between `c` and the end, and
/// ends after `minimum` unless it is the end.
pub proof fn lemma_first_ending_after(old: Seq<Block>, minimum: int, c: int)
    requires
        0 <= c <= old.len(),
    ensures
        c <= first_ending_after(old, minimum, c) <= old.len(),
        first_ending_after(old, minimum, c) < old.len() ==> old[first_ending_after(old, minimum, c)].end > minimum,
    decreases old.len() - c,
{
    if c < old.len() && old[c].end <= minimum {
        lemma_first_ending_after(old, minimum, c + 1);
    }
}

/// The first candidate: two blocks past the first block that ends after the
/// last edit and the start, capped at the number of blocks.
pub open spec fn initial_candidate(old: Seq<Block>, start_index: int, latest_old: int, start: int) -> int {
    let minimum = if latest_old < start { start } else { latest_old };
    let c = first_ending_after(old, minimum, start_index) + 2;
    if c < old.len() { c } else { old.len() as int }
}

/// The end, in the new source, of the window that reaches old block
/// `c - 1`: that block's end moved by the edits, capped at the source
/// length; the whole rest of the source when `c` is past the last block.
pub open spec fn window_end(old: Seq<Block>, plan: ReparsePlan, c: int) -> int {
    let n = encode_utf8(plan.new_source@).len();
    if c >= old.len() {
        n as int
    } else {
        let e = old[c - 1].end - plan.total_delta.1 + plan.total_delta.0;
        if e < n { e } else { n as int }
    }
}

/// Whether the window of candidate `c` can be parsed: it does not end
/// before the start nor inside a code point.
pub open spec fn window_ok(old: Seq<Block>, plan: ReparsePlan, c: int) -> bool {
    let end = window_end(old, plan, c);
    plan.start <= end && is_char_boundary(encode_utf8(plan.new_source@), end)
}

/// The first candidate from `c` on whose window can be parsed.
pub open spec fn next_window(old: Seq<Block>, plan: ReparsePlan, c: int) -> int
    decreases old.len() - c,
{
    if c >= old.len() || window_ok(old, plan, c) {
        if c >= old.len() { old.len() as int } else { c }
    } else {
        next_window(old, plan, c + 1)
    }
}

/// Whether the blocks parsed for candidate `c` end the way the old blocks
/// do: their last block matches, in fingerprint and kind, old block `c - 1`,
/// which lies at or after the first reparsed block.
pub open spec fn converged(old: Seq<Block>, start_index: int, c: int, parsed: Seq<Block>) -> bool {
    &&& start_index < c
    &&& parsed.len() > 0
    &&& old[c - 1].fingerprint == parsed.last().fingerprint
    &&& old[c - 1].kind == parsed.last().kind
}

/// Whether the window ends of every candidate can be computed: each old
/// block that a window can reach ends after the bytes the edits remove.
pub open spec fn plan_fits(old: Seq<Block>, plan: ReparsePlan) -> bool {
    &&& plan.start <= encode_utf8(plan.new_source@).len()
    &&& (old.len() > 0 ==> 1 <= plan.first_candidate)
    &&& forall|i: int| plan.first_candidate <= i + 1 < old.len() && 0 <= i
        ==> plan.total_delta.1 <= (#[trigger] old[i]).end
}

/// The step that asks for the window of the first parsable candidate from
/// `c` on.
pub open spec fn window_step(old: Seq<Block>, plan: ReparsePlan, c: int, r: (usize, ReparseStep)) -> bool {
    &&& r.0 == next_window(old, plan, c)
    &&& r.1 matches ReparseStep::Parse { start, end }
    &&& start == plan.start
    &&& end == window_end(old, plan, r.0 as int)
}

/// The end of the window of candidate `c`.
fn candidate_end(old: &[Block], plan: &ReparsePlan, c: usize) -> (r: usize)
    requires
        plan_fits(old@, *plan),
        plan.first_candidate <= c <= old@.len(),
    ensures
        r == window_end(old@, *plan, c as int),
{
    let n = plan.new_source.as_str().as_bytes().len();
    if c == old.len() {
        return n;
    }
    let base = old[c - 1].end - plan.total_delta.1;
    if base >= n {
        n
    } else if plan.total_delta.0 >= n - base {
        n
    } else {
        base + plan.total_delta.0
    }
}

/// The first parsable candidate from `c` on, and its window.
fn window_from(old: &[Block], plan: &ReparsePlan, c: usize) -> (r: (usize, ReparseStep))
    requires
        plan_fits(old@, *plan),
        plan.first_candidate <= c <= old@.len(),
    ensures
        window_step(old@, *plan, c as int, r),
{
    let mut candidate = c;
    while candidate < old.len()
        invariant
            plan_fits(old@, *plan),
            plan.first_candidate <= c <= candidate <= old@.len(),
            next_window(old@, *plan, c as int) == next_window(old@, *plan, candidate as int),
        decreases old.len() - candidate,
    {
        let end = candidate_end(old, plan, candidate);
        if plan.start <= end && plan.new_source.as_str().is_char_boundary(end) {
            return (candidate, ReparseStep::Parse { start: plan.start, end });
        }
        candidate += 1;
    }
    let end = candidate_end(old, plan, candidate);
    (candidate, ReparseStep::Parse { start: plan.start, end })
}

/// Find the first candidate for `plan` over the old blocks.
pub fn first_candidate(old: &[Block], start_index: usize, latest_old: usize, start: usize) -> (r: usize)
    requires
        start_index <= old@.len(),
    ensures
        r == initial_candidate(old@, start_index as int, latest_old as int, start as int),
{
    let minimum = if latest_old < start { start } else { latest_old };
    let mut c = start_index;
    while c < old.len() && old[c].end <= minimum
        invariant
            start_index <= c <= old@.len(),
            first_ending_after(old@, minimum as int, start_index as int)
                == first_ending_after(old@, minimum as int, c as int),
        decreases old.len() - c,
    {
        c += 1;
    }
    if old.len() - c > 2 { c + 2 } else { old.len() }
}

/// One step of reparsing after an edit. With no `outcome`, it names the
/// window to parse for `candidate` (or the first later candidate whose
/// window can be parsed). With the parser's `outcome` for that window, it
/// stops when the parse reached the end of the old blocks or converged,
/// fails when the parser refused the rest of the document, and otherwise
/// widens the window by one block.
pub fn reparse_step(
    old: &[Block],
    plan: &ReparsePlan,
    candidate: usize,
    outcome: Option<Result<Vec<Block>, Message>>,
) -> (r: (usize, ReparseStep))
    requires
        plan_fits(old@, *plan),
        plan.first_candidate <= candidate <= old@.len(),
    ensures
        match outcome {
            None => window_step(old@, *plan, candidate as int, r),
            Some(Err(e)) => if candidate < old@.len() {
                window_step(old@, *plan, candidate + 1, r)
            } else {
                r.0 == candidate && r.1 == ReparseStep::Failed { error: e }
            },
            Some(Ok(parsed)) => if candidate == old@.len()
                || converged(old@, plan.start_index as int, candidate as int, parsed@) {
                &&& r.0 == candidate
                &&& r.1 == ReparseStep::Done {
                    parsed,
                    end: window_end(old@, *plan, candidate as int) as usize,
                    old_end: candidate,
                }
            } else {
                window_step(old@, *plan, candidate + 1, r)
            },
        },
{
    match outcome {
        None => window_from(old, plan, candidate),
        Some(Err(error)) => {
            if candidate < old.len() {
                window_from(old, plan, candidate + 1)
            } else {
                (candidate, ReparseStep::Failed { error })
            }
        },
        Some(Ok(parsed)) => {
            let done = candidate == old.len() || crate::incremental::blocks::has_converged(
                old,
                plan.start_index,
                candidate,
                parsed.as_slice(),
            );
            if done {
                let end = candidate_end(old, plan, candidate);
                (candidate, ReparseStep::Done { parsed, end, old_end: candidate })
            } else {
                window_from(old, plan, candidate + 1)
            }
        },
    }
}

} // verus!
