//! Validating and applying a batch of source edits.

use vstd::prelude::*;
use vstd::utf8::*;
use crate::incremental::{Edit, EditBatch};
use crate::message::Message;
use crate::util::decimal::{decimal, push_decimal};
use crate::util::text::{lemma_encode_utf8_concat, substring};
use vstd::string::StringSliceAdditionalSpecFns;

verus! {

broadcast use vstd::utf8::encode_utf8_valid_utf8, vstd::utf8::is_char_boundary_start_end_of_seq,
    vstd::string::group_string_axioms;

/// Why an edit batch is refused.
#[derive(Clone, Copy, Debug, PartialEq, Eq, Structural)]
pub enum EditProblem {
    /// The batch was made against another version.
    Stale,
    /// A range is reversed or past the end of the document.
    OutOfBounds,
    /// A range starts or ends inside a UTF-8 code point.
    SplitsCodePoint,
    /// A range starts before the previous one ends.
    Unsorted,
}

/// The first problem of the edits from index `i` on, in order, checking
/// each edit for bounds, then boundaries, then order.
pub open spec fn edits_problem(bytes: Seq<u8>, edits: Seq<Edit>, i: int) -> Option<EditProblem>
    decreases edits.len() - i,
{
    if i < 0 || i >= edits.len() {
        None
    } else {
        let e = edits[i];
        if e.start_byte > e.old_end_byte || e.old_end_byte > bytes.len() {
            Some(EditProblem::OutOfBounds)
        } else if !is_char_boundary(bytes, e.start_byte as int) || !is_char_boundary(bytes, e.old_end_byte as int) {
            Some(EditProblem::SplitsCodePoint)
        } else if i > 0 && e.start_byte < edits[i - 1].old_end_byte {
            Some(EditProblem::Unsorted)
        } else {
            edits_problem(bytes, edits, i + 1)
        }
    }
}

/// The problem of a batch against the document `bytes` at `version`.
pub open spec fn batch_problem(bytes: Seq<u8>, version: u64, batch: EditBatch) -> Option<EditProblem> {
    if batch.base_version != version {
        Some(EditProblem::Stale)
    } else {
        edits_problem(bytes, batch.edits@, 0)
    }
}

/// Edits that are in bounds, on boundaries, sorted and nonoverlapping.
pub open spec fn valid_edits(bytes: Seq<u8>, edits: Seq<Edit>) -> bool {
    forall|i: int|
        0 <= i < edits.len() ==> {
            let e = #[trigger] edits[i];
            &&& e.start_byte <= e.old_end_byte <= bytes.len()
            &&& is_char_boundary(bytes, e.start_byte as int)
            &&& is_char_boundary(bytes, e.old_end_byte as int)
            &&& (i > 0 ==> edits[i - 1].old_end_byte <= e.start_byte)
        }
}

/// The bytes of `bytes` from `cursor` on, with edits `i..` applied.
pub open spec fn spliced_from(bytes: Seq<u8>, edits: Seq<Edit>, i: int, cursor: int) -> Seq<u8>
    decreases edits.len() - i,
{
    if i < 0 || i >= edits.len() {
        bytes.subrange(cursor, bytes.len() as int)
    } else {
        bytes.subrange(cursor, edits[i].start_byte as int) + encode_utf8(edits[i].replacement@)
            + spliced_from(bytes, edits, i + 1, edits[i].old_end_byte as int)
    }
}

/// The document `bytes` with every edit applied.
pub open spec fn spliced(bytes: Seq<u8>, edits: Seq<Edit>) -> Seq<u8> {
    spliced_from(bytes, edits, 0, 0)
}

/// Bytes added by edits `0..n`.
pub open spec fn added_before(edits: Seq<Edit>, n: int) -> nat
    decreases n,
{
    if n <= 0 || n > edits.len() {
        0
    } else {
        added_before(edits, n - 1) + encode_utf8(edits[n - 1].replacement@).len()
    }
}

/// Bytes removed by edits `0..n`.
pub open spec fn removed_before(edits: Seq<Edit>, n: int) -> int
    decreases n,
{
    if n <= 0 || n > edits.len() {
        0
    } else {
        removed_before(edits, n - 1) + edits[n - 1].old_end_byte - edits[n - 1].start_byte
    }
}

/// Bytes added and removed by edits that end at or before `offset`.
pub open spec fn delta_before(edits: Seq<Edit>, n: int, offset: int) -> (nat, int)
    decreases n,
{
    if n <= 0 || n > edits.len() {
        (0, 0)
    } else {
        let (added, removed) = delta_before(edits, n - 1, offset);
        let e = edits[n - 1];
        if e.old_end_byte <= offset {
            (added + encode_utf8(e.replacement@).len(), removed + e.old_end_byte - e.start_byte)
        } else {
            (added, removed)
        }
    }
}

/// Reason text of a problem.
pub open spec fn problem_reason(problem: EditProblem, version: u64, received: u64) -> Seq<char> {
    match problem {
        EditProblem::Stale => "stale edit batch: expected version "@ + decimal(version as nat)
            + ", received "@ + decimal(received as nat),
        EditProblem::OutOfBounds => "edit range is outside the document"@,
        EditProblem::SplitsCodePoint => "edit range splits a UTF-8 code point"@,
        EditProblem::Unsorted => "edits must be sorted and nonoverlapping"@,
    }
}

/// Whether `m` is a message of the incremental engine about a refused edit:
/// no place, rule `edit`, source `markdown-incremental`.
pub open spec fn is_edit_message(m: Message) -> bool {
    &&& m.place is None
    &&& m.rule_id@ == "edit"@
    &&& m.source@ == "markdown-incremental"@
}

/// A message about a refused edit.
pub fn incremental_error(reason: String) -> (m: Message)
    ensures
        m.reason@ == reason@,
        is_edit_message(m),
{
    Message {
        place: None,
        reason,
        rule_id: "edit".to_owned(),
        source: "markdown-incremental".to_owned(),
    }
}

/// Check a batch against the document `source` at `version`.
pub fn validate_edits(source: &str, version: u64, batch: &EditBatch) -> (r: Result<(), Message>)
    ensures
        match r {
            Ok(()) => batch_problem(source.spec_bytes(), version, *batch) is None,
            Err(m) => batch_problem(source.spec_bytes(), version, *batch) matches Some(p)
                && m.reason@ == problem_reason(p, version, batch.base_version)
                && is_edit_message(m),
        },
        r is Ok ==> valid_edits(source.spec_bytes(), batch.edits@),
{
    let ghost b = source.spec_bytes();
    if batch.base_version != version {
        let mut reason = "stale edit batch: expected version ".to_owned();
        push_decimal(&mut reason, version);
        reason.append(", received ");
        push_decimal(&mut reason, batch.base_version);
        return Err(incremental_error(reason));
    }
    let len = source.as_bytes().len();
    let mut previous_end: usize = 0;
    let mut index: usize = 0;
    while index < batch.edits.len()
        invariant
            len == b.len(),
            b == source.spec_bytes(),
            batch.base_version == version,
            index <= batch.edits@.len(),
            edits_problem(b, batch.edits@, 0) == edits_problem(b, batch.edits@, index as int),
            index > 0 ==> previous_end == batch.edits@[index - 1].old_end_byte,
            forall|i: int| 0 <= i < index ==> {
                let e = #[trigger] batch.edits@[i];
                &&& e.start_byte <= e.old_end_byte <= b.len()
                &&& is_char_boundary(b, e.start_byte as int)
                &&& is_char_boundary(b, e.old_end_byte as int)
                &&& (i > 0 ==> batch.edits@[i - 1].old_end_byte <= e.start_byte)
            },
        decreases batch.edits.len() - index,
    {
        let edit = &batch.edits[index];
        if edit.start_byte > edit.old_end_byte || edit.old_end_byte > len {
            return Err(incremental_error("edit range is outside the document".to_owned()));
        }
        if !source.is_char_boundary(edit.start_byte) || !source.is_char_boundary(edit.old_end_byte) {
            return Err(incremental_error("edit range splits a UTF-8 code point".to_owned()));
        }
        if index > 0 && edit.start_byte < previous_end {
            return Err(incremental_error("edits must be sorted and nonoverlapping".to_owned()));
        }
        previous_end = edit.old_end_byte;
        index += 1;
    }
    Ok(())
}

/// `source` with every edit applied, in order.
pub fn apply_edits(source: &str, edits: &[Edit]) -> (r: String)
    requires
        valid_edits(source.spec_bytes(), edits@),
    ensures
        encode_utf8(r@) == spliced(source.spec_bytes(), edits@),
{
    let ghost b = source.spec_bytes();
    let ghost target = spliced(b, edits@);
    let mut result = String::new();
    let mut cursor: usize = 0;
    let mut index: usize = 0;
    proof {
        is_char_boundary_start_end_of_seq(b);
        assert(encode_utf8(result@) =~= Seq::<u8>::empty());
        assert(target =~= encode_utf8(result@) + spliced_from(b, edits@, 0, 0));
    }
    while index < edits.len()
        invariant
            b == source.spec_bytes(),
            target == spliced(b, edits@),
            valid_edits(b, edits@),
            index <= edits@.len(),
            cursor <= b.len(),
            is_char_boundary(b, cursor as int),
            index == 0 ==> cursor == 0,
            index > 0 ==> cursor == edits@[index - 1].old_end_byte,
            target == encode_utf8(result@) + spliced_from(b, edits@, index as int, cursor as int),
        decreases edits.len() - index,
    {
        let edit = &edits[index];
        proof {
            assert(edits@[index as int] == *edit);
        }
        let before = substring(source, cursor, edit.start_byte);
        let ghost old_result = result@;
        result.append(before);
        result.append(edit.replacement.as_str());
        proof {
            lemma_encode_utf8_concat(old_result, before@);
            lemma_encode_utf8_concat(old_result + before@, edit.replacement@);
            assert(result@ =~= old_result + before@ + edit.replacement@);
            assert(target =~= encode_utf8(result@) + spliced_from(b, edits@, index + 1, edit.old_end_byte as int));
        }
        cursor = edit.old_end_byte;
        index += 1;
    }
    proof {
        is_char_boundary_start_end_of_seq(b);
        assert(spliced_from(b, edits@, index as int, cursor as int) == b.subrange(cursor as int, b.len() as int));
    }
    let rest = substring(source, cursor, source.as_bytes().len());
    let ghost old_result = result@;
    result.append(rest);
    proof {
        lemma_encode_utf8_concat(old_result, rest@);
        assert(target =~= encode_utf8(result@));
    }
    result
}

/// `added_before` never decreases.
proof fn lemma_added_monotone(edits: Seq<Edit>, k: int, n: int)
    requires
        0 <= k <= n <= edits.len(),
    ensures
        added_before(edits, k) <= added_before(edits, n),
    decreases n - k,
{
    if k < n {
        lemma_added_monotone(edits, k, n - 1);
    }
}

/// `removed_before` never decreases over edits whose ranges are not reversed.
proof fn lemma_removed_monotone(edits: Seq<Edit>, k: int, n: int)
    requires
        0 <= k <= n <= edits.len(),
        forall|i: int| 0 <= i < edits.len() ==> (#[trigger] edits[i]).start_byte <= edits[i].old_end_byte,
    ensures
        0 <= removed_before(edits, k) <= removed_before(edits, n),
    decreases n,
{
    if k < n {
        lemma_removed_monotone(edits, k, n - 1);
    } else if k > 0 {
        lemma_removed_monotone(edits, k - 1, k - 1);
    }
}

/// Bytes added and removed by edits `0..k`, each part never above that of
/// edits `0..n`.
proof fn lemma_delta_monotone(edits: Seq<Edit>, k: int, n: int, offset: int)
    requires
        0 <= k <= n <= edits.len(),
        forall|i: int| 0 <= i < edits.len() ==> (#[trigger] edits[i]).start_byte <= edits[i].old_end_byte,
    ensures
        delta_before(edits, k, offset).0 <= delta_before(edits, n, offset).0,
        0 <= delta_before(edits, k, offset).1 <= delta_before(edits, n, offset).1,
    decreases n,
{
    if k < n {
        lemma_delta_monotone(edits, k, n - 1, offset);
    } else if k > 0 {
        lemma_delta_monotone(edits, k - 1, k - 1, offset);
    }
}

/// Bytes added and removed by all edits, as `(added, removed)`.
pub fn byte_delta(edits: &[Edit]) -> (r: (usize, usize))
    requires
        forall|i: int| 0 <= i < edits@.len() ==> (#[trigger] edits@[i]).start_byte <= edits@[i].old_end_byte,
        added_before(edits@, edits@.len() as int) <= usize::MAX,
        removed_before(edits@, edits@.len() as int) <= usize::MAX,
    ensures
        r.0 == added_before(edits@, edits@.len() as int),
        r.1 == removed_before(edits@, edits@.len() as int),
{
    let mut added: usize = 0;
    let mut removed: usize = 0;
    let mut index: usize = 0;
    while index < edits.len()
        invariant
            forall|i: int| 0 <= i < edits@.len() ==> (#[trigger] edits@[i]).start_byte <= edits@[i].old_end_byte,
            added_before(edits@, edits@.len() as int) <= usize::MAX,
            removed_before(edits@, edits@.len() as int) <= usize::MAX,
            index <= edits@.len(),
            added == added_before(edits@, index as int),
            removed == removed_before(edits@, index as int),
        decreases edits.len() - index,
    {
        let edit = &edits[index];
        proof {
            assert(edits@[index as int] == *edit);
            lemma_added_monotone(edits@, index + 1, edits@.len() as int);
            lemma_removed_monotone(edits@, index + 1, edits@.len() as int);
        }
        added = added + edit.replacement.as_str().as_bytes().len();
        removed = removed + (edit.old_end_byte - edit.start_byte);
        index += 1;
    }
    (added, removed)
}

/// Bytes added and removed by the edits that end at or before the old offset
/// `offset`, as `(added, removed)`.
pub fn delta_at_old_offset(edits: &[Edit], offset: usize) -> (r: (usize, usize))
    requires
        forall|i: int| 0 <= i < edits@.len() ==> (#[trigger] edits@[i]).start_byte <= edits@[i].old_end_byte,
        delta_before(edits@, edits@.len() as int, offset as int).0 <= usize::MAX,
        delta_before(edits@, edits@.len() as int, offset as int).1 <= usize::MAX,
    ensures
        r.0 == delta_before(edits@, edits@.len() as int, offset as int).0,
        r.1 == delta_before(edits@, edits@.len() as int, offset as int).1,
{
    let ghost n = edits@.len() as int;
    let mut added: usize = 0;
    let mut removed: usize = 0;
    let mut index: usize = 0;
    while index < edits.len()
        invariant
            n == edits@.len(),
            forall|i: int| 0 <= i < edits@.len() ==> (#[trigger] edits@[i]).start_byte <= edits@[i].old_end_byte,
            delta_before(edits@, n, offset as int).0 <= usize::MAX,
            delta_before(edits@, n, offset as int).1 <= usize::MAX,
            index <= n,
            added == delta_before(edits@, index as int, offset as int).0,
            removed == delta_before(edits@, index as int, offset as int).1,
        decreases edits.len() - index,
    {
        let edit = &edits[index];
        proof {
            assert(edits@[index as int] == *edit);
            lemma_delta_monotone(edits@, index + 1, n, offset as int);
        }
        if edit.old_end_byte <= offset {
            added = added + edit.replacement.as_str().as_bytes().len();
            removed = removed + (edit.old_end_byte - edit.start_byte);
        }
        index += 1;
    }
    (added, removed)
}

/// `value` moved by a delta `(added, removed)`.
pub fn add_delta(value: usize, delta: (usize, usize)) -> (r: usize)
    requires
        delta.1 <= value,
        value - delta.1 + delta.0 <= usize::MAX,
    ensures
        r == value - delta.1 + delta.0,
{
    value - delta.1 + delta.0
}

impl EditBatch {
    /// Validate this batch against the document `source` at `version`, then
    /// apply it.
    pub fn apply_to(&self, source: &str, version: u64) -> (r: Result<String, Message>)
        ensures
            r is Ok <==> batch_problem(source.spec_bytes(), version, *self) is None,
            r matches Ok(s) ==> encode_utf8(s@) == spliced(source.spec_bytes(), self.edits@),
            r is Ok ==> valid_edits(source.spec_bytes(), self.edits@),
            r matches Err(m) ==> batch_problem(source.spec_bytes(), version, *self) matches Some(p)
                && m.reason@ == problem_reason(p, version, self.base_version)
                && is_edit_message(m),
    {
        match validate_edits(source, version, self) {
            Err(m) => Err(m),
            Ok(()) => Ok(apply_edits(source, self.edits.as_slice())),
        }
    }
}

/// Edits `i..` apply on top of the untouched bytes from `cursor`.
proof fn lemma_spliced_from_len(bytes: Seq<u8>, edits: Seq<Edit>, i: int, cursor: int)
    requires
        valid_edits(bytes, edits),
        0 <= i <= edits.len(),
        0 <= cursor,
        i < edits.len() ==> cursor <= edits[i].start_byte,
        i == edits.len() ==> cursor <= bytes.len(),
    ensures
        spliced_from(bytes, edits, i, cursor).len() == bytes.len() - cursor
            + (added_before(edits, edits.len() as int) - added_before(edits, i))
            - (removed_before(edits, edits.len() as int) - removed_before(edits, i)),
    decreases edits.len() - i,
{
    if i < edits.len() {
        let e = edits[i];
        assert(e == edits[i]);
        if i + 1 < edits.len() {
            assert(edits[i + 1] == edits[i + 1]);
        }
        lemma_spliced_from_len(bytes, edits, i + 1, e.old_end_byte as int);
    }
}

/// Edits `i..n` that all end after `offset` add and remove nothing before it.
proof fn lemma_delta_flat(edits: Seq<Edit>, i: int, n: int, offset: int)
    requires
        0 <= i <= n <= edits.len(),
        forall|j: int| i <= j < n ==> offset < (#[trigger] edits[j]).old_end_byte,
    ensures
        delta_before(edits, n, offset) == delta_before(edits, i, offset),
    decreases n - i,
{
    if i < n {
        assert(offset < edits[n - 1].old_end_byte);
        lemma_delta_flat(edits, i, n - 1, offset);
    }
}

/// An untouched byte at `offset` stands in the spliced bytes from `cursor`
/// on, moved by the edits `i..` that end at or before it.
proof fn lemma_spliced_from_keeps(bytes: Seq<u8>, edits: Seq<Edit>, i: int, cursor: int, offset: int)
    requires
        valid_edits(bytes, edits),
        0 <= i <= edits.len(),
        0 <= cursor <= offset < bytes.len(),
        i < edits.len() ==> cursor <= edits[i].start_byte,
        forall|j: int| 0 <= j < edits.len() ==> (#[trigger] edits[j]).old_end_byte <= offset || offset < edits[j].start_byte,
    ensures
        ({
            let n = edits.len() as int;
            let shift = offset - cursor
                + (delta_before(edits, n, offset).0 - delta_before(edits, i, offset).0)
                - (delta_before(edits, n, offset).1 - delta_before(edits, i, offset).1);
            &&& 0 <= shift < spliced_from(bytes, edits, i, cursor).len()
            &&& spliced_from(bytes, edits, i, cursor)[shift] == bytes[offset]
        }),
    decreases edits.len() - i,
{
    let n = edits.len() as int;
    if i < n {
        let e = edits[i];
        assert(e == edits[i]);
        let head = bytes.subrange(cursor, e.start_byte as int);
        let rep = encode_utf8(e.replacement@);
        let rest = spliced_from(bytes, edits, i + 1, e.old_end_byte as int);
        assert(spliced_from(bytes, edits, i, cursor) == head + rep + rest);
        if offset < e.start_byte {
            assert forall|j: int| i <= j < n implies offset < (#[trigger] edits[j]).old_end_byte by {
                if j > i {
                    lemma_sorted(bytes, edits, i, j);
                }
            }
            lemma_delta_flat(edits, i, n, offset);
            assert((head + rep + rest)[offset - cursor] == head[offset - cursor]);
        } else {
            if i + 1 < n {
                assert(edits[i + 1] == edits[i + 1]);
            }
            lemma_spliced_from_keeps(bytes, edits, i + 1, e.old_end_byte as int, offset);
            let inner = offset - e.old_end_byte
                + (delta_before(edits, n, offset).0 - delta_before(edits, i + 1, offset).0)
                - (delta_before(edits, n, offset).1 - delta_before(edits, i + 1, offset).1);
            assert((head + rep + rest)[head.len() + rep.len() + inner] == rest[inner]);
        }
    }
}

/// In valid edits, an edit ends no later than any later edit starts.
proof fn lemma_sorted(bytes: Seq<u8>, edits: Seq<Edit>, i: int, j: int)
    requires
        valid_edits(bytes, edits),
        0 <= i < j < edits.len(),
    ensures
        edits[i].old_end_byte <= edits[j].start_byte,
    decreases j - i,
{
    assert(edits[j] == edits[j]);
    if i + 1 < j {
        lemma_sorted(bytes, edits, i, j - 1);
        assert(edits[j - 1] == edits[j - 1]);
    }
}

/// Valid edits `0..k` remove no more bytes than lie before the end of the
/// last of them.
pub proof fn lemma_removed_within(bytes: Seq<u8>, edits: Seq<Edit>, k: int)
    requires
        valid_edits(bytes, edits),
        0 < k <= edits.len(),
    ensures
        0 <= removed_before(edits, k) <= edits[k - 1].old_end_byte <= bytes.len(),
    decreases k,
{
    assert(edits[k - 1] == edits[k - 1]);
    if k > 1 {
        lemma_removed_within(bytes, edits, k - 1);
        assert(edits[k - 2] == edits[k - 2]);
        assert(edits[k - 2].old_end_byte <= edits[k - 1].start_byte);
    }
    assert(removed_before(edits, k) == removed_before(edits, k - 1) + edits[k - 1].old_end_byte - edits[k - 1].start_byte);
    if k == 1 {
        assert(removed_before(edits, 0) == 0);
    }
}

/// Valid edits `0..k` remove no more bytes than lie between the start of
/// the first and the end of the last.
pub proof fn lemma_removed_span(bytes: Seq<u8>, edits: Seq<Edit>, k: int)
    requires
        valid_edits(bytes, edits),
        0 < k <= edits.len(),
    ensures
        removed_before(edits, k) <= edits[k - 1].old_end_byte - edits[0].start_byte,
    decreases k,
{
    assert(edits[k - 1] == edits[k - 1]);
    assert(edits[0] == edits[0]);
    if k > 1 {
        lemma_removed_span(bytes, edits, k - 1);
        assert(edits[k - 2] == edits[k - 2]);
        assert(edits[k - 2].old_end_byte <= edits[k - 1].start_byte);
    }
    assert(removed_before(edits, k) == removed_before(edits, k - 1) + edits[k - 1].old_end_byte - edits[k - 1].start_byte);
    if k == 1 {
        assert(removed_before(edits, 0) == 0);
    }
}

/// In valid edits, every edit ends no later than the last one.
pub proof fn lemma_ends_before_last(bytes: Seq<u8>, edits: Seq<Edit>, i: int)
    requires
        valid_edits(bytes, edits),
        0 <= i < edits.len(),
    ensures
        edits[i].old_end_byte <= edits[edits.len() - 1].old_end_byte,
{
    let n = edits.len() - 1;
    assert(edits[n] == edits[n]);
    if i < n {
        lemma_sorted(bytes, edits, i, n);
    }
}

/// When every edit ends at or before `offset`, the bytes added and removed
/// before it are those of all the edits.
pub proof fn lemma_delta_all(edits: Seq<Edit>, n: int, offset: int)
    requires
        0 <= n <= edits.len(),
        forall|i: int| 0 <= i < n ==> (#[trigger] edits[i]).old_end_byte <= offset,
    ensures
        delta_before(edits, n, offset).0 == added_before(edits, n),
        delta_before(edits, n, offset).1 == removed_before(edits, n),
    decreases n,
{
    if n > 0 {
        assert(edits[n - 1].old_end_byte <= offset);
        lemma_delta_all(edits, n - 1, offset);
    }
}

/// Applying valid edits changes the length of the document by the bytes
/// added less the bytes removed.
pub proof fn lemma_spliced_len(bytes: Seq<u8>, edits: Seq<Edit>)
    requires
        valid_edits(bytes, edits),
    ensures
        spliced(bytes, edits).len() == bytes.len() + added_before(edits, edits.len() as int)
            - removed_before(edits, edits.len() as int),
{
    if edits.len() > 0 {
        assert(edits[0] == edits[0]);
    }
    lemma_spliced_from_len(bytes, edits, 0, 0);
}

/// A byte outside every replaced range keeps its value after the edits,
/// at its old offset moved by the edits that end at or before it.
pub proof fn lemma_spliced_keeps_untouched(bytes: Seq<u8>, edits: Seq<Edit>, offset: int)
    requires
        valid_edits(bytes, edits),
        0 <= offset < bytes.len(),
        forall|j: int| 0 <= j < edits.len() ==> (#[trigger] edits[j]).old_end_byte <= offset || offset < edits[j].start_byte,
    ensures
        ({
            let delta = delta_before(edits, edits.len() as int, offset);
            &&& offset - delta.1 + delta.0 < spliced(bytes, edits).len()
            &&& spliced(bytes, edits)[offset - delta.1 + delta.0] == bytes[offset]
        }),
{
    if edits.len() > 0 {
        assert(edits[0] == edits[0]);
    }
    lemma_spliced_from_keeps(bytes, edits, 0, 0, offset);
}

/// A batch is accepted exactly when it was made against the current
/// version and each edit lies within the document, starts and ends on code
/// point boundaries, and starts at or after the end of the edit before it:
/// edits may touch, but not overlap.
pub proof fn lemma_batch_accepted(bytes: Seq<u8>, version: u64, batch: EditBatch)
    ensures
        batch_problem(bytes, version, batch) is None <==> {
            &&& batch.base_version == version
            &&& forall|i: int| 0 <= i < batch.edits@.len() ==> {
                let e = #[trigger] batch.edits@[i];
                &&& e.start_byte <= e.old_end_byte
                &&& e.old_end_byte <= bytes.len()
                &&& is_char_boundary(bytes, e.start_byte as int)
                &&& is_char_boundary(bytes, e.old_end_byte as int)
                &&& (i > 0 ==> batch.edits@[i - 1].old_end_byte <= e.start_byte)
            }
        },
{
    if batch.base_version == version {
        lemma_edits_problem_none(bytes, batch.edits@, 0);
    }
}

/// The edits from `i` on have no problem exactly when each of them is in
/// bounds, on boundaries, and not before the end of the one before it.
proof fn lemma_edits_problem_none(bytes: Seq<u8>, edits: Seq<Edit>, i: int)
    requires
        0 <= i <= edits.len(),
    ensures
        edits_problem(bytes, edits, i) is None <==> forall|j: int| i <= j < edits.len() ==> {
            let e = #[trigger] edits[j];
            &&& e.start_byte <= e.old_end_byte
            &&& e.old_end_byte <= bytes.len()
            &&& is_char_boundary(bytes, e.start_byte as int)
            &&& is_char_boundary(bytes, e.old_end_byte as int)
            &&& (j > 0 ==> edits[j - 1].old_end_byte <= e.start_byte)
        },
    decreases edits.len() - i,
{
    if i < edits.len() {
        lemma_edits_problem_none(bytes, edits, i + 1);
        assert(edits[i] == edits[i]);
    }
}

} // verus!
