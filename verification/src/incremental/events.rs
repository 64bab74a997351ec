//! Top-level blocks from parser events, for documents rendered without a
//! syntax tree.

use vstd::prelude::*;
use crate::incremental::blocks::{Block, BlockKind, defs_view};
use crate::incremental::definitions::strings_view;
use crate::incremental::fingerprint::{fingerprint, spec_fingerprint};
use crate::incremental::tree::{sort_unique, strictly_sorted};
use crate::tokenizer::Kind;
use crate::util::normalize_identifier::{normalize_identifier, spec_normalize_identifier};
use crate::util::text::substring;
use vstd::string::StringSliceAdditionalSpecFns;
use vstd::utf8::is_char_boundary;

verus! {

/// The names of parser events that block building tells apart; every other
/// name is `Other`.
#[derive(Clone, Copy, Debug, PartialEq, Eq, Structural)]
pub enum EventName {
    /// Block quote.
    BlockQuote,
    /// GFM footnote definition.
    GfmFootnoteDefinition,
    /// GFM footnote call.
    GfmFootnoteCall,
    /// Ordered list.
    ListOrdered,
    /// Unordered list.
    ListUnordered,
    /// MDX ESM.
    MdxEsm,
    /// Frontmatter.
    Frontmatter,
    /// HTML (flow).
    HtmlFlow,
    /// Indented code.
    CodeIndented,
    /// Fenced code.
    CodeFenced,
    /// Math (flow).
    MathFlow,
    /// MDX expression (flow).
    MdxFlowExpression,
    /// ATX heading.
    HeadingAtx,
    /// Setext heading.
    HeadingSetext,
    /// GFM table.
    GfmTable,
    /// Thematic break.
    ThematicBreak,
    /// Definition.
    Definition,
    /// Paragraph.
    Paragraph,
    /// Label string of a definition.
    DefinitionLabelString,
    /// Reference string of a full reference.
    ReferenceString,
    /// Label text of a collapsed or shortcut reference.
    LabelText,
    /// Any other event.
    Other,
}

/// An event of the parser: entering or exiting `name` at byte `index`.
#[derive(Clone, Copy, Debug, PartialEq, Eq, Structural)]
pub struct ParserEvent {
    /// Enter or exit.
    pub kind: Kind,
    /// What is entered or exited.
    pub name: EventName,
    /// Byte offset in the parsed value.
    pub index: usize,
}

/// The block class of a top-level construct, if `name` starts one.
pub open spec fn spec_event_block_kind(name: EventName) -> Option<u8> {
    match name {
        EventName::BlockQuote => Some(1),
        EventName::GfmFootnoteDefinition => Some(2),
        EventName::ListOrdered | EventName::ListUnordered => Some(4),
        EventName::MdxEsm => Some(5),
        EventName::Frontmatter => Some(6),
        EventName::HtmlFlow => Some(15),
        EventName::CodeIndented | EventName::CodeFenced => Some(23),
        EventName::MathFlow => Some(24),
        EventName::MdxFlowExpression => Some(25),
        EventName::HeadingAtx | EventName::HeadingSetext => Some(26),
        EventName::GfmTable => Some(27),
        EventName::ThematicBreak => Some(28),
        EventName::Definition => Some(32),
        EventName::Paragraph => Some(33),
        _ => None,
    }
}

/// The block class of a top-level construct, if `name` starts one.
pub fn event_block_kind(name: &EventName) -> (r: Option<BlockKind>)
    ensures
        match spec_event_block_kind(*name) {
            Some(k) => r == Some(BlockKind(k)),
            None => r is None,
        },
{
    let code: u8 = match name {
        EventName::BlockQuote => 1,
        EventName::GfmFootnoteDefinition => 2,
        EventName::ListOrdered | EventName::ListUnordered => 4,
        EventName::MdxEsm => 5,
        EventName::Frontmatter => 6,
        EventName::HtmlFlow => 15,
        EventName::CodeIndented | EventName::CodeFenced => 23,
        EventName::MathFlow => 24,
        EventName::MdxFlowExpression => 25,
        EventName::HeadingAtx | EventName::HeadingSetext => 26,
        EventName::GfmTable => 27,
        EventName::ThematicBreak => 28,
        EventName::Definition => 32,
        EventName::Paragraph => 33,
        _ => return None,
    };
    Some(BlockKind(code))
}

/// Scanning back from `index` (exclusive) with `depth` open exits of
/// `name`, the index of the enter that closes the scan, if any.
pub open spec fn matching_enter(events: Seq<ParserEvent>, name: EventName, index: int, depth: int) -> Option<int>
    decreases index,
{
    if index <= 0 {
        None
    } else {
        let e = events[index - 1];
        if e.name != name {
            matching_enter(events, name, index - 1, depth)
        } else if e.kind == Kind::Exit {
            matching_enter(events, name, index - 1, depth + 1)
        } else if depth - 1 == 0 {
            Some(index - 1)
        } else {
            matching_enter(events, name, index - 1, depth - 1)
        }
    }
}

/// The source span of the construct exited at `exit`: from its matching
/// enter to the exit, or empty at the exit when there is none.
pub open spec fn spec_event_span(events: Seq<ParserEvent>, exit: int) -> (usize, usize) {
    match matching_enter(events, events[exit].name, exit, 1) {
        Some(j) => (events[j].index, events[exit].index),
        None => (events[exit].index, events[exit].index),
    }
}

/// The source span of the construct exited at `exit`.
pub fn event_span(events: &[ParserEvent], exit: usize) -> (r: (usize, usize))
    requires
        exit < events@.len(),
    ensures
        r == spec_event_span(events@, exit as int),
{
    let name = events[exit].name;
    let mut depth: usize = 1;
    let mut index = exit;
    while index > 0
        invariant
            index <= exit < events@.len(),
            name == events@[exit as int].name,
            1 <= depth <= exit - index + 1,
            matching_enter(events@, name, exit as int, 1) == matching_enter(events@, name, index as int, depth as int),
        decreases index,
    {
        index -= 1;
        if events[index].name != name {
            continue;
        }
        match events[index].kind {
            Kind::Exit => {
                depth += 1;
            },
            Kind::Enter => {
                depth -= 1;
                if depth == 0 {
                    return (events[index].index, events[exit].index);
                }
            },
        }
    }
    (events[exit].index, events[exit].index)
}

/// Whether event offsets never decrease.
pub open spec fn indices_sorted(events: Seq<ParserEvent>) -> bool {
    forall|i: int, j: int| 0 <= i <= j < events.len() ==> (#[trigger] events[i]).index <= (#[trigger] events[j]).index
}

/// Whether every event index is a character boundary of `bytes`.
pub open spec fn indices_valid(bytes: Seq<u8>, events: Seq<ParserEvent>) -> bool {
    forall|i: int| 0 <= i < events.len() ==> (#[trigger] events[i]).index <= bytes.len()
        && is_char_boundary(bytes, events[i].index as int)
}

/// What the event at `index` contributes to a block of class `kind`:
/// a definition, a reference, or nothing.
pub open spec fn event_dependency(value: Seq<u8>, events: Seq<ParserEvent>, index: int, kind: u8) -> Option<(bool, Seq<char>)> {
    let e = events[index];
    let definition = e.name == EventName::DefinitionLabelString && kind == 32;
    let reference = (e.name == EventName::ReferenceString || e.name == EventName::LabelText) && kind != 32;
    if e.kind != Kind::Exit || !(definition || reference) {
        None
    } else {
        let (from, to) = spec_event_span(events, index);
        let identifier = spec_normalize_identifier(label_chars(value, from as int, to as int));
        if identifier.len() == 0 { None } else { Some((definition, identifier)) }
    }
}

/// The characters of the bytes `from..to` of the valid UTF-8 `value`.
pub open spec fn label_chars(value: Seq<u8>, from: int, to: int) -> Seq<char> {
    vstd::utf8::decode_utf8(value.subrange(from, to))
}

/// The dependencies of events `start..index`, in order: definitions with
/// their block fingerprint, references, and whether a footnote occurs.
pub open spec fn event_dependencies(value: Seq<u8>, events: Seq<ParserEvent>, start: int, index: int, kind: u8, value_fingerprint: u64)
    -> (Seq<(Seq<char>, u64)>, Seq<Seq<char>>, bool)
    decreases index - start,
{
    if index <= start {
        (Seq::empty(), Seq::empty(), false)
    } else {
        let before = event_dependencies(value, events, start, index - 1, kind, value_fingerprint);
        let e = events[index - 1];
        let footnote = e.name == EventName::GfmFootnoteDefinition || e.name == EventName::GfmFootnoteCall;
        match event_dependency(value, events, index - 1, kind) {
            Some((true, identifier)) => (before.0.push((identifier, value_fingerprint)), before.1, before.2 || footnote),
            Some((false, identifier)) => (before.0, before.1.push(identifier), before.2 || footnote),
            None => (before.0, before.1, before.2 || footnote),
        }
    }
}

/// Collect the definitions, references and footnotes of events
/// `start..=end` of a block of class `kind` whose fingerprint is
/// `block_fingerprint`.
pub fn collect_event_dependencies(
    value: &str,
    events: &[ParserEvent],
    start: usize,
    end: usize,
    kind: BlockKind,
    block_fingerprint: u64,
    definitions: &mut Vec<(String, u64)>,
    references: &mut Vec<String>,
    footnote: &mut bool,
)
    requires
        start <= end < events@.len(),
        indices_valid(value.spec_bytes(), events@),
        indices_sorted(events@),
    ensures
        defs_view(final(definitions)@) == defs_view(old(definitions)@)
            + event_dependencies(value.spec_bytes(), events@, start as int, end + 1, kind.0, block_fingerprint).0,
        strings_view(final(references)@) == strings_view(old(references)@)
            + event_dependencies(value.spec_bytes(), events@, start as int, end + 1, kind.0, block_fingerprint).1,
        *final(footnote) == (*old(footnote)
            || event_dependencies(value.spec_bytes(), events@, start as int, end + 1, kind.0, block_fingerprint).2),
{
    let ghost bytes = value.spec_bytes();
    let ghost d0 = defs_view(definitions@);
    let ghost r0 = strings_view(references@);
    let ghost f0 = *footnote;
    let mut index = start;
    while index <= end
        invariant
            start <= index <= end + 1,
            end < events@.len(),
            bytes == value.spec_bytes(),
            indices_valid(bytes, events@),
            indices_sorted(events@),
            defs_view(definitions@) == d0 + event_dependencies(bytes, events@, start as int, index as int, kind.0, block_fingerprint).0,
            strings_view(references@) == r0 + event_dependencies(bytes, events@, start as int, index as int, kind.0, block_fingerprint).1,
            *footnote == (f0 || event_dependencies(bytes, events@, start as int, index as int, kind.0, block_fingerprint).2),
        decreases end + 1 - index,
    {
        let event = &events[index];
        if event.name == EventName::GfmFootnoteDefinition || event.name == EventName::GfmFootnoteCall {
            *footnote = true;
        }
        let definition = event.name == EventName::DefinitionLabelString && kind.0 == 32;
        let reference = (event.name == EventName::ReferenceString || event.name == EventName::LabelText) && kind.0 != 32;
        if event.kind == Kind::Exit && (definition || reference) {
            let (label_start, label_end) = event_span(events, index);
            proof {
                assert(events@[index as int] == *event);
                let j = matching_enter(events@, event.name, index as int, 1);
                if j is Some {
                    lemma_matching_enter_range(events@, event.name, index as int, 1);
                    assert(events@[j->0].index <= events@[index as int].index);
                }
                assert(label_start <= label_end);
            }
            let label = substring(value, label_start, label_end);
            let identifier = normalize_identifier(label);
            proof {
                vstd::utf8::encode_utf8_decode_utf8(label@);
                assert(label@ == label_chars(bytes, label_start as int, label_end as int));
            }
            if !identifier.as_str().is_empty() {
                if definition {
                    let ghost before = defs_view(definitions@);
                    definitions.push((identifier, block_fingerprint));
                    proof {
                        assert(defs_view(definitions@) =~= before.push((identifier@, block_fingerprint)));
                    }
                } else {
                    let ghost before = strings_view(references@);
                    references.push(identifier);
                    proof {
                        assert(strings_view(references@) =~= before.push(identifier@));
                    }
                }
            }
        }
        index += 1;
    }
}

/// A matching enter lies before the scan position.
proof fn lemma_matching_enter_range(events: Seq<ParserEvent>, name: EventName, index: int, depth: int)
    requires
        matching_enter(events, name, index, depth) is Some,
    ensures
        0 <= matching_enter(events, name, index, depth)->0 < index,
    decreases index,
{
    if index > 0 {
        let e = events[index - 1];
        if e.name != name {
            lemma_matching_enter_range(events, name, index - 1, depth);
        } else if e.kind == Kind::Exit {
            lemma_matching_enter_range(events, name, index - 1, depth + 1);
        } else if depth - 1 != 0 {
            lemma_matching_enter_range(events, name, index - 1, depth - 1);
        }
    }
}

/// Scanning events `0..k`: the construct still open (its name, block class,
/// first byte, first event and nesting depth), and the constructs closed so
/// far (first byte, end byte, block class, first event and last event).
pub open spec fn scan(events: Seq<ParserEvent>, k: int) -> (Option<(EventName, u8, int, int, int)>, Seq<(int, int, u8, int, int)>)
    decreases k,
{
    if k <= 0 {
        (None, Seq::empty())
    } else {
        let (active, found) = scan(events, k - 1);
        let e = events[k - 1];
        match active {
            Some((name, kind, start, first, depth)) => if e.name == name {
                if e.kind == Kind::Enter {
                    (Some((name, kind, start, first, depth + 1)), found)
                } else if depth - 1 == 0 {
                    (None, found.push((start, e.index as int, kind, first, k - 1)))
                } else {
                    (Some((name, kind, start, first, depth - 1)), found)
                }
            } else {
                (active, found)
            },
            None => if e.kind == Kind::Enter && spec_event_block_kind(e.name) is Some {
                (Some((e.name, spec_event_block_kind(e.name)->0, e.index as int, k - 1, 1)), found)
            } else {
                (None, found)
            },
        }
    }
}

/// Whether `b` is the block, with identity `id`, of the closed construct
/// `c` of a region at `base` with bytes `bytes` and events `events`.
pub open spec fn block_from_events(b: Block, bytes: Seq<u8>, base: usize, events: Seq<ParserEvent>, c: (int, int, u8, int, int), id: u64) -> bool {
    let (start, end, kind, first, last) = c;
    let value_fingerprint = spec_fingerprint(kind, bytes.subrange(start, end));
    let deps = event_dependencies(bytes, events, first, last + 1, kind, value_fingerprint);
    &&& b.start == base + start
    &&& b.end == base + end
    &&& b.id == id
    &&& b.kind.0 == kind
    &&& b.fingerprint == value_fingerprint
    &&& b.html@.len() == 0
    &&& defs_view(b.definitions@) == deps.0
    &&& strictly_sorted(strings_view(b.references@))
    &&& strings_view(b.references@).no_duplicates()
    &&& (forall|t: Seq<char>| strings_view(b.references@).contains(t) <==> deps.1.contains(t))
    &&& b.footnote == deps.2
}

/// The scan state is consistent with the events: an open construct starts
/// at its first event, at nesting depth at least one, and closed ones span
/// their events.
pub open spec fn scan_consistent(events: Seq<ParserEvent>, k: int) -> bool {
    let (active, found) = scan(events, k);
    &&& (active matches Some((name, kind, start, first, depth)) ==> {
        &&& 0 <= first < k
        &&& start == events[first].index
        &&& 1 <= depth <= k - first
        &&& spec_event_block_kind(name) == Some(kind)
    })
    &&& found.len() <= k
    &&& forall|i: int| 0 <= i < found.len() ==> {
        let (start, end, kind, first, last) = #[trigger] found[i];
        &&& 0 <= first < last < k
        &&& start == events[first].index
        &&& end == events[last].index
    }
}

/// Each step keeps the scan consistent.
proof fn lemma_scan_consistent(events: Seq<ParserEvent>, k: int)
    requires
        0 <= k <= events.len(),
    ensures
        scan_consistent(events, k),
    decreases k,
{
    if k > 0 {
        lemma_scan_consistent(events, k - 1);
        let (active, found) = scan(events, k - 1);
        let (active2, found2) = scan(events, k);
        assert forall|i: int| 0 <= i < found2.len() implies {
            let (start, end, kind, first, last) = #[trigger] found2[i];
            &&& 0 <= first < last < k
            &&& start == events[first].index
            &&& end == events[last].index
        } by {
            if i < found.len() {
                assert(found2[i] == found[i]);
            }
        }
    }
}

/// One block per top-level construct of `events`, which were parsed from
/// `value` found at byte `base` of the document; identities are taken from
/// `next_id`.
pub fn blocks_from_events(value: &str, base: usize, events: &[ParserEvent], next_id: &mut u64) -> (r: Vec<Block>)
    requires
        indices_valid(value.spec_bytes(), events@),
        indices_sorted(events@),
        base + value.spec_bytes().len() <= usize::MAX,
        *old(next_id) + events@.len() <= u64::MAX,
    ensures
        r@.len() == scan(events@, events@.len() as int).1.len(),
        *final(next_id) == *old(next_id) + r@.len(),
        forall|i: int| 0 <= i < r@.len() ==> block_from_events(#[trigger] r@[i], value.spec_bytes(), base, events@,
            scan(events@, events@.len() as int).1[i], (*old(next_id) + i) as u64),
{
    let ghost bytes = value.spec_bytes();
    let ghost first_id = *next_id;
    let bytes_exec = value.as_bytes();
    let mut result: Vec<Block> = Vec::new();
    let mut active: Option<(EventName, BlockKind, usize, usize, usize)> = None;
    let mut index: usize = 0;
    while index < events.len()
        invariant
            bytes == value.spec_bytes(),
            bytes_exec@ == bytes,
            indices_valid(bytes, events@),
            indices_sorted(events@),
            base + bytes.len() <= usize::MAX,
            first_id + events@.len() <= u64::MAX,
            index <= events@.len(),
            scan_consistent(events@, index as int),
            match (active, scan(events@, index as int).0) {
                (Some((n, k, s, f, d)), Some((n2, k2, s2, f2, d2))) => n == n2 && k.0 == k2 && s == s2 && f == f2 && d == d2,
                (None, None) => true,
                _ => false,
            },
            result@.len() == scan(events@, index as int).1.len(),
            *next_id == first_id + result@.len(),
            forall|i: int| 0 <= i < result@.len() ==> block_from_events(#[trigger] result@[i], bytes, base, events@,
                scan(events@, index as int).1[i], (first_id + i) as u64),
        decreases events.len() - index,
    {
        proof {
            lemma_scan_consistent(events@, index + 1);
        }
        let event = events[index];
        match active {
            Some((name, kind, start, first, depth)) => {
                if event.name == name {
                    match event.kind {
                        Kind::Enter => {
                            active = Some((name, kind, start, first, depth + 1));
                        },
                        Kind::Exit => {
                            if depth - 1 == 0 {
                                let end = event.index;
                                proof {
                                    assert(events@[first as int].index <= events@[index as int].index);
                                }
                                let text = vstd::slice::slice_subrange(bytes_exec, start, end);
                                let value_fingerprint = fingerprint(kind.0, text);
                                let mut definitions: Vec<(String, u64)> = Vec::new();
                                let mut gathered: Vec<String> = Vec::new();
                                let mut footnote = false;
                                collect_event_dependencies(value, events, first, index, kind, value_fingerprint,
                                    &mut definitions, &mut gathered, &mut footnote);
                                proof {
                                    assert(defs_view(definitions@) =~= event_dependencies(bytes, events@, first as int, index + 1, kind.0, value_fingerprint).0);
                                    assert(strings_view(gathered@) =~= event_dependencies(bytes, events@, first as int, index + 1, kind.0, value_fingerprint).1);
                                }
                                let references = sort_unique(gathered);
                                let id = *next_id;
                                *next_id = *next_id + 1;
                                let ghost before = result@;
                                result.push(Block {
                                    start: base + start,
                                    end: base + end,
                                    id,
                                    fingerprint: value_fingerprint,
                                    kind,
                                    html: String::new(),
                                    definitions,
                                    references,
                                    footnote,
                                });
                                proof {
                                    let found = scan(events@, index + 1).1;
                                    assert(found == scan(events@, index as int).1.push((start as int, end as int, kind.0, first as int, index as int)));
                                    assert forall|i: int| 0 <= i < result@.len() implies block_from_events(#[trigger] result@[i], bytes, base, events@,
                                        found[i], (first_id + i) as u64) by {
                                        if i < before.len() {
                                            assert(result@[i] == before[i]);
                                        }
                                    }
                                }
                                active = None;
                            } else {
                                active = Some((name, kind, start, first, depth - 1));
                            }
                        },
                    }
                }
            },
            None => {
                if event.kind == Kind::Enter {
                    match event_block_kind(&event.name) {
                        Some(kind) => {
                            active = Some((event.name, kind, event.index, index, 1));
                        },
                        None => {},
                    }
                }
            },
        }
        index += 1;
    }
    result
}

} // verus!
