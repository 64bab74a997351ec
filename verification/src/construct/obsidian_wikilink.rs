//! Obsidian: wikilink, in the text content type.
//!
//! ```bnf
//! obsidian_wikilink ::= '[[' target ']]'
//! ```
//!
//! `target` is parsed by the shared target parser.

use vstd::prelude::*;
use crate::construct::obsidian_target::{is_target_state, lemma_target_run, target_end};
use crate::state::{is_run, lemma_run_step, steps_valid};
use crate::tokenizer::{event, Event, Kind, Name, State, StateName, Tokenizer};

verus! {

/// What state `start` does: from tokenizer `before` to `after`, answering `s`.
pub open spec fn start_step(before: Tokenizer, s: State, after: Tokenizer) -> bool {
    ({
        let i = before.index as int;
        if (before.constructs.obsidian_wikilink) && (before.current == Some(0x5bu8)) {
            s == State::Next(StateName::ObsidianWikilinkOpen) && before.stepped_marking(&after, 1, seq![event(Kind::Enter, Name::ObsidianWikilink, i), event(Kind::Enter, Name::ObsidianWikilinkMarker, i)], Name::ObsidianWikilink)
        } else {
            s == State::Nok && before.stepped(&after, 0, seq![])
        }
    })
}

/// Start of wikilink, at the first `[`.
pub fn start(tokenizer: &mut Tokenizer) -> (s: State)
    requires
        old(tokenizer).wf(),
    ensures
        start_step(*old(tokenizer), s, *final(tokenizer)),
{
    if (tokenizer.constructs.obsidian_wikilink) && (tokenizer.current == Some(0x5bu8)) {
        tokenizer.token_1 = Name::ObsidianWikilink;
        tokenizer.enter(Name::ObsidianWikilink);
        tokenizer.enter(Name::ObsidianWikilinkMarker);
        tokenizer.consume();
        proof {
            assert(tokenizer.events@ =~= old(tokenizer).events@ + seq![event(Kind::Enter, Name::ObsidianWikilink, old(tokenizer).index as int), event(Kind::Enter, Name::ObsidianWikilinkMarker, old(tokenizer).index as int)]);
        }
        State::Next(StateName::ObsidianWikilinkOpen)
    } else {
        proof {
            assert(tokenizer.events@ =~= old(tokenizer).events@ + Seq::<Event>::empty());
        }
        State::Nok
    }
}

/// What state `open` does: from tokenizer `before` to `after`, answering `s`.
pub open spec fn open_step(before: Tokenizer, s: State, after: Tokenizer) -> bool {
    ({
        let i = before.index as int;
        if before.current == Some(0x5bu8) {
            s == State::Next(StateName::ObsidianTargetStart) && before.stepped(&after, 1, seq![event(Kind::Exit, Name::ObsidianWikilinkMarker, i + 1)])
        } else {
            s == State::Nok && before.stepped(&after, 0, seq![])
        }
    })
}

/// After the first `[`, at the second: the target follows.
pub fn open(tokenizer: &mut Tokenizer) -> (s: State)
    requires
        old(tokenizer).wf(),
    ensures
        open_step(*old(tokenizer), s, *final(tokenizer)),
{
    if tokenizer.current == Some(0x5bu8) {
        tokenizer.consume();
        tokenizer.exit(Name::ObsidianWikilinkMarker);
        proof {
            assert(tokenizer.events@ =~= old(tokenizer).events@ + seq![event(Kind::Exit, Name::ObsidianWikilinkMarker, old(tokenizer).index as int + 1)]);
        }
        State::Next(StateName::ObsidianTargetStart)
    } else {
        proof {
            assert(tokenizer.events@ =~= old(tokenizer).events@ + Seq::<Event>::empty());
        }
        State::Nok
    }
}

/// What state `close` does: from tokenizer `before` to `after`, answering `s`.
pub open spec fn close_step(before: Tokenizer, s: State, after: Tokenizer) -> bool {
    ({
        let i = before.index as int;
        if before.current == Some(0x5du8) {
            s == State::Done && before.stepped_marking(&after, 1, seq![event(Kind::Exit, Name::ObsidianWikilinkMarker, i + 1), event(Kind::Exit, Name::ObsidianWikilink, i + 1)], Name::Data)
        } else {
            s == State::Nok && before.stepped(&after, 0, seq![])
        }
    })
}

/// At the second `]` of `]]`, closing the wikilink.
pub fn close(tokenizer: &mut Tokenizer) -> (s: State)
    requires
        old(tokenizer).wf(),
    ensures
        close_step(*old(tokenizer), s, *final(tokenizer)),
{
    if tokenizer.current == Some(0x5du8) {
        tokenizer.consume();
        tokenizer.exit(Name::ObsidianWikilinkMarker);
        tokenizer.exit(Name::ObsidianWikilink);
        tokenizer.token_1 = Name::Data;
        proof {
            assert(tokenizer.events@ =~= old(tokenizer).events@ + seq![event(Kind::Exit, Name::ObsidianWikilinkMarker, old(tokenizer).index as int + 1), event(Kind::Exit, Name::ObsidianWikilink, old(tokenizer).index as int + 1)]);
        }
        State::Done
    } else {
        proof {
            assert(tokenizer.events@ =~= old(tokenizer).events@ + Seq::<Event>::empty());
        }
        State::Nok
    }
}

/// A wikilink run matches exactly when the input holds `[[`, a target, and
/// `]]`; it then stands after the closing brackets.
pub proof fn lemma_wikilink_grammar(
    trace: Seq<(StateName, Tokenizer, State, Tokenizer)>,
    first: Tokenizer,
    last: Tokenizer,
    matched: bool,
)
    requires
        first.wf(),
        first.constructs.obsidian_wikilink,
        is_run(trace, StateName::ObsidianWikilinkStart, first, last, matched),
    ensures
        matched == ({
            let bytes = first.bytes@;
            let i = first.index as int;
            &&& i + 1 < bytes.len()
            &&& bytes[i] == 0x5bu8
            &&& bytes[i + 1] == 0x5bu8
            &&& target_end(bytes, i + 2) matches Some(c) && c + 1 < bytes.len() && bytes[c + 1] == 0x5du8
        }),
        matched ==> last.index == target_end(first.bytes@, first.index + 2)->0 + 2,
{
    lemma_run_step(trace, 0);
    assert(start_step(first, trace[0].2, trace[0].3));
    if trace.len() == 1 {
        assert(trace[0] == trace.last());
    } else {
        lemma_run_step(trace, 1);
        assert(open_step(trace[1].1, trace[1].2, trace[1].3));
        if trace.len() == 2 {
            assert(trace[1] == trace.last());
        } else {
            lemma_run_step(trace, 2);
            assert(is_target_state(trace[2].0));
            lemma_target_run(trace, 2);
        }
    }
}

/// A byte of an Obsidian block id: an ASCII letter or digit, `-`, or `_`.
pub open spec fn id_byte(c: u8) -> bool {
    (0x30u8 <= c && c <= 0x39u8) || (0x41u8 <= c && c <= 0x5au8) || (0x61u8 <= c && c <= 0x7au8)
        || c == 0x2du8 || c == 0x5fu8
}

/// No event from `from` up to `to` is a heading or a block id of a target.
pub open spec fn no_target_marks(ev: Seq<Event>, from: int, to: int) -> bool {
    forall|j: int| from <= j < to ==> (#[trigger] ev[j]).name != Name::ObsidianTargetHeading
        && ev[j].name != Name::ObsidianTargetBlockId
}

/// Where a wikilink run over a `#^` block reference stands at a state
/// `name` with tokenizer `t`: the wikilink starts at `i0` with events from
/// `n0` on, `#^` is at `h`, and the id ends at `e`; `a` and `b` are where
/// the block id is entered and exited.
pub open spec fn block_ref_phase(
    name: StateName,
    t: Tokenizer,
    bytes: Seq<u8>,
    n0: int,
    i0: int,
    h: int,
    e: int,
    a: int,
    b: int,
) -> bool {
    let ev = t.events@;
    let p = t.index as int;
    &&& t.wf()
    &&& t.bytes@ == bytes
    &&& t.token_1 == Name::ObsidianWikilink
    &&& 0 <= n0 <= ev.len()
    &&& if name == StateName::ObsidianWikilinkOpen {
        p == i0 + 1 && no_target_marks(ev, n0, ev.len() as int)
    } else if name == StateName::ObsidianTargetStart {
        p == i0 + 2 && no_target_marks(ev, n0, ev.len() as int)
    } else if name == StateName::ObsidianTargetPath {
        i0 + 2 <= p <= h && no_target_marks(ev, n0, ev.len() as int)
    } else if name == StateName::ObsidianTargetAfterHash {
        p == h + 1 && no_target_marks(ev, n0, ev.len() as int)
    } else if name == StateName::ObsidianTargetAfterCaret {
        p == h + 2 && no_target_marks(ev, n0, ev.len() as int)
    } else if name == StateName::ObsidianTargetBlockId {
        &&& h + 2 <= p <= e
        &&& n0 <= a < ev.len()
        &&& ev[a] == event(Kind::Enter, Name::ObsidianTargetBlockId, h + 2)
        &&& no_target_marks(ev, n0, a)
        &&& no_target_marks(ev, a + 1, ev.len() as int)
    } else if name == StateName::ObsidianTargetClose || name == StateName::ObsidianTargetAfterPipe
        || name == StateName::ObsidianTargetAlias || name == StateName::ObsidianWikilinkClose {
        &&& n0 <= a < b < ev.len()
        &&& ev[a] == event(Kind::Enter, Name::ObsidianTargetBlockId, h + 2)
        &&& ev[b] == event(Kind::Exit, Name::ObsidianTargetBlockId, e)
        &&& no_target_marks(ev, n0, a)
        &&& no_target_marks(ev, a + 1, b)
        &&& no_target_marks(ev, b + 1, ev.len() as int)
    } else {
        false
    }
}

/// Appending events without target marks keeps a run of events free of
/// them.
proof fn lemma_no_marks_append(ev: Seq<Event>, pushed: Seq<Event>, from: int)
    requires
        0 <= from <= ev.len(),
        no_target_marks(ev, from, ev.len() as int),
        no_target_marks(pushed, 0, pushed.len() as int),
    ensures
        no_target_marks(ev + pushed, from, (ev + pushed).len() as int),
{
    assert forall|j: int| from <= j < (ev + pushed).len() implies (#[trigger] (ev + pushed)[j]).name != Name::ObsidianTargetHeading
        && (ev + pushed)[j].name != Name::ObsidianTargetBlockId by {
        if j >= ev.len() {
            assert((ev + pushed)[j] == pushed[j - ev.len()]);
        }
    }
}

/// From step `k` of a matched wikilink run over a `#^` block reference,
/// the run ends with the block id entered once at the id and exited once
/// at its end, and no heading.
proof fn lemma_block_ref_from(
    trace: Seq<(StateName, Tokenizer, State, Tokenizer)>,
    k: int,
    bytes: Seq<u8>,
    n0: int,
    i0: int,
    h: int,
    e: int,
    a: int,
    b: int,
) -> (r: (int, int))
    requires
        0 <= k < trace.len(),
        steps_valid(trace),
        trace.last().2 == State::Done,
        0 <= i0,
        i0 + 2 <= h,
        h + 2 < e <= bytes.len(),
        bytes[h] == 0x23u8,
        bytes[h + 1] == 0x5eu8,
        forall|q: int| i0 + 2 <= q < h ==> #[trigger] bytes[q] != 0x23u8 && bytes[q] != 0x7cu8 && bytes[q] != 0x5du8,
        forall|q: int| h + 2 <= q < e ==> id_byte(#[trigger] bytes[q]),
        e < bytes.len() ==> !id_byte(bytes[e]),
        block_ref_phase(trace[k].0, trace[k].1, bytes, n0, i0, h, e, a, b),
    ensures
        ({
            let ev = trace.last().3.events@;
            &&& ev.subrange(0, n0) == trace[k].1.events@.subrange(0, n0)
            &&& n0 <= r.0 < r.1 < ev.len()
            &&& ev[r.0] == event(Kind::Enter, Name::ObsidianTargetBlockId, h + 2)
            &&& ev[r.1] == event(Kind::Exit, Name::ObsidianTargetBlockId, e)
            &&& no_target_marks(ev, n0, r.0)
            &&& no_target_marks(ev, r.0 + 1, r.1)
            &&& no_target_marks(ev, r.1 + 1, ev.len() as int)
        }),
    decreases trace.len() - k,
{
    lemma_run_step(trace, k);
    let name = trace[k].0;
    let before = trace[k].1;
    let after = trace[k].3;
    let ev = before.events@;
    let p = before.index as int;
    if k + 1 < trace.len() {
        lemma_run_step(trace, k + 1);
        assert(trace[k].2 != State::Done && trace[k].2 != State::Nok);
        let next = trace[k + 1].0;
        assert(trace[k + 1].1 == after);
        let pushed = after.events@.subrange(ev.len() as int, after.events@.len() as int);
        assert(after.events@ == ev + pushed);
        assert(after.events@.subrange(0, n0) =~= ev.subrange(0, n0));
        if name == StateName::ObsidianWikilinkOpen {
            lemma_no_marks_append(ev, pushed, n0);
            lemma_block_ref_from(trace, k + 1, bytes, n0, i0, h, e, a, b)
        } else if name == StateName::ObsidianTargetStart || name == StateName::ObsidianTargetPath {
            if p < h {
                assert(bytes[p] != 0x23u8 && bytes[p] != 0x7cu8 && bytes[p] != 0x5du8);
            }
            lemma_no_marks_append(ev, pushed, n0);
            lemma_block_ref_from(trace, k + 1, bytes, n0, i0, h, e, a, b)
        } else if name == StateName::ObsidianTargetAfterHash {
            lemma_no_marks_append(ev, pushed, n0);
            lemma_block_ref_from(trace, k + 1, bytes, n0, i0, h, e, a, b)
        } else if name == StateName::ObsidianTargetAfterCaret {
            let a1 = ev.len() as int;
            assert(after.events@[a1] == event(Kind::Enter, Name::ObsidianTargetBlockId, h + 2));
            assert(no_target_marks(after.events@, n0, a1)) by {
                assert forall|j: int| n0 <= j < a1 implies (#[trigger] after.events@[j]).name != Name::ObsidianTargetHeading
                    && after.events@[j].name != Name::ObsidianTargetBlockId by {
                    assert(after.events@[j] == ev[j]);
                }
            }
            lemma_block_ref_from(trace, k + 1, bytes, n0, i0, h, e, a1, b)
        } else if name == StateName::ObsidianTargetBlockId {
            if p < e {
                assert(id_byte(bytes[p]));
                assert(bytes[p] != 0x5du8 && bytes[p] != 0x7cu8);
                assert(crate::util::text::spec_is_block_id_byte(bytes[p]));
                assert(after.events@ == ev);
                assert(after.events@.subrange(0, n0) =~= ev.subrange(0, n0));
                lemma_block_ref_from(trace, k + 1, bytes, n0, i0, h, e, a, b)
            } else {
                assert(p == e);
                assert(e < bytes.len());
                assert(bytes[e] == 0x5du8 || bytes[e] == 0x7cu8) by {
                    if bytes[e] != 0x5du8 && bytes[e] != 0x7cu8 {
                        assert(!crate::util::text::spec_is_block_id_byte(bytes[e]));
                    }
                }
                let b1 = ev.len() as int;
                assert(after.events@[b1] == event(Kind::Exit, Name::ObsidianTargetBlockId, e));
                assert(after.events@[a] == ev[a]);
                assert(no_target_marks(after.events@, n0, a)) by {
                    assert forall|j: int| n0 <= j < a implies (#[trigger] after.events@[j]).name != Name::ObsidianTargetHeading
                        && after.events@[j].name != Name::ObsidianTargetBlockId by {
                        assert(after.events@[j] == ev[j]);
                    }
                }
                assert(no_target_marks(after.events@, a + 1, b1)) by {
                    assert forall|j: int| a + 1 <= j < b1 implies (#[trigger] after.events@[j]).name != Name::ObsidianTargetHeading
                        && after.events@[j].name != Name::ObsidianTargetBlockId by {
                        assert(after.events@[j] == ev[j]);
                    }
                }
                assert(no_target_marks(after.events@, b1 + 1, after.events@.len() as int)) by {
                    assert forall|j: int| b1 + 1 <= j < after.events@.len() implies (#[trigger] after.events@[j]).name != Name::ObsidianTargetHeading
                        && after.events@[j].name != Name::ObsidianTargetBlockId by {
                        assert(after.events@[j] == pushed[j - ev.len()]);
                    }
                }
                lemma_block_ref_from(trace, k + 1, bytes, n0, i0, h, e, a, b1)
            }
        } else {
            assert(after.events@[a] == ev[a]);
            assert(after.events@[b] == ev[b]);
            assert(no_target_marks(after.events@, n0, a)) by {
                assert forall|j: int| n0 <= j < a implies (#[trigger] after.events@[j]).name != Name::ObsidianTargetHeading
                    && after.events@[j].name != Name::ObsidianTargetBlockId by {
                    assert(after.events@[j] == ev[j]);
                }
            }
            assert(no_target_marks(after.events@, a + 1, b)) by {
                assert forall|j: int| a + 1 <= j < b implies (#[trigger] after.events@[j]).name != Name::ObsidianTargetHeading
                    && after.events@[j].name != Name::ObsidianTargetBlockId by {
                    assert(after.events@[j] == ev[j]);
                }
            }
            lemma_no_marks_append(ev, pushed, b + 1);
            lemma_block_ref_from(trace, k + 1, bytes, n0, i0, h, e, a, b)
        }
    } else {
        assert(trace[k] == trace.last());
        assert(name == StateName::ObsidianWikilinkClose);
        let pushed = after.events@.subrange(ev.len() as int, after.events@.len() as int);
        assert(after.events@ == ev + pushed);
        assert(after.events@.subrange(0, n0) =~= ev.subrange(0, n0));
        assert(after.events@[a] == ev[a]);
        assert(after.events@[b] == ev[b]);
        assert(no_target_marks(after.events@, n0, a)) by {
            assert forall|j: int| n0 <= j < a implies (#[trigger] after.events@[j]).name != Name::ObsidianTargetHeading
                && after.events@[j].name != Name::ObsidianTargetBlockId by {
                assert(after.events@[j] == ev[j]);
            }
        }
        assert(no_target_marks(after.events@, a + 1, b)) by {
            assert forall|j: int| a + 1 <= j < b implies (#[trigger] after.events@[j]).name != Name::ObsidianTargetHeading
                && after.events@[j].name != Name::ObsidianTargetBlockId by {
                assert(after.events@[j] == ev[j]);
            }
        }
        lemma_no_marks_append(ev, pushed, b + 1);
        (a, b)
    }
}

/// The block id marks at `a` and `b` of the events of a run, seen from
/// where the run started.
proof fn lemma_block_ref_events(ev: Seq<Event>, n0: int, h: int, e: int, a: int, b: int)
    requires
        n0 <= a < b < ev.len(),
        0 <= n0,
        ev[a] == event(Kind::Enter, Name::ObsidianTargetBlockId, h + 2),
        ev[b] == event(Kind::Exit, Name::ObsidianTargetBlockId, e),
        no_target_marks(ev, n0, a),
        no_target_marks(ev, a + 1, b),
        no_target_marks(ev, b + 1, ev.len() as int),
    ensures
        ({
            let pushed = ev.subrange(n0, ev.len() as int);
            &&& pushed[a - n0] == event(Kind::Enter, Name::ObsidianTargetBlockId, h + 2)
            &&& pushed[b - n0] == event(Kind::Exit, Name::ObsidianTargetBlockId, e)
            &&& forall|j: int| 0 <= j < pushed.len() ==> (#[trigger] pushed[j]).name != Name::ObsidianTargetHeading
            &&& forall|j: int| 0 <= j < pushed.len() && j != a - n0 && j != b - n0
                ==> (#[trigger] pushed[j]).name != Name::ObsidianTargetBlockId
        }),
{
    let pushed = ev.subrange(n0, ev.len() as int);
    assert forall|j: int| 0 <= j < pushed.len() implies (#[trigger] pushed[j]).name != Name::ObsidianTargetHeading by {
        assert(pushed[j] == ev[n0 + j]);
    }
    assert forall|j: int| 0 <= j < pushed.len() && j != a - n0 && j != b - n0
        implies (#[trigger] pushed[j]).name != Name::ObsidianTargetBlockId by {
        assert(pushed[j] == ev[n0 + j]);
    }
}

/// In a matched wikilink whose target has a `#` at `h`, with a path free of
/// `#`, `|` and `]` before it, followed by `^` and a block id that ends at
/// `e`: the run marks a block reference, not a heading. Of its events, the
/// block id is entered exactly once, at the id, and exited exactly once, at
/// the end of the id, and no event is a heading.
pub proof fn lemma_wikilink_block_reference(
    trace: Seq<(StateName, Tokenizer, State, Tokenizer)>,
    first: Tokenizer,
    last: Tokenizer,
    h: int,
    e: int,
) -> (r: (int, int))
    requires
        first.wf(),
        is_run(trace, StateName::ObsidianWikilinkStart, first, last, true),
        first.index + 2 <= h,
        h + 2 < e <= first.bytes@.len(),
        first.bytes@[h] == 0x23u8,
        first.bytes@[h + 1] == 0x5eu8,
        forall|q: int| first.index + 2 <= q < h ==> #[trigger] first.bytes@[q] != 0x23u8
            && first.bytes@[q] != 0x7cu8 && first.bytes@[q] != 0x5du8,
        forall|q: int| h + 2 <= q < e ==> id_byte(#[trigger] first.bytes@[q]),
        e < first.bytes@.len() ==> !id_byte(first.bytes@[e]),
    ensures
        ({
            let n0 = first.events@.len() as int;
            let pushed = last.events@.subrange(n0, last.events@.len() as int);
            &&& last.events@.subrange(0, n0) == first.events@
            &&& 0 <= r.0 < r.1 < pushed.len()
            &&& pushed[r.0] == event(Kind::Enter, Name::ObsidianTargetBlockId, h + 2)
            &&& pushed[r.1] == event(Kind::Exit, Name::ObsidianTargetBlockId, e)
            &&& forall|j: int| 0 <= j < pushed.len() ==> (#[trigger] pushed[j]).name != Name::ObsidianTargetHeading
            &&& forall|j: int| 0 <= j < pushed.len() && j != r.0 && j != r.1
                ==> (#[trigger] pushed[j]).name != Name::ObsidianTargetBlockId
        }),
{
    let n0 = first.events@.len() as int;
    let bytes = first.bytes@;
    let i0 = first.index as int;
    lemma_run_step(trace, 0);
    assert(start_step(first, trace[0].2, trace[0].3));
    if trace.len() == 1 {
        assert(trace[0] == trace.last());
    }
    lemma_run_step(trace, 1);
    let t1 = trace[1].1;
    assert(trace[1].0 == StateName::ObsidianWikilinkOpen);
    assert(t1 == trace[0].3);
    assert(t1.events@ == first.events@ + seq![event(Kind::Enter, Name::ObsidianWikilink, i0),
        event(Kind::Enter, Name::ObsidianWikilinkMarker, i0)]);
    assert(no_target_marks(t1.events@, n0, t1.events@.len() as int)) by {
        assert forall|j: int| n0 <= j < t1.events@.len() implies (#[trigger] t1.events@[j]).name != Name::ObsidianTargetHeading
            && t1.events@[j].name != Name::ObsidianTargetBlockId by {
        }
    }
    let (a, b) = lemma_block_ref_from(trace, 1, bytes, n0, i0, h, e, 0, 0);
    assert(t1.events@.subrange(0, n0) =~= first.events@);
    lemma_block_ref_events(last.events@, n0, h, e, a, b);
    (a - n0, b - n0)
}

/// Where a wikilink run over a `#` heading reference stands at a state
/// `name` with tokenizer `t`: the wikilink starts at `i0` with events from
/// `n0` on, `#` is at `h`, and the heading ends at `e`; `a` and `b` are
/// where the heading is entered and exited.
pub open spec fn heading_ref_phase(
    name: StateName,
    t: Tokenizer,
    bytes: Seq<u8>,
    n0: int,
    i0: int,
    h: int,
    e: int,
    a: int,
    b: int,
) -> bool {
    let ev = t.events@;
    let p = t.index as int;
    &&& t.wf()
    &&& t.bytes@ == bytes
    &&& t.token_1 == Name::ObsidianWikilink
    &&& 0 <= n0 <= ev.len()
    &&& if name == StateName::ObsidianWikilinkOpen {
        p == i0 + 1 && no_target_marks(ev, n0, ev.len() as int)
    } else if name == StateName::ObsidianTargetStart {
        p == i0 + 2 && no_target_marks(ev, n0, ev.len() as int)
    } else if name == StateName::ObsidianTargetPath {
        i0 + 2 <= p <= h && no_target_marks(ev, n0, ev.len() as int)
    } else if name == StateName::ObsidianTargetAfterHash {
        p == h + 1 && no_target_marks(ev, n0, ev.len() as int)
    } else if name == StateName::ObsidianTargetHeading {
        &&& h + 1 <= p <= e
        &&& n0 <= a < ev.len()
        &&& ev[a] == event(Kind::Enter, Name::ObsidianTargetHeading, h + 1)
        &&& no_target_marks(ev, n0, a)
        &&& no_target_marks(ev, a + 1, ev.len() as int)
    } else if name == StateName::ObsidianTargetClose || name == StateName::ObsidianTargetAfterPipe
        || name == StateName::ObsidianTargetAlias || name == StateName::ObsidianWikilinkClose {
        &&& n0 <= a < b < ev.len()
        &&& ev[a] == event(Kind::Enter, Name::ObsidianTargetHeading, h + 1)
        &&& ev[b] == event(Kind::Exit, Name::ObsidianTargetHeading, e)
        &&& no_target_marks(ev, n0, a)
        &&& no_target_marks(ev, a + 1, b)
        &&& no_target_marks(ev, b + 1, ev.len() as int)
    } else {
        false
    }
}

/// From step `k` of a matched wikilink run over a `#` heading reference,
/// the run ends with the heading entered once and exited once at its end,
/// and no block id.
proof fn lemma_heading_ref_from(
    trace: Seq<(StateName, Tokenizer, State, Tokenizer)>,
    k: int,
    bytes: Seq<u8>,
    n0: int,
    i0: int,
    h: int,
    e: int,
    a: int,
    b: int,
) -> (r: (int, int))
    requires
        0 <= k < trace.len(),
        steps_valid(trace),
        trace.last().2 == State::Done,
        0 <= i0,
        i0 + 2 <= h,
        h + 1 < e < bytes.len(),
        bytes[h] == 0x23u8,
        bytes[h + 1] != 0x5eu8,
        forall|q: int| i0 + 2 <= q < h ==> #[trigger] bytes[q] != 0x23u8 && bytes[q] != 0x7cu8 && bytes[q] != 0x5du8,
        forall|q: int| h + 1 <= q < e ==> #[trigger] bytes[q] != 0x5du8 && bytes[q] != 0x7cu8 && bytes[q] != 0x0au8,
        bytes[e] == 0x5du8 || bytes[e] == 0x7cu8,
        heading_ref_phase(trace[k].0, trace[k].1, bytes, n0, i0, h, e, a, b),
    ensures
        ({
            let ev = trace.last().3.events@;
            &&& ev.subrange(0, n0) == trace[k].1.events@.subrange(0, n0)
            &&& n0 <= r.0 < r.1 < ev.len()
            &&& ev[r.0] == event(Kind::Enter, Name::ObsidianTargetHeading, h + 1)
            &&& ev[r.1] == event(Kind::Exit, Name::ObsidianTargetHeading, e)
            &&& no_target_marks(ev, n0, r.0)
            &&& no_target_marks(ev, r.0 + 1, r.1)
            &&& no_target_marks(ev, r.1 + 1, ev.len() as int)
        }),
    decreases trace.len() - k,
{
    lemma_run_step(trace, k);
    let name = trace[k].0;
    let before = trace[k].1;
    let after = trace[k].3;
    let ev = before.events@;
    let p = before.index as int;
    if k + 1 < trace.len() {
        lemma_run_step(trace, k + 1);
        assert(trace[k].2 != State::Done && trace[k].2 != State::Nok);
        let next = trace[k + 1].0;
        assert(trace[k + 1].1 == after);
        let pushed = after.events@.subrange(ev.len() as int, after.events@.len() as int);
        assert(after.events@ == ev + pushed);
        assert(after.events@.subrange(0, n0) =~= ev.subrange(0, n0));
        if name == StateName::ObsidianWikilinkOpen {
            lemma_no_marks_append(ev, pushed, n0);
            lemma_heading_ref_from(trace, k + 1, bytes, n0, i0, h, e, a, b)
        } else if name == StateName::ObsidianTargetStart || name == StateName::ObsidianTargetPath {
            if p < h {
                assert(bytes[p] != 0x23u8 && bytes[p] != 0x7cu8 && bytes[p] != 0x5du8);
            }
            lemma_no_marks_append(ev, pushed, n0);
            lemma_heading_ref_from(trace, k + 1, bytes, n0, i0, h, e, a, b)
        } else if name == StateName::ObsidianTargetAfterHash {
            let a1 = ev.len() as int;
            assert(after.events@[a1] == event(Kind::Enter, Name::ObsidianTargetHeading, h + 1));
            assert(no_target_marks(after.events@, n0, a1)) by {
                assert forall|j: int| n0 <= j < a1 implies (#[trigger] after.events@[j]).name != Name::ObsidianTargetHeading
                    && after.events@[j].name != Name::ObsidianTargetBlockId by {
                    assert(after.events@[j] == ev[j]);
                }
            }
            lemma_heading_ref_from(trace, k + 1, bytes, n0, i0, h, e, a1, b)
        } else if name == StateName::ObsidianTargetHeading {
            if p < e {
                assert(bytes[p] != 0x5du8 && bytes[p] != 0x7cu8 && bytes[p] != 0x0au8);
                assert(after.events@ == ev);
                assert(after.events@.subrange(0, n0) =~= ev.subrange(0, n0));
                lemma_heading_ref_from(trace, k + 1, bytes, n0, i0, h, e, a, b)
            } else {
                assert(p == e);
                let b1 = ev.len() as int;
                assert(after.events@[b1] == event(Kind::Exit, Name::ObsidianTargetHeading, e));
                assert(after.events@[a] == ev[a]);
                assert(no_target_marks(after.events@, n0, a)) by {
                    assert forall|j: int| n0 <= j < a implies (#[trigger] after.events@[j]).name != Name::ObsidianTargetHeading
                        && after.events@[j].name != Name::ObsidianTargetBlockId by {
                        assert(after.events@[j] == ev[j]);
                    }
                }
                assert(no_target_marks(after.events@, a + 1, b1)) by {
                    assert forall|j: int| a + 1 <= j < b1 implies (#[trigger] after.events@[j]).name != Name::ObsidianTargetHeading
                        && after.events@[j].name != Name::ObsidianTargetBlockId by {
                        assert(after.events@[j] == ev[j]);
                    }
                }
                assert(no_target_marks(after.events@, b1 + 1, after.events@.len() as int)) by {
                    assert forall|j: int| b1 + 1 <= j < after.events@.len() implies (#[trigger] after.events@[j]).name != Name::ObsidianTargetHeading
                        && after.events@[j].name != Name::ObsidianTargetBlockId by {
                        assert(after.events@[j] == pushed[j - ev.len()]);
                    }
                }
                lemma_heading_ref_from(trace, k + 1, bytes, n0, i0, h, e, a, b1)
            }
        } else {
            assert(after.events@[a] == ev[a]);
            assert(after.events@[b] == ev[b]);
            assert(no_target_marks(after.events@, n0, a)) by {
                assert forall|j: int| n0 <= j < a implies (#[trigger] after.events@[j]).name != Name::ObsidianTargetHeading
                    && after.events@[j].name != Name::ObsidianTargetBlockId by {
                    assert(after.events@[j] == ev[j]);
                }
            }
            assert(no_target_marks(after.events@, a + 1, b)) by {
                assert forall|j: int| a + 1 <= j < b implies (#[trigger] after.events@[j]).name != Name::ObsidianTargetHeading
                    && after.events@[j].name != Name::ObsidianTargetBlockId by {
                    assert(after.events@[j] == ev[j]);
                }
            }
            lemma_no_marks_append(ev, pushed, b + 1);
            lemma_heading_ref_from(trace, k + 1, bytes, n0, i0, h, e, a, b)
        }
    } else {
        assert(trace[k] == trace.last());
        assert(name == StateName::ObsidianWikilinkClose);
        let pushed = after.events@.subrange(ev.len() as int, after.events@.len() as int);
        assert(after.events@ == ev + pushed);
        assert(after.events@.subrange(0, n0) =~= ev.subrange(0, n0));
        assert(after.events@[a] == ev[a]);
        assert(after.events@[b] == ev[b]);
        assert(no_target_marks(after.events@, n0, a)) by {
            assert forall|j: int| n0 <= j < a implies (#[trigger] after.events@[j]).name != Name::ObsidianTargetHeading
                && after.events@[j].name != Name::ObsidianTargetBlockId by {
                assert(after.events@[j] == ev[j]);
            }
        }
        assert(no_target_marks(after.events@, a + 1, b)) by {
            assert forall|j: int| a + 1 <= j < b implies (#[trigger] after.events@[j]).name != Name::ObsidianTargetHeading
                && after.events@[j].name != Name::ObsidianTargetBlockId by {
                assert(after.events@[j] == ev[j]);
            }
        }
        lemma_no_marks_append(ev, pushed, b + 1);
        (a, b)
    }
}

/// The heading marks at `a` and `b` of the events of a run, seen from
/// where the run started.
proof fn lemma_heading_ref_events(ev: Seq<Event>, n0: int, h: int, e: int, a: int, b: int)
    requires
        n0 <= a < b < ev.len(),
        0 <= n0,
        ev[a] == event(Kind::Enter, Name::ObsidianTargetHeading, h + 1),
        ev[b] == event(Kind::Exit, Name::ObsidianTargetHeading, e),
        no_target_marks(ev, n0, a),
        no_target_marks(ev, a + 1, b),
        no_target_marks(ev, b + 1, ev.len() as int),
    ensures
        ({
            let pushed = ev.subrange(n0, ev.len() as int);
            &&& pushed[a - n0] == event(Kind::Enter, Name::ObsidianTargetHeading, h + 1)
            &&& pushed[b - n0] == event(Kind::Exit, Name::ObsidianTargetHeading, e)
            &&& forall|j: int| 0 <= j < pushed.len() ==> (#[trigger] pushed[j]).name != Name::ObsidianTargetBlockId
            &&& forall|j: int| 0 <= j < pushed.len() && j != a - n0 && j != b - n0
                ==> (#[trigger] pushed[j]).name != Name::ObsidianTargetHeading
        }),
{
    let pushed = ev.subrange(n0, ev.len() as int);
    assert forall|j: int| 0 <= j < pushed.len() implies (#[trigger] pushed[j]).name != Name::ObsidianTargetBlockId by {
        assert(pushed[j] == ev[n0 + j]);
    }
    assert forall|j: int| 0 <= j < pushed.len() && j != a - n0 && j != b - n0
        implies (#[trigger] pushed[j]).name != Name::ObsidianTargetHeading by {
        assert(pushed[j] == ev[n0 + j]);
    }
}

/// In a matched wikilink whose target has a `#` at `h`, with a path free of
/// `#`, `|` and `]` before it, followed by heading text that does not start
/// with `^` and ends at the `]` or `|` at `e`: the run marks a heading
/// reference, not a block reference. Of its events, the heading is entered
/// exactly once, after the `#`, and exited exactly once, at `e`, and no
/// event is a block id.
pub proof fn lemma_wikilink_heading_reference(
    trace: Seq<(StateName, Tokenizer, State, Tokenizer)>,
    first: Tokenizer,
    last: Tokenizer,
    h: int,
    e: int,
) -> (r: (int, int))
    requires
        first.wf(),
        is_run(trace, StateName::ObsidianWikilinkStart, first, last, true),
        first.index + 2 <= h,
        h + 1 < e < first.bytes@.len(),
        first.bytes@[h] == 0x23u8,
        first.bytes@[h + 1] != 0x5eu8,
        forall|q: int| first.index + 2 <= q < h ==> #[trigger] first.bytes@[q] != 0x23u8
            && first.bytes@[q] != 0x7cu8 && first.bytes@[q] != 0x5du8,
        forall|q: int| h + 1 <= q < e ==> #[trigger] first.bytes@[q] != 0x5du8 && first.bytes@[q] != 0x7cu8
            && first.bytes@[q] != 0x0au8,
        first.bytes@[e] == 0x5du8 || first.bytes@[e] == 0x7cu8,
    ensures
        ({
            let n0 = first.events@.len() as int;
            let pushed = last.events@.subrange(n0, last.events@.len() as int);
            &&& last.events@.subrange(0, n0) == first.events@
            &&& 0 <= r.0 < r.1 < pushed.len()
            &&& pushed[r.0] == event(Kind::Enter, Name::ObsidianTargetHeading, h + 1)
            &&& pushed[r.1] == event(Kind::Exit, Name::ObsidianTargetHeading, e)
            &&& forall|j: int| 0 <= j < pushed.len() ==> (#[trigger] pushed[j]).name != Name::ObsidianTargetBlockId
            &&& forall|j: int| 0 <= j < pushed.len() && j != r.0 && j != r.1
                ==> (#[trigger] pushed[j]).name != Name::ObsidianTargetHeading
        }),
{
    let n0 = first.events@.len() as int;
    let bytes = first.bytes@;
    let i0 = first.index as int;
    lemma_run_step(trace, 0);
    assert(start_step(first, trace[0].2, trace[0].3));
    if trace.len() == 1 {
        assert(trace[0] == trace.last());
    }
    lemma_run_step(trace, 1);
    let t1 = trace[1].1;
    assert(trace[1].0 == StateName::ObsidianWikilinkOpen);
    assert(t1 == trace[0].3);
    assert(t1.events@ == first.events@ + seq![event(Kind::Enter, Name::ObsidianWikilink, i0),
        event(Kind::Enter, Name::ObsidianWikilinkMarker, i0)]);
    assert(no_target_marks(t1.events@, n0, t1.events@.len() as int)) by {
        assert forall|j: int| n0 <= j < t1.events@.len() implies (#[trigger] t1.events@[j]).name != Name::ObsidianTargetHeading
            && t1.events@[j].name != Name::ObsidianTargetBlockId by {
        }
    }
    let (a, b) = lemma_heading_ref_from(trace, 1, bytes, n0, i0, h, e, 0, 0);
    assert(t1.events@.subrange(0, n0) =~= first.events@);
    lemma_heading_ref_events(last.events@, n0, h, e, a, b);
    (a - n0, b - n0)
}

/// Whether `name` is a state a wikilink passes through after its start.
pub open spec fn wikilink_state(name: StateName) -> bool {
    name == StateName::ObsidianWikilinkOpen
        || name == StateName::ObsidianWikilinkClose || is_target_state(name)
}

/// Whether the events of `t` from `n0` on open a wikilink at `i0` and hold
/// no embed event, and `t` is finishing a wikilink.
pub open spec fn wikilink_so_far(t: Tokenizer, n0: int, i0: int) -> bool {
    &&& 0 <= n0 < t.events@.len()
    &&& t.events@[n0] == event(Kind::Enter, Name::ObsidianWikilink, i0)
    &&& forall|j: int| n0 <= j < t.events@.len() ==> (#[trigger] t.events@[j]).name != Name::ObsidianEmbed
        && t.events@[j].name != Name::ObsidianEmbedMarker
    &&& t.token_1 == Name::ObsidianWikilink
}

/// From a wikilink state at step `k` of a matched run, the events keep
/// opening the wikilink and hold no embed event, and the last one closes
/// the wikilink where the run stops.
proof fn lemma_wikilink_events_from(trace: Seq<(StateName, Tokenizer, State, Tokenizer)>, k: int, n0: int, i0: int)
    requires
        0 <= k < trace.len(),
        steps_valid(trace),
        trace.last().2 == State::Done,
        wikilink_state(trace[k].0),
        wikilink_so_far(trace[k].1, n0, i0),
    ensures
        ({
            let last = trace.last().3;
            &&& 0 <= n0 < last.events@.len()
            &&& last.events@.subrange(0, n0) == trace[k].1.events@.subrange(0, n0)
            &&& last.events@[n0] == event(Kind::Enter, Name::ObsidianWikilink, i0)
            &&& forall|j: int| n0 <= j < last.events@.len() ==> (#[trigger] last.events@[j]).name != Name::ObsidianEmbed
                && last.events@[j].name != Name::ObsidianEmbedMarker
            &&& last.events@.last() == event(Kind::Exit, Name::ObsidianWikilink, last.index as int)
        }),
    decreases trace.len() - k,
{
    lemma_run_step(trace, k);
    let before = trace[k].1;
    let after = trace[k].3;
    let pushed = after.events@.subrange(before.events@.len() as int, after.events@.len() as int);
    if k + 1 < trace.len() {
        lemma_run_step(trace, k + 1);
        assert(trace[k].2 != State::Done && trace[k].2 != State::Nok);
        assert(after.events@ == before.events@ + pushed);
        assert forall|j: int| n0 <= j < after.events@.len() implies (#[trigger] after.events@[j]).name != Name::ObsidianEmbed
            && after.events@[j].name != Name::ObsidianEmbedMarker by {
            if j < before.events@.len() {
                assert(after.events@[j] == before.events@[j]);
            } else {
                assert(after.events@[j] == pushed[j - before.events@.len()]);
            }
        }
        assert(after.events@[n0] == before.events@[n0]);
        assert(after.events@.subrange(0, n0) =~= before.events@.subrange(0, n0));
        lemma_wikilink_events_from(trace, k + 1, n0, i0);
    } else {
        assert(trace[k] == trace.last());
        assert(trace[k].0 == StateName::ObsidianWikilinkClose);
        assert forall|j: int| n0 <= j < after.events@.len() implies (#[trigger] after.events@[j]).name != Name::ObsidianEmbed
            && after.events@[j].name != Name::ObsidianEmbedMarker by {
            if j < before.events@.len() {
                assert(after.events@[j] == before.events@[j]);
            }
        }
        assert(after.events@[n0] == before.events@[n0]);
        assert(after.events@.subrange(0, n0) =~= before.events@.subrange(0, n0));
    }
}

/// A matched wikilink run records a wikilink, not an embed: its first event
/// enters a wikilink at the first `[`, its last exits the wikilink after
/// `]]`, and no event of it names an embed.
pub proof fn lemma_wikilink_events(
    trace: Seq<(StateName, Tokenizer, State, Tokenizer)>,
    first: Tokenizer,
    last: Tokenizer,
)
    requires
        first.wf(),
        is_run(trace, StateName::ObsidianWikilinkStart, first, last, true),
    ensures
        ({
            let n0 = first.events@.len() as int;
            let pushed = last.events@.subrange(n0, last.events@.len() as int);
            &&& last.events@.len() > n0 + 1
            &&& last.events@.subrange(0, n0) == first.events@
            &&& pushed[0] == event(Kind::Enter, Name::ObsidianWikilink, first.index as int)
            &&& pushed.last() == event(Kind::Exit, Name::ObsidianWikilink, last.index as int)
            &&& forall|j: int| 0 <= j < pushed.len() ==> (#[trigger] pushed[j]).name != Name::ObsidianEmbed
                && pushed[j].name != Name::ObsidianEmbedMarker
        }),
{
    let n0 = first.events@.len() as int;
    lemma_run_step(trace, 0);
    if trace.len() == 1 {
        assert(trace[0] == trace.last());
    }
    lemma_run_step(trace, 1);
    let t1 = trace[1].1;
    assert(t1.events@ == first.events@ + seq![event(Kind::Enter, Name::ObsidianWikilink, first.index as int),
        event(Kind::Enter, Name::ObsidianWikilinkMarker, first.index as int)]);
    assert(t1.events@[n0] == event(Kind::Enter, Name::ObsidianWikilink, first.index as int));
    assert forall|j: int| n0 <= j < t1.events@.len() implies (#[trigger] t1.events@[j]).name != Name::ObsidianEmbed
        && t1.events@[j].name != Name::ObsidianEmbedMarker by {
    }
    lemma_wikilink_events_from(trace, 1, n0, first.index as int);
    assert(t1.events@.subrange(0, n0) =~= first.events@);
    let pushed = last.events@.subrange(n0, last.events@.len() as int);
    assert forall|j: int| 0 <= j < pushed.len() implies (#[trigger] pushed[j]).name != Name::ObsidianEmbed
        && pushed[j].name != Name::ObsidianEmbedMarker by {
        assert(pushed[j] == last.events@[n0 + j]);
    }
    if last.events@.len() == n0 + 1 {
        assert(last.events@.last() == last.events@[n0]);
    }
}

} // verus!
