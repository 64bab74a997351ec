//! Obsidian: comment, in the text content type.
//!
//! ```bnf
//! obsidian_comment ::= '%%' *byte '%%'
//! ```
//!
//! The content is arbitrary text on one line (no nesting); comments do not
//! render to HTML.

use vstd::prelude::*;
use crate::tokenizer::{event, Event, Kind, Name, State, StateName, Tokenizer};
use crate::state::{is_run, lemma_run_step, steps_valid};

verus! {

/// What state `start` does: from tokenizer `before` to `after`, answering `s`.
pub open spec fn start_step(before: Tokenizer, s: State, after: Tokenizer) -> bool {
    ({
        let i = before.index as int;
        if (before.constructs.obsidian_comment) && (before.current == Some(0x25u8)) {
            s == State::Next(StateName::ObsidianCommentOpen) && before.stepped(&after, 1, seq![event(Kind::Enter, Name::ObsidianComment, i), event(Kind::Enter, Name::ObsidianCommentMarker, i)])
        } else {
            s == State::Nok && before.stepped(&after, 0, seq![])
        }
    })
}

/// Start of comment, at the first `%`.
pub fn start(tokenizer: &mut Tokenizer) -> (s: State)
    requires
        old(tokenizer).wf(),
    ensures
        start_step(*old(tokenizer), s, *final(tokenizer)),
{
    if (tokenizer.constructs.obsidian_comment) && (tokenizer.current == Some(0x25u8)) {
        tokenizer.enter(Name::ObsidianComment);
        tokenizer.enter(Name::ObsidianCommentMarker);
        tokenizer.consume();
        proof {
            assert(tokenizer.events@ =~= old(tokenizer).events@ + seq![event(Kind::Enter, Name::ObsidianComment, old(tokenizer).index as int), event(Kind::Enter, Name::ObsidianCommentMarker, old(tokenizer).index as int)]);
        }
        State::Next(StateName::ObsidianCommentOpen)
    } else {
        proof {
            assert(tokenizer.events@ =~= old(tokenizer).events@ + Seq::<Event>::empty());
        }
        State::Nok
    }
}

/// What state `open` does: from tokenizer `before` to `after`, answering `s`.
pub open spec fn open_step(before: Tokenizer, s: State, after: Tokenizer) -> bool {
    ({
        let i = before.index as int;
        if before.current == Some(0x25u8) {
            s == State::Next(StateName::ObsidianCommentInside) && before.stepped(&after, 1, seq![event(Kind::Exit, Name::ObsidianCommentMarker, i + 1), event(Kind::Enter, Name::ObsidianCommentValue, i + 1)])
        } else {
            s == State::Nok && before.stepped(&after, 0, seq![])
        }
    })
}

/// After the first `%`, at the second.
pub fn open(tokenizer: &mut Tokenizer) -> (s: State)
    requires
        old(tokenizer).wf(),
    ensures
        open_step(*old(tokenizer), s, *final(tokenizer)),
{
    if tokenizer.current == Some(0x25u8) {
        tokenizer.consume();
        tokenizer.exit(Name::ObsidianCommentMarker);
        tokenizer.enter(Name::ObsidianCommentValue);
        proof {
            assert(tokenizer.events@ =~= old(tokenizer).events@ + seq![event(Kind::Exit, Name::ObsidianCommentMarker, old(tokenizer).index as int + 1), event(Kind::Enter, Name::ObsidianCommentValue, old(tokenizer).index as int + 1)]);
        }
        State::Next(StateName::ObsidianCommentInside)
    } else {
        proof {
            assert(tokenizer.events@ =~= old(tokenizer).events@ + Seq::<Event>::empty());
        }
        State::Nok
    }
}

/// What state `inside` does: from tokenizer `before` to `after`, answering `s`.
pub open spec fn inside_step(before: Tokenizer, s: State, after: Tokenizer) -> bool {
    ({
        let i = before.index as int;
        if before.current == Some(0x25u8) {
            s == State::Next(StateName::ObsidianCommentAfter) && before.stepped(&after, 1, seq![event(Kind::Exit, Name::ObsidianCommentValue, i), event(Kind::Enter, Name::ObsidianCommentMarker, i)])
        } else if (before.current is None) || (before.current == Some(0x0au8)) {
            s == State::Nok && before.stepped(&after, 0, seq![])
        } else if before.current is Some {
            s == State::Next(StateName::ObsidianCommentInside) && before.stepped(&after, 1, seq![])
        } else {
            s == State::Nok && before.stepped(&after, 0, seq![])
        }
    })
}

/// In the comment, looking for the closing `%%`; a line ending or the end of input is no comment.
pub fn inside(tokenizer: &mut Tokenizer) -> (s: State)
    requires
        old(tokenizer).wf(),
    ensures
        inside_step(*old(tokenizer), s, *final(tokenizer)),
{
    if tokenizer.current == Some(0x25u8) {
        tokenizer.exit(Name::ObsidianCommentValue);
        tokenizer.enter(Name::ObsidianCommentMarker);
        tokenizer.consume();
        proof {
            assert(tokenizer.events@ =~= old(tokenizer).events@ + seq![event(Kind::Exit, Name::ObsidianCommentValue, old(tokenizer).index as int), event(Kind::Enter, Name::ObsidianCommentMarker, old(tokenizer).index as int)]);
        }
        State::Next(StateName::ObsidianCommentAfter)
    } else if (tokenizer.current.is_none()) || (tokenizer.current == Some(0x0au8)) {
        proof {
            assert(tokenizer.events@ =~= old(tokenizer).events@ + Seq::<Event>::empty());
        }
        State::Nok
    } else if tokenizer.current.is_some() {
        tokenizer.consume();
        proof {
            assert(tokenizer.events@ =~= old(tokenizer).events@ + Seq::<Event>::empty());
        }
        State::Next(StateName::ObsidianCommentInside)
    } else {
        proof {
            assert(tokenizer.events@ =~= old(tokenizer).events@ + Seq::<Event>::empty());
        }
        State::Nok
    }
}

/// What state `after` does: from tokenizer `before` to `after`, answering `s`.
pub open spec fn after_step(before: Tokenizer, s: State, after: Tokenizer) -> bool {
    ({
        let i = before.index as int;
        if before.current == Some(0x25u8) {
            s == State::Done && before.stepped(&after, 1, seq![event(Kind::Exit, Name::ObsidianCommentMarker, i + 1), event(Kind::Exit, Name::ObsidianComment, i + 1)])
        } else if (before.current is None) || (before.current == Some(0x0au8)) {
            s == State::Nok && before.stepped(&after, 0, seq![event(Kind::Exit, Name::ObsidianCommentMarker, i), event(Kind::Enter, Name::ObsidianCommentValue, i)])
        } else if before.current is Some {
            s == State::Next(StateName::ObsidianCommentInside) && before.stepped(&after, 1, seq![event(Kind::Exit, Name::ObsidianCommentMarker, i), event(Kind::Enter, Name::ObsidianCommentValue, i)])
        } else {
            s == State::Nok && before.stepped(&after, 0, seq![])
        }
    })
}

/// After the first `%` of a possible close, at the second: a lone `%` is content.
pub fn after(tokenizer: &mut Tokenizer) -> (s: State)
    requires
        old(tokenizer).wf(),
    ensures
        after_step(*old(tokenizer), s, *final(tokenizer)),
{
    if tokenizer.current == Some(0x25u8) {
        tokenizer.consume();
        tokenizer.exit(Name::ObsidianCommentMarker);
        tokenizer.exit(Name::ObsidianComment);
        proof {
            assert(tokenizer.events@ =~= old(tokenizer).events@ + seq![event(Kind::Exit, Name::ObsidianCommentMarker, old(tokenizer).index as int + 1), event(Kind::Exit, Name::ObsidianComment, old(tokenizer).index as int + 1)]);
        }
        State::Done
    } else if (tokenizer.current.is_none()) || (tokenizer.current == Some(0x0au8)) {
        tokenizer.exit(Name::ObsidianCommentMarker);
        tokenizer.enter(Name::ObsidianCommentValue);
        proof {
            assert(tokenizer.events@ =~= old(tokenizer).events@ + seq![event(Kind::Exit, Name::ObsidianCommentMarker, old(tokenizer).index as int), event(Kind::Enter, Name::ObsidianCommentValue, old(tokenizer).index as int)]);
        }
        State::Nok
    } else if tokenizer.current.is_some() {
        tokenizer.exit(Name::ObsidianCommentMarker);
        tokenizer.enter(Name::ObsidianCommentValue);
        tokenizer.consume();
        proof {
            assert(tokenizer.events@ =~= old(tokenizer).events@ + seq![event(Kind::Exit, Name::ObsidianCommentMarker, old(tokenizer).index as int), event(Kind::Enter, Name::ObsidianCommentValue, old(tokenizer).index as int)]);
        }
        State::Next(StateName::ObsidianCommentInside)
    } else {
        proof {
            assert(tokenizer.events@ =~= old(tokenizer).events@ + Seq::<Event>::empty());
        }
        State::Nok
    }
}

/// Where content that starts at `p` and is closed by a doubled `marker`
/// ends: after the first doubled marker of the line, read two bytes at a
/// time after a lone marker; `None` when a line ending or the end of input
/// comes first.
pub open spec fn marker_pair_end(bytes: Seq<u8>, p: int, marker: u8) -> Option<int>
    decreases bytes.len() - p,
{
    if p < 0 || p >= bytes.len() || bytes[p] == 0x0au8 {
        None
    } else if bytes[p] == marker {
        if p + 1 >= bytes.len() || bytes[p + 1] == 0x0au8 {
            None
        } else if bytes[p + 1] == marker {
            Some(p + 2)
        } else {
            marker_pair_end(bytes, p + 2, marker)
        }
    } else {
        marker_pair_end(bytes, p + 1, marker)
    }
}

/// From the comment content at step `k`, the run matches exactly when the
/// comment closes, and then stands after it.
proof fn lemma_inside_run(trace: Seq<(StateName, Tokenizer, State, Tokenizer)>, k: int)
    requires
        0 <= k < trace.len(),
        trace[k].0 == StateName::ObsidianCommentInside,
        trace[k].1.wf(),
        steps_valid(trace),
        trace.last().2 == State::Done || trace.last().2 == State::Nok,
    ensures
        ({
            let t = trace[k].1;
            let end = marker_pair_end(t.bytes@, t.index as int, 0x25u8);
            &&& (trace.last().2 == State::Done) == (end is Some)
            &&& trace.last().2 == State::Done ==> trace.last().3.index == end->0
        }),
    decreases trace.len() - k,
{
    lemma_run_step(trace, k);
    if k + 1 < trace.len() {
        lemma_run_step(trace, k + 1);
        if trace[k + 1].0 == StateName::ObsidianCommentInside {
            lemma_inside_run(trace, k + 1);
        } else {
            if k + 2 < trace.len() {
                lemma_run_step(trace, k + 2);
                lemma_inside_run(trace, k + 2);
            } else {
                assert(trace[k + 1] == trace.last());
            }
        }
    } else {
        assert(trace[k] == trace.last());
    }
}

/// A comment run matches exactly when the input holds `%%` at the start and
/// the comment closes on the same line; it then stands after the closing
/// `%%`.
pub proof fn lemma_comment_grammar(
    trace: Seq<(StateName, Tokenizer, State, Tokenizer)>,
    first: Tokenizer,
    last: Tokenizer,
    matched: bool,
)
    requires
        first.wf(),
        first.constructs.obsidian_comment,
        is_run(trace, StateName::ObsidianCommentStart, first, last, matched),
    ensures
        matched == ({
            let bytes = first.bytes@;
            let i = first.index as int;
            &&& i + 1 < bytes.len()
            &&& bytes[i] == 0x25u8
            &&& bytes[i + 1] == 0x25u8
            &&& marker_pair_end(bytes, i + 2, 0x25u8) is Some
        }),
        matched ==> last.index == marker_pair_end(first.bytes@, first.index + 2, 0x25u8)->0,
{
    lemma_run_step(trace, 0);
    assert(start_step(first, trace[0].2, trace[0].3));
    if trace.len() == 1 {
        assert(trace[0] == trace.last());
    } else {
        lemma_run_step(trace, 1);
        assert(open_step(trace[1].1, trace[1].2, trace[1].3));
        if trace.len() == 2 {
            assert(trace[1] == trace.last());
        } else {
            lemma_run_step(trace, 2);
            lemma_inside_run(trace, 2);
        }
    }
}

} // verus!
