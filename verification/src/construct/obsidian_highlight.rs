//! Obsidian: highlight, in the text content type.
//!
//! ```bnf
//! obsidian_highlight ::= '==' 1*byte '=='
//! ```
//!
//! Exactly two `=` open and close a highlight: a single `=` is data, and
//! three or more do not open one. The opening `==` must be followed by
//! something other than whitespace. The content is data.

use vstd::prelude::*;
use crate::construct::obsidian_comment::marker_pair_end;
use crate::state::{is_run, lemma_run_step, steps_valid};
use crate::tokenizer::{event, Event, Kind, Name, State, StateName, Tokenizer};

verus! {

/// What state `start` does: from tokenizer `before` to `after`, answering `s`.
pub open spec fn start_step(before: Tokenizer, s: State, after: Tokenizer) -> bool {
    ({
        let i = before.index as int;
        if (before.constructs.obsidian_highlight) && (before.current == Some(0x3du8)) && (before.previous != Some(0x3du8)) {
            s == State::Next(StateName::ObsidianHighlightSequence) && before.stepped(&after, 1, seq![event(Kind::Enter, Name::ObsidianHighlight, i), event(Kind::Enter, Name::ObsidianHighlightSequence, i)])
        } else {
            s == State::Nok && before.stepped(&after, 0, seq![])
        }
    })
}

/// Start of highlight, at the first `=`, which must not follow a `=`.
pub fn start(tokenizer: &mut Tokenizer) -> (s: State)
    requires
        old(tokenizer).wf(),
    ensures
        start_step(*old(tokenizer), s, *final(tokenizer)),
{
    if (tokenizer.constructs.obsidian_highlight) && (tokenizer.current == Some(0x3du8)) && (tokenizer.previous != Some(0x3du8)) {
        tokenizer.enter(Name::ObsidianHighlight);
        tokenizer.enter(Name::ObsidianHighlightSequence);
        tokenizer.consume();
        proof {
            assert(tokenizer.events@ =~= old(tokenizer).events@ + seq![event(Kind::Enter, Name::ObsidianHighlight, old(tokenizer).index as int), event(Kind::Enter, Name::ObsidianHighlightSequence, old(tokenizer).index as int)]);
        }
        State::Next(StateName::ObsidianHighlightSequence)
    } else {
        proof {
            assert(tokenizer.events@ =~= old(tokenizer).events@ + Seq::<Event>::empty());
        }
        State::Nok
    }
}

/// What state `sequence` does: from tokenizer `before` to `after`, answering `s`.
pub open spec fn sequence_step(before: Tokenizer, s: State, after: Tokenizer) -> bool {
    ({
        let i = before.index as int;
        if before.current == Some(0x3du8) {
            s == State::Next(StateName::ObsidianHighlightAfter) && before.stepped(&after, 1, seq![event(Kind::Exit, Name::ObsidianHighlightSequence, i + 1)])
        } else {
            s == State::Nok && before.stepped(&after, 0, seq![])
        }
    })
}

/// After the first `=`, at the second: a single `=` is no highlight.
pub fn sequence(tokenizer: &mut Tokenizer) -> (s: State)
    requires
        old(tokenizer).wf(),
    ensures
        sequence_step(*old(tokenizer), s, *final(tokenizer)),
{
    if tokenizer.current == Some(0x3du8) {
        tokenizer.consume();
        tokenizer.exit(Name::ObsidianHighlightSequence);
        proof {
            assert(tokenizer.events@ =~= old(tokenizer).events@ + seq![event(Kind::Exit, Name::ObsidianHighlightSequence, old(tokenizer).index as int + 1)]);
        }
        State::Next(StateName::ObsidianHighlightAfter)
    } else {
        proof {
            assert(tokenizer.events@ =~= old(tokenizer).events@ + Seq::<Event>::empty());
        }
        State::Nok
    }
}

/// What state `after` does: from tokenizer `before` to `after`, answering `s`.
pub open spec fn after_step(before: Tokenizer, s: State, after: Tokenizer) -> bool {
    ({
        let i = before.index as int;
        if (before.current == Some(0x3du8)) || (before.current == Some(0x20u8)) || (before.current == Some(0x09u8)) || (before.current == Some(0x0au8)) || (before.current is None) {
            s == State::Nok && before.stepped(&after, 0, seq![])
        } else if before.current is Some {
            s == State::Retry(StateName::ObsidianHighlightInside) && before.stepped(&after, 0, seq![event(Kind::Enter, Name::Data, i)])
        } else {
            s == State::Nok && before.stepped(&after, 0, seq![])
        }
    })
}

/// After the opening `==`: a third `=`, whitespace, or the end is no highlight.
pub fn after(tokenizer: &mut Tokenizer) -> (s: State)
    requires
        old(tokenizer).wf(),
    ensures
        after_step(*old(tokenizer), s, *final(tokenizer)),
{
    if (tokenizer.current == Some(0x3du8)) || (tokenizer.current == Some(0x20u8)) || (tokenizer.current == Some(0x09u8)) || (tokenizer.current == Some(0x0au8)) || (tokenizer.current.is_none()) {
        proof {
            assert(tokenizer.events@ =~= old(tokenizer).events@ + Seq::<Event>::empty());
        }
        State::Nok
    } else if tokenizer.current.is_some() {
        tokenizer.enter(Name::Data);
        proof {
            assert(tokenizer.events@ =~= old(tokenizer).events@ + seq![event(Kind::Enter, Name::Data, old(tokenizer).index as int)]);
        }
        State::Retry(StateName::ObsidianHighlightInside)
    } else {
        proof {
            assert(tokenizer.events@ =~= old(tokenizer).events@ + Seq::<Event>::empty());
        }
        State::Nok
    }
}

/// What state `inside` does: from tokenizer `before` to `after`, answering `s`.
pub open spec fn inside_step(before: Tokenizer, s: State, after: Tokenizer) -> bool {
    ({
        let i = before.index as int;
        if before.current == Some(0x3du8) {
            s == State::Next(StateName::ObsidianHighlightClose) && before.stepped(&after, 1, seq![event(Kind::Exit, Name::Data, i), event(Kind::Enter, Name::ObsidianHighlightSequence, i)])
        } else if (before.current is None) || (before.current == Some(0x0au8)) {
            s == State::Nok && before.stepped(&after, 0, seq![])
        } else if before.current is Some {
            s == State::Next(StateName::ObsidianHighlightInside) && before.stepped(&after, 1, seq![])
        } else {
            s == State::Nok && before.stepped(&after, 0, seq![])
        }
    })
}

/// Inside the highlight, looking for the closing `==`.
pub fn inside(tokenizer: &mut Tokenizer) -> (s: State)
    requires
        old(tokenizer).wf(),
    ensures
        inside_step(*old(tokenizer), s, *final(tokenizer)),
{
    if tokenizer.current == Some(0x3du8) {
        tokenizer.exit(Name::Data);
        tokenizer.enter(Name::ObsidianHighlightSequence);
        tokenizer.consume();
        proof {
            assert(tokenizer.events@ =~= old(tokenizer).events@ + seq![event(Kind::Exit, Name::Data, old(tokenizer).index as int), event(Kind::Enter, Name::ObsidianHighlightSequence, old(tokenizer).index as int)]);
        }
        State::Next(StateName::ObsidianHighlightClose)
    } else if (tokenizer.current.is_none()) || (tokenizer.current == Some(0x0au8)) {
        proof {
            assert(tokenizer.events@ =~= old(tokenizer).events@ + Seq::<Event>::empty());
        }
        State::Nok
    } else if tokenizer.current.is_some() {
        tokenizer.consume();
        proof {
            assert(tokenizer.events@ =~= old(tokenizer).events@ + Seq::<Event>::empty());
        }
        State::Next(StateName::ObsidianHighlightInside)
    } else {
        proof {
            assert(tokenizer.events@ =~= old(tokenizer).events@ + Seq::<Event>::empty());
        }
        State::Nok
    }
}

/// An event renamed to data.
pub open spec fn as_data(e: Event) -> Event {
    Event { name: Name::Data, ..e }
}

/// What state `close` does: from tokenizer `before` to `after`, answering `s`.
pub open spec fn close_step(before: Tokenizer, s: State, after: Tokenizer) -> bool {
    ({
        let i = before.index as int;
        let events = before.events@;
        let renamed = events.update(events.len() - 2, as_data(events[events.len() - 2])).update(
            events.len() - 1,
            as_data(events[events.len() - 1]),
        );
        if before.current == Some(0x3du8) {
            &&& s == State::Done
            &&& before.stepped(&after, 1, seq![
                event(Kind::Exit, Name::ObsidianHighlightSequence, i + 1),
                event(Kind::Exit, Name::ObsidianHighlight, i + 1),
            ])
        } else if before.current is None || before.current == Some(0x0au8) {
            &&& s == State::Nok
            &&& before.same_input(&after, i)
            &&& after.events@ == renamed
        } else {
            &&& s == State::Next(StateName::ObsidianHighlightInside)
            &&& before.same_input(&after, i + 1)
            &&& after.events@ == renamed.push(event(Kind::Enter, Name::Data, i))
        }
    })
}

/// After the first `=` of a possible close, at the second. A lone `=` is
/// data: the sequence just opened is renamed to data and scanning goes on.
pub fn close(tokenizer: &mut Tokenizer) -> (s: State)
    requires
        old(tokenizer).wf(),
        old(tokenizer).events@.len() >= 2,
    ensures
        close_step(*old(tokenizer), s, *final(tokenizer)),
{
    if tokenizer.current == Some(0x3du8) {
        tokenizer.consume();
        tokenizer.exit(Name::ObsidianHighlightSequence);
        tokenizer.exit(Name::ObsidianHighlight);
        proof {
            assert(tokenizer.events@ =~= old(tokenizer).events@ + seq![
                event(Kind::Exit, Name::ObsidianHighlightSequence, old(tokenizer).index + 1),
                event(Kind::Exit, Name::ObsidianHighlight, old(tokenizer).index + 1),
            ]);
        }
        State::Done
    } else {
        let len = tokenizer.events.len();
        let mut second_last = tokenizer.events[len - 2];
        second_last.name = Name::Data;
        tokenizer.events.set(len - 2, second_last);
        let mut last = tokenizer.events[len - 1];
        last.name = Name::Data;
        tokenizer.events.set(len - 1, last);
        let ghost events = old(tokenizer).events@;
        let ghost renamed = events.update(events.len() - 2, as_data(events[events.len() - 2])).update(
            events.len() - 1,
            as_data(events[events.len() - 1]),
        );
        assert(tokenizer.events@ =~= renamed);
        if tokenizer.current.is_none() || tokenizer.current == Some(0x0au8) {
            State::Nok
        } else if tokenizer.current == Some(0x3du8) {
            tokenizer.enter(Name::ObsidianHighlightSequence);
            tokenizer.consume();
            State::Next(StateName::ObsidianHighlightClose)
        } else {
            tokenizer.enter(Name::Data);
            tokenizer.consume();
            assert(tokenizer.events@ =~= renamed.push(event(Kind::Enter, Name::Data, old(tokenizer).index as int)));
            State::Next(StateName::ObsidianHighlightInside)
        }
    }
}

/// From the highlighted content at step `k`, the run matches exactly when
/// a doubled `=` closes it on the line, and then stands after it.
proof fn lemma_inside_run(trace: Seq<(StateName, Tokenizer, State, Tokenizer)>, k: int)
    requires
        0 <= k < trace.len(),
        trace[k].0 == StateName::ObsidianHighlightInside,
        trace[k].1.wf(),
        steps_valid(trace),
        trace.last().2 == State::Done || trace.last().2 == State::Nok,
    ensures
        ({
            let t = trace[k].1;
            let end = marker_pair_end(t.bytes@, t.index as int, 0x3du8);
            &&& (trace.last().2 == State::Done) == (end is Some)
            &&& trace.last().2 == State::Done ==> trace.last().3.index == end->0
        }),
    decreases trace.len() - k,
{
    lemma_run_step(trace, k);
    if k + 1 < trace.len() {
        lemma_run_step(trace, k + 1);
        if trace[k + 1].0 == StateName::ObsidianHighlightInside {
            lemma_inside_run(trace, k + 1);
        } else {
            if k + 2 < trace.len() {
                lemma_run_step(trace, k + 2);
                lemma_inside_run(trace, k + 2);
            } else {
                assert(trace[k + 1] == trace.last());
            }
        }
    } else {
        assert(trace[k] == trace.last());
    }
}

/// A highlight run matches exactly when the input holds `==` at the start,
/// not after another `=`, followed by a byte that is no `=`, space, tab or
/// line ending, and a doubled `=` closes it on the line; it then stands
/// after the closing `==`.
pub proof fn lemma_highlight_grammar(
    trace: Seq<(StateName, Tokenizer, State, Tokenizer)>,
    first: Tokenizer,
    last: Tokenizer,
    matched: bool,
)
    requires
        first.wf(),
        first.constructs.obsidian_highlight,
        is_run(trace, StateName::ObsidianHighlightStart, first, last, matched),
    ensures
        matched == ({
            let bytes = first.bytes@;
            let i = first.index as int;
            &&& i + 2 < bytes.len()
            &&& bytes[i] == 0x3du8
            &&& (i == 0 || bytes[i - 1] != 0x3du8)
            &&& bytes[i + 1] == 0x3du8
            &&& bytes[i + 2] != 0x3du8 && bytes[i + 2] != 0x20u8 && bytes[i + 2] != 0x09u8 && bytes[i + 2] != 0x0au8
            &&& marker_pair_end(bytes, i + 2, 0x3du8) is Some
        }),
        matched ==> last.index == marker_pair_end(first.bytes@, first.index + 2, 0x3du8)->0,
{
    lemma_run_step(trace, 0);
    assert(start_step(first, trace[0].2, trace[0].3));
    if trace.len() == 1 {
        assert(trace[0] == trace.last());
    } else {
        lemma_run_step(trace, 1);
        assert(sequence_step(trace[1].1, trace[1].2, trace[1].3));
        if trace.len() == 2 {
            assert(trace[1] == trace.last());
        } else {
            lemma_run_step(trace, 2);
            assert(after_step(trace[2].1, trace[2].2, trace[2].3));
            if trace.len() == 3 {
                assert(trace[2] == trace.last());
            } else {
                lemma_run_step(trace, 3);
                lemma_inside_run(trace, 3);
            }
        }
    }
}

} // verus!
