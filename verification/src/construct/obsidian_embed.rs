//! Obsidian: embed, in the text content type.
//!
//! ```bnf
//! obsidian_embed ::= '![[' target ']]'
//! ```
//!
//! `target` is parsed by the shared target parser.

use vstd::prelude::*;
use crate::construct::obsidian_target::{is_target_state, lemma_target_run, target_end};
use crate::state::{is_run, lemma_run_step, steps_valid};
use crate::tokenizer::{event, Event, Kind, Name, State, StateName, Tokenizer};

verus! {

/// What state `start` does: from tokenizer `before` to `after`, answering `s`.
pub open spec fn start_step(before: Tokenizer, s: State, after: Tokenizer) -> bool {
    ({
        let i = before.index as int;
        if (before.constructs.obsidian_embed) && (before.current == Some(0x21u8)) {
            s == State::Next(StateName::ObsidianEmbedOpen) && before.stepped_marking(&after, 1, seq![event(Kind::Enter, Name::ObsidianEmbed, i), event(Kind::Enter, Name::ObsidianEmbedMarker, i)], Name::ObsidianEmbed)
        } else {
            s == State::Nok && before.stepped(&after, 0, seq![])
        }
    })
}

/// Start of embed, at `!`.
pub fn start(tokenizer: &mut Tokenizer) -> (s: State)
    requires
        old(tokenizer).wf(),
    ensures
        start_step(*old(tokenizer), s, *final(tokenizer)),
{
    if (tokenizer.constructs.obsidian_embed) && (tokenizer.current == Some(0x21u8)) {
        tokenizer.token_1 = Name::ObsidianEmbed;
        tokenizer.enter(Name::ObsidianEmbed);
        tokenizer.enter(Name::ObsidianEmbedMarker);
        tokenizer.consume();
        proof {
            assert(tokenizer.events@ =~= old(tokenizer).events@ + seq![event(Kind::Enter, Name::ObsidianEmbed, old(tokenizer).index as int), event(Kind::Enter, Name::ObsidianEmbedMarker, old(tokenizer).index as int)]);
        }
        State::Next(StateName::ObsidianEmbedOpen)
    } else {
        proof {
            assert(tokenizer.events@ =~= old(tokenizer).events@ + Seq::<Event>::empty());
        }
        State::Nok
    }
}

/// What state `open` does: from tokenizer `before` to `after`, answering `s`.
pub open spec fn open_step(before: Tokenizer, s: State, after: Tokenizer) -> bool {
    ({
        let i = before.index as int;
        if before.current == Some(0x5bu8) {
            s == State::Next(StateName::ObsidianEmbedOpen2) && before.stepped(&after, 1, seq![])
        } else {
            s == State::Nok && before.stepped(&after, 0, seq![])
        }
    })
}

/// After `!`, at the first `[`.
pub fn open(tokenizer: &mut Tokenizer) -> (s: State)
    requires
        old(tokenizer).wf(),
    ensures
        open_step(*old(tokenizer), s, *final(tokenizer)),
{
    if tokenizer.current == Some(0x5bu8) {
        tokenizer.consume();
        proof {
            assert(tokenizer.events@ =~= old(tokenizer).events@ + Seq::<Event>::empty());
        }
        State::Next(StateName::ObsidianEmbedOpen2)
    } else {
        proof {
            assert(tokenizer.events@ =~= old(tokenizer).events@ + Seq::<Event>::empty());
        }
        State::Nok
    }
}

/// What state `open_2` does: from tokenizer `before` to `after`, answering `s`.
pub open spec fn open_2_step(before: Tokenizer, s: State, after: Tokenizer) -> bool {
    ({
        let i = before.index as int;
        if before.current == Some(0x5bu8) {
            s == State::Next(StateName::ObsidianTargetStart) && before.stepped(&after, 1, seq![event(Kind::Exit, Name::ObsidianEmbedMarker, i + 1)])
        } else {
            s == State::Nok && before.stepped(&after, 0, seq![])
        }
    })
}

/// After `![`, at the second `[`: the target follows.
pub fn open_2(tokenizer: &mut Tokenizer) -> (s: State)
    requires
        old(tokenizer).wf(),
    ensures
        open_2_step(*old(tokenizer), s, *final(tokenizer)),
{
    if tokenizer.current == Some(0x5bu8) {
        tokenizer.consume();
        tokenizer.exit(Name::ObsidianEmbedMarker);
        proof {
            assert(tokenizer.events@ =~= old(tokenizer).events@ + seq![event(Kind::Exit, Name::ObsidianEmbedMarker, old(tokenizer).index as int + 1)]);
        }
        State::Next(StateName::ObsidianTargetStart)
    } else {
        proof {
            assert(tokenizer.events@ =~= old(tokenizer).events@ + Seq::<Event>::empty());
        }
        State::Nok
    }
}

/// What state `close` does: from tokenizer `before` to `after`, answering `s`.
pub open spec fn close_step(before: Tokenizer, s: State, after: Tokenizer) -> bool {
    ({
        let i = before.index as int;
        if before.current == Some(0x5du8) {
            s == State::Done && before.stepped_marking(&after, 1, seq![event(Kind::Exit, Name::ObsidianEmbedMarker, i + 1), event(Kind::Exit, Name::ObsidianEmbed, i + 1)], Name::Data)
        } else {
            s == State::Nok && before.stepped(&after, 0, seq![])
        }
    })
}

/// At the second `]` of `]]`, closing the embed.
pub fn close(tokenizer: &mut Tokenizer) -> (s: State)
    requires
        old(tokenizer).wf(),
    ensures
        close_step(*old(tokenizer), s, *final(tokenizer)),
{
    if tokenizer.current == Some(0x5du8) {
        tokenizer.consume();
        tokenizer.exit(Name::ObsidianEmbedMarker);
        tokenizer.exit(Name::ObsidianEmbed);
        tokenizer.token_1 = Name::Data;
        proof {
            assert(tokenizer.events@ =~= old(tokenizer).events@ + seq![event(Kind::Exit, Name::ObsidianEmbedMarker, old(tokenizer).index as int + 1), event(Kind::Exit, Name::ObsidianEmbed, old(tokenizer).index as int + 1)]);
        }
        State::Done
    } else {
        proof {
            assert(tokenizer.events@ =~= old(tokenizer).events@ + Seq::<Event>::empty());
        }
        State::Nok
    }
}

/// An embed run matches exactly when the input holds `![[`, a target, and
/// `]]`; it then stands after the closing brackets.
pub proof fn lemma_embed_grammar(
    trace: Seq<(StateName, Tokenizer, State, Tokenizer)>,
    first: Tokenizer,
    last: Tokenizer,
    matched: bool,
)
    requires
        first.wf(),
        first.constructs.obsidian_embed,
        is_run(trace, StateName::ObsidianEmbedStart, first, last, matched),
    ensures
        matched == ({
            let bytes = first.bytes@;
            let i = first.index as int;
            &&& i + 2 < bytes.len()
            &&& bytes[i] == 0x21u8
            &&& bytes[i + 1] == 0x5bu8
            &&& bytes[i + 2] == 0x5bu8
            &&& target_end(bytes, i + 3) matches Some(c) && c + 1 < bytes.len() && bytes[c + 1] == 0x5du8
        }),
        matched ==> last.index == target_end(first.bytes@, first.index + 3)->0 + 2,
{
    lemma_run_step(trace, 0);
    assert(start_step(first, trace[0].2, trace[0].3));
    if trace.len() == 1 {
        assert(trace[0] == trace.last());
    } else {
        lemma_run_step(trace, 1);
        assert(open_step(trace[1].1, trace[1].2, trace[1].3));
        if trace.len() == 2 {
            assert(trace[1] == trace.last());
        } else {
            lemma_run_step(trace, 2);
            assert(open_2_step(trace[2].1, trace[2].2, trace[2].3));
            if trace.len() == 3 {
                assert(trace[2] == trace.last());
            } else {
                lemma_run_step(trace, 3);
                assert(is_target_state(trace[3].0));
                lemma_target_run(trace, 3);
            }
        }
    }
}

/// Whether `name` is a state an embed passes through after its start.
pub open spec fn embed_state(name: StateName) -> bool {
    name == StateName::ObsidianEmbedOpen || name == StateName::ObsidianEmbedOpen2
        || name == StateName::ObsidianEmbedClose || is_target_state(name)
}

/// Whether the events of `t` from `n0` on open an embed at `i0` and hold
/// no wikilink event, and `t` is finishing an embed.
pub open spec fn embed_so_far(t: Tokenizer, n0: int, i0: int) -> bool {
    &&& 0 <= n0 < t.events@.len()
    &&& t.events@[n0] == event(Kind::Enter, Name::ObsidianEmbed, i0)
    &&& forall|j: int| n0 <= j < t.events@.len() ==> (#[trigger] t.events@[j]).name != Name::ObsidianWikilink
        && t.events@[j].name != Name::ObsidianWikilinkMarker
    &&& t.token_1 == Name::ObsidianEmbed
}

/// From an embed state at step `k` of a matched run, the events keep
/// opening the embed and hold no wikilink event, and the last one closes
/// the embed where the run stops.
proof fn lemma_embed_events_from(trace: Seq<(StateName, Tokenizer, State, Tokenizer)>, k: int, n0: int, i0: int)
    requires
        0 <= k < trace.len(),
        steps_valid(trace),
        trace.last().2 == State::Done,
        embed_state(trace[k].0),
        embed_so_far(trace[k].1, n0, i0),
    ensures
        ({
            let last = trace.last().3;
            &&& 0 <= n0 < last.events@.len()
            &&& last.events@.subrange(0, n0) == trace[k].1.events@.subrange(0, n0)
            &&& last.events@[n0] == event(Kind::Enter, Name::ObsidianEmbed, i0)
            &&& forall|j: int| n0 <= j < last.events@.len() ==> (#[trigger] last.events@[j]).name != Name::ObsidianWikilink
                && last.events@[j].name != Name::ObsidianWikilinkMarker
            &&& last.events@.last() == event(Kind::Exit, Name::ObsidianEmbed, last.index as int)
        }),
    decreases trace.len() - k,
{
    lemma_run_step(trace, k);
    let before = trace[k].1;
    let after = trace[k].3;
    let pushed = after.events@.subrange(before.events@.len() as int, after.events@.len() as int);
    if k + 1 < trace.len() {
        lemma_run_step(trace, k + 1);
        assert(trace[k].2 != State::Done && trace[k].2 != State::Nok);
        assert(after.events@ == before.events@ + pushed);
        assert forall|j: int| n0 <= j < after.events@.len() implies (#[trigger] after.events@[j]).name != Name::ObsidianWikilink
            && after.events@[j].name != Name::ObsidianWikilinkMarker by {
            if j < before.events@.len() {
                assert(after.events@[j] == before.events@[j]);
            } else {
                assert(after.events@[j] == pushed[j - before.events@.len()]);
            }
        }
        assert(after.events@[n0] == before.events@[n0]);
        assert(after.events@.subrange(0, n0) =~= before.events@.subrange(0, n0));
        lemma_embed_events_from(trace, k + 1, n0, i0);
    } else {
        assert(trace[k] == trace.last());
        assert(trace[k].0 == StateName::ObsidianEmbedClose);
        assert forall|j: int| n0 <= j < after.events@.len() implies (#[trigger] after.events@[j]).name != Name::ObsidianWikilink
            && after.events@[j].name != Name::ObsidianWikilinkMarker by {
            if j < before.events@.len() {
                assert(after.events@[j] == before.events@[j]);
            }
        }
        assert(after.events@[n0] == before.events@[n0]);
        assert(after.events@.subrange(0, n0) =~= before.events@.subrange(0, n0));
    }
}

/// A matched embed run records an embed, not a wikilink: its first event
/// enters an embed at the `!`, its last exits the embed after `]]`, and no
/// event of it names a wikilink.
pub proof fn lemma_embed_events(
    trace: Seq<(StateName, Tokenizer, State, Tokenizer)>,
    first: Tokenizer,
    last: Tokenizer,
)
    requires
        first.wf(),
        is_run(trace, StateName::ObsidianEmbedStart, first, last, true),
    ensures
        ({
            let n0 = first.events@.len() as int;
            let pushed = last.events@.subrange(n0, last.events@.len() as int);
            &&& last.events@.len() > n0 + 1
            &&& last.events@.subrange(0, n0) == first.events@
            &&& pushed[0] == event(Kind::Enter, Name::ObsidianEmbed, first.index as int)
            &&& pushed.last() == event(Kind::Exit, Name::ObsidianEmbed, last.index as int)
            &&& forall|j: int| 0 <= j < pushed.len() ==> (#[trigger] pushed[j]).name != Name::ObsidianWikilink
                && pushed[j].name != Name::ObsidianWikilinkMarker
        }),
{
    let n0 = first.events@.len() as int;
    lemma_run_step(trace, 0);
    if trace.len() == 1 {
        assert(trace[0] == trace.last());
    }
    lemma_run_step(trace, 1);
    let t1 = trace[1].1;
    assert(t1.events@ == first.events@ + seq![event(Kind::Enter, Name::ObsidianEmbed, first.index as int),
        event(Kind::Enter, Name::ObsidianEmbedMarker, first.index as int)]);
    assert(t1.events@[n0] == event(Kind::Enter, Name::ObsidianEmbed, first.index as int));
    assert forall|j: int| n0 <= j < t1.events@.len() implies (#[trigger] t1.events@[j]).name != Name::ObsidianWikilink
        && t1.events@[j].name != Name::ObsidianWikilinkMarker by {
    }
    lemma_embed_events_from(trace, 1, n0, first.index as int);
    assert(t1.events@.subrange(0, n0) =~= first.events@);
    let pushed = last.events@.subrange(n0, last.events@.len() as int);
    assert forall|j: int| 0 <= j < pushed.len() implies (#[trigger] pushed[j]).name != Name::ObsidianWikilink
        && pushed[j].name != Name::ObsidianWikilinkMarker by {
        assert(pushed[j] == last.events@[n0 + j]);
    }
    if last.events@.len() == n0 + 1 {
        assert(last.events@.last() == last.events@[n0]);
    }
}

} // verus!
