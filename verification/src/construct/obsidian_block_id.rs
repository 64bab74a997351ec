//! Obsidian: block id, at the end of a block in the text content type.
//!
//! ```bnf
//! obsidian_block_id ::= '^' block_id
//! block_id ::= 1*( ascii_alphanumeric | '-' | '_' )
//! ```
//!
//! The id runs to the end of the line or of the input; any other byte makes
//! it no block id.

use vstd::prelude::*;
use crate::tokenizer::{event, Kind, Name, State, StateName, Tokenizer};
use crate::util::text::{is_block_id_byte, spec_is_block_id_byte};
use crate::state::{is_run, lemma_run_step, steps_valid};

verus! {

/// What state `start` does: from tokenizer `before` to `after`, answering `s`.
pub open spec fn start_step(before: Tokenizer, s: State, after: Tokenizer) -> bool {
    ({
        let i = before.index as int;
        if before.constructs.obsidian_block_id && before.current == Some(0x5eu8) {
            &&& s == State::Next(StateName::ObsidianBlockIdValue)
            &&& before.stepped(&after, 1, seq![
                event(Kind::Enter, Name::ObsidianBlockId, i),
                event(Kind::Enter, Name::ObsidianBlockIdMarker, i),
                event(Kind::Exit, Name::ObsidianBlockIdMarker, i + 1),
            ])
        } else {
            s == State::Nok && before.stepped(&after, 0, seq![])
        }
    })
}

/// Start of block id, at `^`.
pub fn start(tokenizer: &mut Tokenizer) -> (s: State)
    requires
        old(tokenizer).wf(),
    ensures
        start_step(*old(tokenizer), s, *final(tokenizer)),
{
    if tokenizer.constructs.obsidian_block_id && tokenizer.current == Some(0x5eu8) {
        tokenizer.enter(Name::ObsidianBlockId);
        tokenizer.enter(Name::ObsidianBlockIdMarker);
        tokenizer.consume();
        tokenizer.exit(Name::ObsidianBlockIdMarker);
        proof {
            assert(tokenizer.events@ =~= old(tokenizer).events@ + seq![
                event(Kind::Enter, Name::ObsidianBlockId, old(tokenizer).index as int),
                event(Kind::Enter, Name::ObsidianBlockIdMarker, old(tokenizer).index as int),
                event(Kind::Exit, Name::ObsidianBlockIdMarker, old(tokenizer).index + 1),
            ]);
        }
        State::Next(StateName::ObsidianBlockIdValue)
    } else {
        proof {
            assert(tokenizer.events@ =~= old(tokenizer).events@ + Seq::<crate::tokenizer::Event>::empty());
        }
        State::Nok
    }
}

/// What state `value` does: from tokenizer `before` to `after`, answering `s`.
pub open spec fn value_step(before: Tokenizer, s: State, after: Tokenizer) -> bool {
    ({
        let i = before.index as int;
        if before.current matches Some(c) && spec_is_block_id_byte(c) {
            &&& s == State::Next(StateName::ObsidianBlockIdValueInside)
            &&& before.stepped(&after, 1, seq![event(Kind::Enter, Name::ObsidianBlockIdValue, i)])
        } else {
            s == State::Nok && before.stepped(&after, 0, seq![])
        }
    })
}

/// In block id value, at its first byte: an empty id is no id.
pub fn value(tokenizer: &mut Tokenizer) -> (s: State)
    requires
        old(tokenizer).wf(),
    ensures
        value_step(*old(tokenizer), s, *final(tokenizer)),
{
    let is_id = match tokenizer.current {
        Some(c) => is_block_id_byte(c),
        None => false,
    };
    if is_id {
        tokenizer.enter(Name::ObsidianBlockIdValue);
        tokenizer.consume();
        proof {
            assert(tokenizer.events@ =~= old(tokenizer).events@ + seq![
                event(Kind::Enter, Name::ObsidianBlockIdValue, old(tokenizer).index as int),
            ]);
        }
        State::Next(StateName::ObsidianBlockIdValueInside)
    } else {
        proof {
            assert(tokenizer.events@ =~= old(tokenizer).events@ + Seq::<crate::tokenizer::Event>::empty());
        }
        State::Nok
    }
}

/// What state `value_inside` does: from tokenizer `before` to `after`, answering `s`.
pub open spec fn value_inside_step(before: Tokenizer, s: State, after: Tokenizer) -> bool {
    ({
        let i = before.index as int;
        match before.current {
            Some(c) if spec_is_block_id_byte(c) => {
                &&& s == State::Next(StateName::ObsidianBlockIdValueInside)
                &&& before.stepped(&after, 1, seq![])
            },
            None | Some(0x0au8) => {
                &&& s == State::Done
                &&& before.stepped(&after, 0, seq![
                    event(Kind::Exit, Name::ObsidianBlockIdValue, i),
                    event(Kind::Exit, Name::ObsidianBlockId, i),
                ])
            },
            _ => s == State::Nok && before.stepped(&after, 0, seq![]),
        }
    })
}

/// Inside block id value: id bytes continue it, the end of the line or the
/// input ends it, anything else makes it no block id.
pub fn value_inside(tokenizer: &mut Tokenizer) -> (s: State)
    requires
        old(tokenizer).wf(),
    ensures
        value_inside_step(*old(tokenizer), s, *final(tokenizer)),
{
    let current = tokenizer.current;
    match current {
        Some(c) if is_block_id_byte(c) => {
            tokenizer.consume();
            State::Next(StateName::ObsidianBlockIdValueInside)
        },
        None | Some(0x0au8) => {
            tokenizer.exit(Name::ObsidianBlockIdValue);
            tokenizer.exit(Name::ObsidianBlockId);
            proof {
                assert(tokenizer.events@ =~= old(tokenizer).events@ + seq![
                    event(Kind::Exit, Name::ObsidianBlockIdValue, old(tokenizer).index as int),
                    event(Kind::Exit, Name::ObsidianBlockId, old(tokenizer).index as int),
                ]);
            }
            State::Done
        },
        _ => {
            proof {
                assert(tokenizer.events@ =~= old(tokenizer).events@ + Seq::<crate::tokenizer::Event>::empty());
            }
            State::Nok
        },
    }
}

/// The end of the run of id bytes of `bytes` from `j`.
pub open spec fn id_end(bytes: Seq<u8>, j: int) -> int
    decreases bytes.len() - j,
{
    if 0 <= j < bytes.len() && spec_is_block_id_byte(bytes[j]) {
        id_end(bytes, j + 1)
    } else {
        j
    }
}

/// Whether `bytes` hold a block id at `i`: `^`, at least one id byte, then
/// the end of the line or of the input.
pub open spec fn block_id_at(bytes: Seq<u8>, i: int) -> bool {
    &&& 0 <= i
    &&& i + 1 < bytes.len()
    &&& bytes[i] == 0x5eu8
    &&& spec_is_block_id_byte(bytes[i + 1])
    &&& (id_end(bytes, i + 1) == bytes.len() || bytes[id_end(bytes, i + 1)] == 0x0au8)
}

/// The end of a run that is in the id value at step `k`: it matches exactly
/// when the id bytes from there end at the end of the line or input, and
/// it then stands there.
proof fn lemma_value_run(trace: Seq<(StateName, Tokenizer, State, Tokenizer)>, k: int)
    requires
        0 <= k < trace.len(),
        trace[k].0 == StateName::ObsidianBlockIdValueInside,
        trace[k].1.wf(),
        steps_valid(trace),
        trace.last().2 == State::Done || trace.last().2 == State::Nok,
    ensures
        ({
            let t = trace[k].1;
            let e = id_end(t.bytes@, t.index as int);
            &&& (trace.last().2 == State::Done) == (e == t.bytes@.len() || t.bytes@[e] == 0x0au8)
            &&& trace.last().2 == State::Done ==> trace.last().3.index == e
                && trace.last().3.events@ == t.events@ + seq![
                    event(Kind::Exit, Name::ObsidianBlockIdValue, e),
                    event(Kind::Exit, Name::ObsidianBlockId, e),
                ]
            &&& trace.last().3.bytes@ == t.bytes@
        }),
    decreases trace.len() - k,
{
    let t = trace[k].1;
    lemma_run_step(trace, k);
    if k + 1 < trace.len() {
        lemma_run_step(trace, k + 1);
        lemma_value_run(trace, k + 1);
    } else {
        assert(trace[k] == trace.last());
    }
}

/// A block id run matches exactly when the input holds a block id at the
/// start, and then ends after the id with its events.
pub proof fn lemma_block_id_grammar(
    trace: Seq<(StateName, Tokenizer, State, Tokenizer)>,
    first: Tokenizer,
    last: Tokenizer,
    matched: bool,
)
    requires
        first.wf(),
        first.constructs.obsidian_block_id,
        is_run(trace, StateName::ObsidianBlockIdStart, first, last, matched),
    ensures
        matched == block_id_at(first.bytes@, first.index as int),
        matched ==> ({
            let i = first.index as int;
            let e = id_end(first.bytes@, i + 1);
            &&& last.index == e
            &&& last.events@ == first.events@ + seq![
                event(Kind::Enter, Name::ObsidianBlockId, i),
                event(Kind::Enter, Name::ObsidianBlockIdMarker, i),
                event(Kind::Exit, Name::ObsidianBlockIdMarker, i + 1),
                event(Kind::Enter, Name::ObsidianBlockIdValue, i + 1),
                event(Kind::Exit, Name::ObsidianBlockIdValue, e),
                event(Kind::Exit, Name::ObsidianBlockId, e),
            ]
        }),
{
    let bytes = first.bytes@;
    let i = first.index as int;
    lemma_run_step(trace, 0);
    assert(start_step(first, trace[0].2, trace[0].3));
    if trace.len() == 1 {
        assert(trace[0] == trace.last());
    } else {
        lemma_run_step(trace, 1);
        let t1 = trace[1].1;
        assert(trace[1].0 == StateName::ObsidianBlockIdValue);
        assert(value_step(t1, trace[1].2, trace[1].3));
        assert(t1.index == i + 1 && t1.bytes@ == bytes);
        if trace.len() == 2 {
            assert(trace[1] == trace.last());
        } else {
            lemma_run_step(trace, 2);
            let t2 = trace[2].1;
            assert(t2.index == i + 2);
            lemma_value_run(trace, 2);
            assert(id_end(bytes, i + 1) == id_end(bytes, i + 2));
        }
    }
}

} // verus!
