//! Running the state machines of the Obsidian constructs.

use vstd::prelude::*;
use crate::construct::{
    obsidian_block_id, obsidian_comment, obsidian_embed, obsidian_highlight, obsidian_target,
    obsidian_wikilink,
};
use crate::configuration::Constructs;
use crate::tokenizer::{State, StateName, Tokenizer};

verus! {

/// Whether the construct that state `name` starts is turned on; states
/// that start no construct count as on.
pub open spec fn start_enabled(constructs: Constructs, name: StateName) -> bool {
    match name {
        StateName::ObsidianBlockIdStart => constructs.obsidian_block_id,
        StateName::ObsidianCommentStart => constructs.obsidian_comment,
        StateName::ObsidianEmbedStart => constructs.obsidian_embed,
        StateName::ObsidianHighlightStart => constructs.obsidian_highlight,
        StateName::ObsidianWikilinkStart => constructs.obsidian_wikilink,
        _ => true,
    }
}

/// What state `name` does: from tokenizer `before` to `after`, answering
/// `s`.
pub open spec fn step(name: StateName, before: Tokenizer, s: State, after: Tokenizer) -> bool {
    match name {
        StateName::ObsidianBlockIdStart => obsidian_block_id::start_step(before, s, after),
        StateName::ObsidianBlockIdValue => obsidian_block_id::value_step(before, s, after),
        StateName::ObsidianBlockIdValueInside => obsidian_block_id::value_inside_step(before, s, after),
        StateName::ObsidianCommentStart => obsidian_comment::start_step(before, s, after),
        StateName::ObsidianCommentOpen => obsidian_comment::open_step(before, s, after),
        StateName::ObsidianCommentInside => obsidian_comment::inside_step(before, s, after),
        StateName::ObsidianCommentAfter => obsidian_comment::after_step(before, s, after),
        StateName::ObsidianEmbedStart => obsidian_embed::start_step(before, s, after),
        StateName::ObsidianEmbedOpen => obsidian_embed::open_step(before, s, after),
        StateName::ObsidianEmbedOpen2 => obsidian_embed::open_2_step(before, s, after),
        StateName::ObsidianEmbedClose => obsidian_embed::close_step(before, s, after),
        StateName::ObsidianHighlightStart => obsidian_highlight::start_step(before, s, after),
        StateName::ObsidianHighlightSequence => obsidian_highlight::sequence_step(before, s, after),
        StateName::ObsidianHighlightAfter => obsidian_highlight::after_step(before, s, after),
        StateName::ObsidianHighlightInside => obsidian_highlight::inside_step(before, s, after),
        StateName::ObsidianHighlightClose => obsidian_highlight::close_step(before, s, after),
        StateName::ObsidianTargetStart => obsidian_target::start_step(before, s, after),
        StateName::ObsidianTargetPath => obsidian_target::path_step(before, s, after),
        StateName::ObsidianTargetAfterHash => obsidian_target::after_hash_step(before, s, after),
        StateName::ObsidianTargetHeading => obsidian_target::heading_step(before, s, after),
        StateName::ObsidianTargetAfterCaret => obsidian_target::after_caret_step(before, s, after),
        StateName::ObsidianTargetBlockId => obsidian_target::block_id_step(before, s, after),
        StateName::ObsidianTargetAfterPipe => obsidian_target::after_pipe_step(before, s, after),
        StateName::ObsidianTargetAlias => obsidian_target::alias_step(before, s, after),
        StateName::ObsidianTargetClose => obsidian_target::close_step(before, s, after),
        StateName::ObsidianWikilinkStart => obsidian_wikilink::start_step(before, s, after),
        StateName::ObsidianWikilinkOpen => obsidian_wikilink::open_step(before, s, after),
        StateName::ObsidianWikilinkClose => obsidian_wikilink::close_step(before, s, after),
    }
}

/// Call the function of the state `name`.
pub fn call(tokenizer: &mut Tokenizer, name: StateName) -> (s: State)
    requires
        old(tokenizer).wf(),
        name == StateName::ObsidianHighlightClose ==> old(tokenizer).events@.len() >= 2,
    ensures
        final(tokenizer).wf(),
        final(tokenizer).bytes@ == old(tokenizer).bytes@,
        final(tokenizer).constructs == old(tokenizer).constructs,
        final(tokenizer).events@.len() >= old(tokenizer).events@.len(),
        s matches State::Next(_) ==> final(tokenizer).index == old(tokenizer).index + 1,
        s matches State::Retry(_) ==> final(tokenizer).index == old(tokenizer).index,
        s matches State::Retry(next) ==> retry_rank(next) < retry_rank(name),
        final(tokenizer).index >= old(tokenizer).index,
        s matches State::Next(StateName::ObsidianHighlightClose) ==> final(tokenizer).events@.len() >= 2,
        s matches State::Retry(StateName::ObsidianHighlightClose) ==> final(tokenizer).events@.len() >= 2,
        !start_enabled(old(tokenizer).constructs, name) ==> s == State::Nok
            && final(tokenizer).index == old(tokenizer).index && final(tokenizer).events@ == old(tokenizer).events@,
        step(name, *old(tokenizer), s, *final(tokenizer)),
{
    match name {
        StateName::ObsidianBlockIdStart => obsidian_block_id::start(tokenizer),
        StateName::ObsidianBlockIdValue => obsidian_block_id::value(tokenizer),
        StateName::ObsidianBlockIdValueInside => obsidian_block_id::value_inside(tokenizer),
        StateName::ObsidianCommentStart => obsidian_comment::start(tokenizer),
        StateName::ObsidianCommentOpen => obsidian_comment::open(tokenizer),
        StateName::ObsidianCommentInside => obsidian_comment::inside(tokenizer),
        StateName::ObsidianCommentAfter => obsidian_comment::after(tokenizer),
        StateName::ObsidianEmbedStart => obsidian_embed::start(tokenizer),
        StateName::ObsidianEmbedOpen => obsidian_embed::open(tokenizer),
        StateName::ObsidianEmbedOpen2 => obsidian_embed::open_2(tokenizer),
        StateName::ObsidianEmbedClose => obsidian_embed::close(tokenizer),
        StateName::ObsidianHighlightStart => obsidian_highlight::start(tokenizer),
        StateName::ObsidianHighlightSequence => obsidian_highlight::sequence(tokenizer),
        StateName::ObsidianHighlightAfter => obsidian_highlight::after(tokenizer),
        StateName::ObsidianHighlightInside => obsidian_highlight::inside(tokenizer),
        StateName::ObsidianHighlightClose => obsidian_highlight::close(tokenizer),
        StateName::ObsidianTargetStart => obsidian_target::start(tokenizer),
        StateName::ObsidianTargetPath => obsidian_target::path(tokenizer),
        StateName::ObsidianTargetAfterHash => obsidian_target::after_hash(tokenizer),
        StateName::ObsidianTargetHeading => obsidian_target::heading(tokenizer),
        StateName::ObsidianTargetAfterCaret => obsidian_target::after_caret(tokenizer),
        StateName::ObsidianTargetBlockId => obsidian_target::block_id(tokenizer),
        StateName::ObsidianTargetAfterPipe => obsidian_target::after_pipe(tokenizer),
        StateName::ObsidianTargetAlias => obsidian_target::alias(tokenizer),
        StateName::ObsidianTargetClose => obsidian_target::close(tokenizer),
        StateName::ObsidianWikilinkStart => obsidian_wikilink::start(tokenizer),
        StateName::ObsidianWikilinkOpen => obsidian_wikilink::open(tokenizer),
        StateName::ObsidianWikilinkClose => obsidian_wikilink::close(tokenizer),
    }
}

/// States reached by a retry rank lower than the states that retry into
/// them, so a run of retries ends.
pub open spec fn retry_rank(name: StateName) -> nat {
    match name {
        StateName::ObsidianTargetClose => 0,
        StateName::ObsidianTargetPath | StateName::ObsidianTargetHeading
        | StateName::ObsidianTargetBlockId | StateName::ObsidianTargetAlias
        | StateName::ObsidianHighlightInside => 1,
        _ => 2,
    }
}

/// Whether run step `b` follows run step `a`: `a` went on to the state of
/// `b`, from the tokenizer that `a` left.
pub open spec fn continues(a: (StateName, Tokenizer, State, Tokenizer), b: (StateName, Tokenizer, State, Tokenizer)) -> bool {
    (a.2 == State::Next(b.0) || a.2 == State::Retry(b.0)) && b.1 == a.3
}

/// Whether each entry of `trace` is a step of its state, and each entry
/// after the first follows the one before it.
#[verifier::opaque]
pub open spec fn steps_valid(trace: Seq<(StateName, Tokenizer, State, Tokenizer)>) -> bool {
    &&& forall|i: int| 0 <= i < trace.len() ==> step((#[trigger] trace[i]).0, trace[i].1, trace[i].2, trace[i].3)
    &&& forall|i: int| 0 < i < trace.len() ==> continues(trace[i - 1], #[trigger] trace[i])
}

/// Step `k` of a valid trace is a step of its state and follows the one
/// before it.
pub proof fn lemma_run_step(trace: Seq<(StateName, Tokenizer, State, Tokenizer)>, k: int)
    requires
        steps_valid(trace),
        0 <= k < trace.len(),
    ensures
        step(trace[k].0, trace[k].1, trace[k].2, trace[k].3),
        k > 0 ==> continues(trace[k - 1], trace[k]),
{
    reveal(steps_valid);
}

/// Whether `trace` is a run of the state machines from state `start` on
/// tokenizer `first` to tokenizer `last`: each entry is a state, the
/// tokenizer before and after its function, and its answer; the run ends in
/// `Done` when `matched` and in `Nok` otherwise.
pub open spec fn is_run(
    trace: Seq<(StateName, Tokenizer, State, Tokenizer)>,
    start: StateName,
    first: Tokenizer,
    last: Tokenizer,
    matched: bool,
) -> bool {
    &&& trace.len() > 0
    &&& trace[0].0 == start
    &&& trace[0].1 == first
    &&& steps_valid(trace)
    &&& trace.last().3 == last
    &&& if matched { trace.last().2 == State::Done } else { trace.last().2 == State::Nok }
}

/// Run a construct from `start` until it is done or does not match.
/// Returns whether it matched; the tokenizer then stands after it.
pub fn attempt(tokenizer: &mut Tokenizer, start: StateName) -> (matched: bool)
    requires
        old(tokenizer).wf(),
        start != StateName::ObsidianHighlightClose,
    ensures
        final(tokenizer).wf(),
        final(tokenizer).bytes@ == old(tokenizer).bytes@,
        final(tokenizer).constructs == old(tokenizer).constructs,
        final(tokenizer).index >= old(tokenizer).index,
        !start_enabled(old(tokenizer).constructs, start) ==> !matched
            && final(tokenizer).index == old(tokenizer).index && final(tokenizer).events@ == old(tokenizer).events@,
        exists|trace: Seq<(StateName, Tokenizer, State, Tokenizer)>|
            is_run(trace, start, *old(tokenizer), *final(tokenizer), matched),
{
    let mut name = start;
    let ghost mut trace: Seq<(StateName, Tokenizer, State, Tokenizer)> = Seq::empty();
    loop
        invariant
            tokenizer.wf(),
            tokenizer.bytes@ == old(tokenizer).bytes@,
            tokenizer.constructs == old(tokenizer).constructs,
            tokenizer.index >= old(tokenizer).index,
            name == StateName::ObsidianHighlightClose ==> tokenizer.events@.len() >= 2,
            trace.len() == 0 ==> name == start && *tokenizer == *old(tokenizer),
            !start_enabled(old(tokenizer).constructs, start) ==> trace.len() == 0,
            trace.len() > 0 ==> {
                &&& trace[0].0 == start
                &&& trace[0].1 == *old(tokenizer)
                &&& forall|i: int| 0 <= i < trace.len() ==> step((#[trigger] trace[i]).0, trace[i].1, trace[i].2, trace[i].3)
                &&& forall|i: int| 0 < i < trace.len() ==> continues(trace[i - 1], #[trigger] trace[i])
                &&& trace.last().3 == *tokenizer
                &&& (trace.last().2 == State::Next(name) || trace.last().2 == State::Retry(name))
            },
        decreases tokenizer.bytes@.len() - tokenizer.index, retry_rank(name),
    {
        let ghost before = *tokenizer;
        let state = call(tokenizer, name);
        let ghost previous = trace;
        proof {
            trace = trace.push((name, before, state, *tokenizer));
            assert forall|i: int| 0 <= i < trace.len() implies step((#[trigger] trace[i]).0, trace[i].1, trace[i].2, trace[i].3) by {
                if i < previous.len() {
                    assert(trace[i] == previous[i]);
                }
            }
            assert forall|i: int| 0 < i < trace.len() implies continues(trace[i - 1], #[trigger] trace[i]) by {
                assert(trace[i - 1] == if i - 1 < previous.len() { previous[i - 1] } else { trace[i - 1] });
                if i < previous.len() {
                    assert(trace[i] == previous[i]);
                    assert(trace[i - 1] == previous[i - 1]);
                } else {
                    assert(trace[i - 1] == previous.last());
                }
            }
        }
        match state {
            State::Next(next) => {
                name = next;
            },
            State::Retry(next) => {
                name = next;
            },
            State::Done => {
                proof {
                    reveal(steps_valid);
                    assert(is_run(trace, start, *old(tokenizer), *tokenizer, true));
                }
                return true;
            },
            State::Nok => {
                proof {
                    reveal(steps_valid);
                    assert(is_run(trace, start, *old(tokenizer), *tokenizer, false));
                }
                return false;
            },
        }
    }
}

/// Whether two tokenizers agree in everything a state function reads or
/// writes.
pub open spec fn same_observed(a: Tokenizer, b: Tokenizer) -> bool {
    &&& a.bytes@ == b.bytes@
    &&& a.index == b.index
    &&& a.previous == b.previous
    &&& a.current == b.current
    &&& a.events@ == b.events@
    &&& a.constructs == b.constructs
    &&& a.token_1 == b.token_1
}

/// A state function's answer and the tokenizer it leaves depend only on
/// what it observes of the tokenizer it is given.
pub proof fn lemma_step_functional(
    name: StateName,
    t1: Tokenizer,
    t2: Tokenizer,
    s1: State,
    s2: State,
    a1: Tokenizer,
    a2: Tokenizer,
)
    requires
        same_observed(t1, t2),
        step(name, t1, s1, a1),
        step(name, t2, s2, a2),
    ensures
        s1 == s2,
        same_observed(a1, a2),
{
}

/// Two runs from the same state on tokenizers that agree end alike: both
/// match or both fail, on tokenizers that agree.
pub proof fn lemma_runs_agree(
    r1: Seq<(StateName, Tokenizer, State, Tokenizer)>,
    r2: Seq<(StateName, Tokenizer, State, Tokenizer)>,
    start: StateName,
    first1: Tokenizer,
    first2: Tokenizer,
    last1: Tokenizer,
    last2: Tokenizer,
    m1: bool,
    m2: bool,
)
    requires
        same_observed(first1, first2),
        is_run(r1, start, first1, last1, m1),
        is_run(r2, start, first2, last2, m2),
    ensures
        m1 == m2,
        same_observed(last1, last2),
{
    reveal(steps_valid);
    lemma_runs_agree_from(r1, r2, 0);
}

/// From step `k` on, two runs that agree at step `k` end alike.
proof fn lemma_runs_agree_from(
    r1: Seq<(StateName, Tokenizer, State, Tokenizer)>,
    r2: Seq<(StateName, Tokenizer, State, Tokenizer)>,
    k: int,
)
    requires
        0 <= k < r1.len(),
        k < r2.len(),
        r1[k].0 == r2[k].0,
        same_observed(r1[k].1, r2[k].1),
        forall|i: int| 0 <= i < r1.len() ==> step((#[trigger] r1[i]).0, r1[i].1, r1[i].2, r1[i].3),
        forall|i: int| 0 < i < r1.len() ==> continues(r1[i - 1], #[trigger] r1[i]),
        forall|i: int| 0 <= i < r2.len() ==> step((#[trigger] r2[i]).0, r2[i].1, r2[i].2, r2[i].3),
        forall|i: int| 0 < i < r2.len() ==> continues(r2[i - 1], #[trigger] r2[i]),
        r1.last().2 == State::Done || r1.last().2 == State::Nok,
        r2.last().2 == State::Done || r2.last().2 == State::Nok,
    ensures
        r1.len() == r2.len(),
        r1.last().2 == r2.last().2,
        same_observed(r1.last().3, r2.last().3),
    decreases r1.len() - k,
{
    assert(step(r1[k].0, r1[k].1, r1[k].2, r1[k].3));
    assert(step(r2[k].0, r2[k].1, r2[k].2, r2[k].3));
    lemma_step_functional(r1[k].0, r1[k].1, r2[k].1, r1[k].2, r2[k].2, r1[k].3, r2[k].3);
    if k + 1 < r1.len() {
        assert(continues(r1[k], r1[k + 1]));
        if k + 1 >= r2.len() {
            assert(r2[k] == r2.last());
        } else {
            assert(continues(r2[k], r2[k + 1]));
            lemma_runs_agree_from(r1, r2, k + 1);
        }
    } else {
        assert(r1[k] == r1.last());
        if k + 1 < r2.len() {
            assert(continues(r2[k], r2[k + 1]));
        }
    }
}

} // verus!
