//! Obsidian: the target of wikilinks and embeds, between `[[` (or `![[`)
//! and `]]`.
//!
//! ```bnf
//! target   ::= path? rest? alias?
//! path     ::= 1*byte - ( '#' | '|' | ']' )
//! rest     ::= '#' ( '^' block_id | heading )
//! heading  ::= *byte - ( '|' | ']' )
//! block_id ::= 1*( ascii_alphanumeric | '-' | '_' )
//! alias    ::= '|' 1*byte - ']'
//! ```
//!
//! `token_1` tells the close state which construct (wikilink or embed) to
//! finish.

use vstd::prelude::*;
use crate::state::{lemma_run_step, steps_valid};
use crate::util::text::spec_is_block_id_byte;
use crate::tokenizer::{event, Event, Kind, Name, State, StateName, Tokenizer};

verus! {

/// What state `start` does: from tokenizer `before` to `after`, answering `s`.
pub open spec fn start_step(before: Tokenizer, s: State, after: Tokenizer) -> bool {
    ({
        let i = before.index as int;
        if (before.current == Some(0x5du8)) || (before.current == Some(0x7cu8)) || (before.current is None) {
            s == State::Nok && before.stepped(&after, 0, seq![])
        } else if before.current == Some(0x23u8) {
            s == State::Next(StateName::ObsidianTargetAfterHash) && before.stepped(&after, 1, seq![event(Kind::Enter, Name::ObsidianTargetHash, i), event(Kind::Exit, Name::ObsidianTargetHash, i + 1)])
        } else if before.current is Some {
            s == State::Retry(StateName::ObsidianTargetPath) && before.stepped(&after, 0, seq![event(Kind::Enter, Name::ObsidianTargetPath, i)])
        } else {
            s == State::Nok && before.stepped(&after, 0, seq![])
        }
    })
}

/// Start of the target, at the first byte after `[[` or `![[`.
pub fn start(tokenizer: &mut Tokenizer) -> (s: State)
    requires
        old(tokenizer).wf(),
    ensures
        start_step(*old(tokenizer), s, *final(tokenizer)),
{
    if (tokenizer.current == Some(0x5du8)) || (tokenizer.current == Some(0x7cu8)) || (tokenizer.current.is_none()) {
        proof {
            assert(tokenizer.events@ =~= old(tokenizer).events@ + Seq::<Event>::empty());
        }
        State::Nok
    } else if tokenizer.current == Some(0x23u8) {
        tokenizer.enter(Name::ObsidianTargetHash);
        tokenizer.consume();
        tokenizer.exit(Name::ObsidianTargetHash);
        proof {
            assert(tokenizer.events@ =~= old(tokenizer).events@ + seq![event(Kind::Enter, Name::ObsidianTargetHash, old(tokenizer).index as int), event(Kind::Exit, Name::ObsidianTargetHash, old(tokenizer).index as int + 1)]);
        }
        State::Next(StateName::ObsidianTargetAfterHash)
    } else if tokenizer.current.is_some() {
        tokenizer.enter(Name::ObsidianTargetPath);
        proof {
            assert(tokenizer.events@ =~= old(tokenizer).events@ + seq![event(Kind::Enter, Name::ObsidianTargetPath, old(tokenizer).index as int)]);
        }
        State::Retry(StateName::ObsidianTargetPath)
    } else {
        proof {
            assert(tokenizer.events@ =~= old(tokenizer).events@ + Seq::<Event>::empty());
        }
        State::Nok
    }
}

/// What state `path` does: from tokenizer `before` to `after`, answering `s`.
pub open spec fn path_step(before: Tokenizer, s: State, after: Tokenizer) -> bool {
    ({
        let i = before.index as int;
        if before.current == Some(0x5du8) {
            s == State::Retry(StateName::ObsidianTargetClose) && before.stepped(&after, 0, seq![event(Kind::Exit, Name::ObsidianTargetPath, i)])
        } else if before.current == Some(0x23u8) {
            s == State::Next(StateName::ObsidianTargetAfterHash) && before.stepped(&after, 1, seq![event(Kind::Exit, Name::ObsidianTargetPath, i), event(Kind::Enter, Name::ObsidianTargetHash, i), event(Kind::Exit, Name::ObsidianTargetHash, i + 1)])
        } else if before.current == Some(0x7cu8) {
            s == State::Next(StateName::ObsidianTargetAfterPipe) && before.stepped(&after, 1, seq![event(Kind::Exit, Name::ObsidianTargetPath, i), event(Kind::Enter, Name::ObsidianTargetAliasMarker, i), event(Kind::Exit, Name::ObsidianTargetAliasMarker, i + 1)])
        } else if (before.current == Some(0x0au8)) || (before.current is None) {
            s == State::Nok && before.stepped(&after, 0, seq![])
        } else if before.current is Some {
            s == State::Next(StateName::ObsidianTargetPath) && before.stepped(&after, 1, seq![])
        } else {
            s == State::Nok && before.stepped(&after, 0, seq![])
        }
    })
}

/// In the path.
pub fn path(tokenizer: &mut Tokenizer) -> (s: State)
    requires
        old(tokenizer).wf(),
    ensures
        path_step(*old(tokenizer), s, *final(tokenizer)),
{
    if tokenizer.current == Some(0x5du8) {
        tokenizer.exit(Name::ObsidianTargetPath);
        proof {
            assert(tokenizer.events@ =~= old(tokenizer).events@ + seq![event(Kind::Exit, Name::ObsidianTargetPath, old(tokenizer).index as int)]);
        }
        State::Retry(StateName::ObsidianTargetClose)
    } else if tokenizer.current == Some(0x23u8) {
        tokenizer.exit(Name::ObsidianTargetPath);
        tokenizer.enter(Name::ObsidianTargetHash);
        tokenizer.consume();
        tokenizer.exit(Name::ObsidianTargetHash);
        proof {
            assert(tokenizer.events@ =~= old(tokenizer).events@ + seq![event(Kind::Exit, Name::ObsidianTargetPath, old(tokenizer).index as int), event(Kind::Enter, Name::ObsidianTargetHash, old(tokenizer).index as int), event(Kind::Exit, Name::ObsidianTargetHash, old(tokenizer).index as int + 1)]);
        }
        State::Next(StateName::ObsidianTargetAfterHash)
    } else if tokenizer.current == Some(0x7cu8) {
        tokenizer.exit(Name::ObsidianTargetPath);
        tokenizer.enter(Name::ObsidianTargetAliasMarker);
        tokenizer.consume();
        tokenizer.exit(Name::ObsidianTargetAliasMarker);
        proof {
            assert(tokenizer.events@ =~= old(tokenizer).events@ + seq![event(Kind::Exit, Name::ObsidianTargetPath, old(tokenizer).index as int), event(Kind::Enter, Name::ObsidianTargetAliasMarker, old(tokenizer).index as int), event(Kind::Exit, Name::ObsidianTargetAliasMarker, old(tokenizer).index as int + 1)]);
        }
        State::Next(StateName::ObsidianTargetAfterPipe)
    } else if (tokenizer.current == Some(0x0au8)) || (tokenizer.current.is_none()) {
        proof {
            assert(tokenizer.events@ =~= old(tokenizer).events@ + Seq::<Event>::empty());
        }
        State::Nok
    } else if tokenizer.current.is_some() {
        tokenizer.consume();
        proof {
            assert(tokenizer.events@ =~= old(tokenizer).events@ + Seq::<Event>::empty());
        }
        State::Next(StateName::ObsidianTargetPath)
    } else {
        proof {
            assert(tokenizer.events@ =~= old(tokenizer).events@ + Seq::<Event>::empty());
        }
        State::Nok
    }
}

/// What state `after_hash` does: from tokenizer `before` to `after`, answering `s`.
pub open spec fn after_hash_step(before: Tokenizer, s: State, after: Tokenizer) -> bool {
    ({
        let i = before.index as int;
        if before.current == Some(0x5eu8) {
            s == State::Next(StateName::ObsidianTargetAfterCaret) && before.stepped(&after, 1, seq![event(Kind::Enter, Name::ObsidianTargetBlockIdMarker, i), event(Kind::Exit, Name::ObsidianTargetBlockIdMarker, i + 1)])
        } else if (before.current == Some(0x5du8)) || (before.current == Some(0x7cu8)) || (before.current is None) {
            s == State::Nok && before.stepped(&after, 0, seq![])
        } else if before.current is Some {
            s == State::Retry(StateName::ObsidianTargetHeading) && before.stepped(&after, 0, seq![event(Kind::Enter, Name::ObsidianTargetHeading, i)])
        } else {
            s == State::Nok && before.stepped(&after, 0, seq![])
        }
    })
}

/// After `#`, at heading text or `^` (block id).
pub fn after_hash(tokenizer: &mut Tokenizer) -> (s: State)
    requires
        old(tokenizer).wf(),
    ensures
        after_hash_step(*old(tokenizer), s, *final(tokenizer)),
{
    if tokenizer.current == Some(0x5eu8) {
        tokenizer.enter(Name::ObsidianTargetBlockIdMarker);
        tokenizer.consume();
        tokenizer.exit(Name::ObsidianTargetBlockIdMarker);
        proof {
            assert(tokenizer.events@ =~= old(tokenizer).events@ + seq![event(Kind::Enter, Name::ObsidianTargetBlockIdMarker, old(tokenizer).index as int), event(Kind::Exit, Name::ObsidianTargetBlockIdMarker, old(tokenizer).index as int + 1)]);
        }
        State::Next(StateName::ObsidianTargetAfterCaret)
    } else if (tokenizer.current == Some(0x5du8)) || (tokenizer.current == Some(0x7cu8)) || (tokenizer.current.is_none()) {
        proof {
            assert(tokenizer.events@ =~= old(tokenizer).events@ + Seq::<Event>::empty());
        }
        State::Nok
    } else if tokenizer.current.is_some() {
        tokenizer.enter(Name::ObsidianTargetHeading);
        proof {
            assert(tokenizer.events@ =~= old(tokenizer).events@ + seq![event(Kind::Enter, Name::ObsidianTargetHeading, old(tokenizer).index as int)]);
        }
        State::Retry(StateName::ObsidianTargetHeading)
    } else {
        proof {
            assert(tokenizer.events@ =~= old(tokenizer).events@ + Seq::<Event>::empty());
        }
        State::Nok
    }
}

/// What state `heading` does: from tokenizer `before` to `after`, answering `s`.
pub open spec fn heading_step(before: Tokenizer, s: State, after: Tokenizer) -> bool {
    ({
        let i = before.index as int;
        if before.current == Some(0x5du8) {
            s == State::Retry(StateName::ObsidianTargetClose) && before.stepped(&after, 0, seq![event(Kind::Exit, Name::ObsidianTargetHeading, i)])
        } else if before.current == Some(0x7cu8) {
            s == State::Next(StateName::ObsidianTargetAfterPipe) && before.stepped(&after, 1, seq![event(Kind::Exit, Name::ObsidianTargetHeading, i), event(Kind::Enter, Name::ObsidianTargetAliasMarker, i), event(Kind::Exit, Name::ObsidianTargetAliasMarker, i + 1)])
        } else if (before.current == Some(0x0au8)) || (before.current is None) {
            s == State::Nok && before.stepped(&after, 0, seq![])
        } else if before.current is Some {
            s == State::Next(StateName::ObsidianTargetHeading) && before.stepped(&after, 1, seq![])
        } else {
            s == State::Nok && before.stepped(&after, 0, seq![])
        }
    })
}

/// In heading text.
pub fn heading(tokenizer: &mut Tokenizer) -> (s: State)
    requires
        old(tokenizer).wf(),
    ensures
        heading_step(*old(tokenizer), s, *final(tokenizer)),
{
    if tokenizer.current == Some(0x5du8) {
        tokenizer.exit(Name::ObsidianTargetHeading);
        proof {
            assert(tokenizer.events@ =~= old(tokenizer).events@ + seq![event(Kind::Exit, Name::ObsidianTargetHeading, old(tokenizer).index as int)]);
        }
        State::Retry(StateName::ObsidianTargetClose)
    } else if tokenizer.current == Some(0x7cu8) {
        tokenizer.exit(Name::ObsidianTargetHeading);
        tokenizer.enter(Name::ObsidianTargetAliasMarker);
        tokenizer.consume();
        tokenizer.exit(Name::ObsidianTargetAliasMarker);
        proof {
            assert(tokenizer.events@ =~= old(tokenizer).events@ + seq![event(Kind::Exit, Name::ObsidianTargetHeading, old(tokenizer).index as int), event(Kind::Enter, Name::ObsidianTargetAliasMarker, old(tokenizer).index as int), event(Kind::Exit, Name::ObsidianTargetAliasMarker, old(tokenizer).index as int + 1)]);
        }
        State::Next(StateName::ObsidianTargetAfterPipe)
    } else if (tokenizer.current == Some(0x0au8)) || (tokenizer.current.is_none()) {
        proof {
            assert(tokenizer.events@ =~= old(tokenizer).events@ + Seq::<Event>::empty());
        }
        State::Nok
    } else if tokenizer.current.is_some() {
        tokenizer.consume();
        proof {
            assert(tokenizer.events@ =~= old(tokenizer).events@ + Seq::<Event>::empty());
        }
        State::Next(StateName::ObsidianTargetHeading)
    } else {
        proof {
            assert(tokenizer.events@ =~= old(tokenizer).events@ + Seq::<Event>::empty());
        }
        State::Nok
    }
}

/// What state `after_caret` does: from tokenizer `before` to `after`, answering `s`.
pub open spec fn after_caret_step(before: Tokenizer, s: State, after: Tokenizer) -> bool {
    ({
        let i = before.index as int;
        if before.at_id_byte() {
            s == State::Retry(StateName::ObsidianTargetBlockId) && before.stepped(&after, 0, seq![event(Kind::Enter, Name::ObsidianTargetBlockId, i)])
        } else {
            s == State::Nok && before.stepped(&after, 0, seq![])
        }
    })
}

/// After `^`, at the block id: an empty id is no target.
pub fn after_caret(tokenizer: &mut Tokenizer) -> (s: State)
    requires
        old(tokenizer).wf(),
    ensures
        after_caret_step(*old(tokenizer), s, *final(tokenizer)),
{
    if tokenizer.current_is_id_byte() {
        tokenizer.enter(Name::ObsidianTargetBlockId);
        proof {
            assert(tokenizer.events@ =~= old(tokenizer).events@ + seq![event(Kind::Enter, Name::ObsidianTargetBlockId, old(tokenizer).index as int)]);
        }
        State::Retry(StateName::ObsidianTargetBlockId)
    } else {
        proof {
            assert(tokenizer.events@ =~= old(tokenizer).events@ + Seq::<Event>::empty());
        }
        State::Nok
    }
}

/// What state `block_id` does: from tokenizer `before` to `after`, answering `s`.
pub open spec fn block_id_step(before: Tokenizer, s: State, after: Tokenizer) -> bool {
    ({
        let i = before.index as int;
        if before.current == Some(0x5du8) {
            s == State::Retry(StateName::ObsidianTargetClose) && before.stepped(&after, 0, seq![event(Kind::Exit, Name::ObsidianTargetBlockId, i)])
        } else if before.current == Some(0x7cu8) {
            s == State::Next(StateName::ObsidianTargetAfterPipe) && before.stepped(&after, 1, seq![event(Kind::Exit, Name::ObsidianTargetBlockId, i), event(Kind::Enter, Name::ObsidianTargetAliasMarker, i), event(Kind::Exit, Name::ObsidianTargetAliasMarker, i + 1)])
        } else if before.at_id_byte() {
            s == State::Next(StateName::ObsidianTargetBlockId) && before.stepped(&after, 1, seq![])
        } else {
            s == State::Nok && before.stepped(&after, 0, seq![])
        }
    })
}

/// In the block id.
pub fn block_id(tokenizer: &mut Tokenizer) -> (s: State)
    requires
        old(tokenizer).wf(),
    ensures
        block_id_step(*old(tokenizer), s, *final(tokenizer)),
{
    if tokenizer.current == Some(0x5du8) {
        tokenizer.exit(Name::ObsidianTargetBlockId);
        proof {
            assert(tokenizer.events@ =~= old(tokenizer).events@ + seq![event(Kind::Exit, Name::ObsidianTargetBlockId, old(tokenizer).index as int)]);
        }
        State::Retry(StateName::ObsidianTargetClose)
    } else if tokenizer.current == Some(0x7cu8) {
        tokenizer.exit(Name::ObsidianTargetBlockId);
        tokenizer.enter(Name::ObsidianTargetAliasMarker);
        tokenizer.consume();
        tokenizer.exit(Name::ObsidianTargetAliasMarker);
        proof {
            assert(tokenizer.events@ =~= old(tokenizer).events@ + seq![event(Kind::Exit, Name::ObsidianTargetBlockId, old(tokenizer).index as int), event(Kind::Enter, Name::ObsidianTargetAliasMarker, old(tokenizer).index as int), event(Kind::Exit, Name::ObsidianTargetAliasMarker, old(tokenizer).index as int + 1)]);
        }
        State::Next(StateName::ObsidianTargetAfterPipe)
    } else if tokenizer.current_is_id_byte() {
        tokenizer.consume();
        proof {
            assert(tokenizer.events@ =~= old(tokenizer).events@ + Seq::<Event>::empty());
        }
        State::Next(StateName::ObsidianTargetBlockId)
    } else {
        proof {
            assert(tokenizer.events@ =~= old(tokenizer).events@ + Seq::<Event>::empty());
        }
        State::Nok
    }
}

/// What state `after_pipe` does: from tokenizer `before` to `after`, answering `s`.
pub open spec fn after_pipe_step(before: Tokenizer, s: State, after: Tokenizer) -> bool {
    ({
        let i = before.index as int;
        if (before.current == Some(0x5du8)) || (before.current == Some(0x0au8)) || (before.current is None) {
            s == State::Nok && before.stepped(&after, 0, seq![])
        } else if before.current is Some {
            s == State::Retry(StateName::ObsidianTargetAlias) && before.stepped(&after, 0, seq![event(Kind::Enter, Name::ObsidianTargetAlias, i)])
        } else {
            s == State::Nok && before.stepped(&after, 0, seq![])
        }
    })
}

/// After `|`, at the alias: an empty alias is no target.
pub fn after_pipe(tokenizer: &mut Tokenizer) -> (s: State)
    requires
        old(tokenizer).wf(),
    ensures
        after_pipe_step(*old(tokenizer), s, *final(tokenizer)),
{
    if (tokenizer.current == Some(0x5du8)) || (tokenizer.current == Some(0x0au8)) || (tokenizer.current.is_none()) {
        proof {
            assert(tokenizer.events@ =~= old(tokenizer).events@ + Seq::<Event>::empty());
        }
        State::Nok
    } else if tokenizer.current.is_some() {
        tokenizer.enter(Name::ObsidianTargetAlias);
        proof {
            assert(tokenizer.events@ =~= old(tokenizer).events@ + seq![event(Kind::Enter, Name::ObsidianTargetAlias, old(tokenizer).index as int)]);
        }
        State::Retry(StateName::ObsidianTargetAlias)
    } else {
        proof {
            assert(tokenizer.events@ =~= old(tokenizer).events@ + Seq::<Event>::empty());
        }
        State::Nok
    }
}

/// What state `alias` does: from tokenizer `before` to `after`, answering `s`.
pub open spec fn alias_step(before: Tokenizer, s: State, after: Tokenizer) -> bool {
    ({
        let i = before.index as int;
        if before.current == Some(0x5du8) {
            s == State::Retry(StateName::ObsidianTargetClose) && before.stepped(&after, 0, seq![event(Kind::Exit, Name::ObsidianTargetAlias, i)])
        } else if (before.current == Some(0x0au8)) || (before.current is None) {
            s == State::Nok && before.stepped(&after, 0, seq![])
        } else if before.current is Some {
            s == State::Next(StateName::ObsidianTargetAlias) && before.stepped(&after, 1, seq![])
        } else {
            s == State::Nok && before.stepped(&after, 0, seq![])
        }
    })
}

/// In alias text.
pub fn alias(tokenizer: &mut Tokenizer) -> (s: State)
    requires
        old(tokenizer).wf(),
    ensures
        alias_step(*old(tokenizer), s, *final(tokenizer)),
{
    if tokenizer.current == Some(0x5du8) {
        tokenizer.exit(Name::ObsidianTargetAlias);
        proof {
            assert(tokenizer.events@ =~= old(tokenizer).events@ + seq![event(Kind::Exit, Name::ObsidianTargetAlias, old(tokenizer).index as int)]);
        }
        State::Retry(StateName::ObsidianTargetClose)
    } else if (tokenizer.current == Some(0x0au8)) || (tokenizer.current.is_none()) {
        proof {
            assert(tokenizer.events@ =~= old(tokenizer).events@ + Seq::<Event>::empty());
        }
        State::Nok
    } else if tokenizer.current.is_some() {
        tokenizer.consume();
        proof {
            assert(tokenizer.events@ =~= old(tokenizer).events@ + Seq::<Event>::empty());
        }
        State::Next(StateName::ObsidianTargetAlias)
    } else {
        proof {
            assert(tokenizer.events@ =~= old(tokenizer).events@ + Seq::<Event>::empty());
        }
        State::Nok
    }
}

/// What state `close` does: from tokenizer `before` to `after`, answering `s`.
pub open spec fn close_step(before: Tokenizer, s: State, after: Tokenizer) -> bool {
    ({
        let i = before.index as int;
        let embed = before.token_1 == Name::ObsidianEmbed;
        if before.current == Some(0x5du8) {
            &&& s == State::Next(
                if embed { StateName::ObsidianEmbedClose } else { StateName::ObsidianWikilinkClose },
            )
            &&& before.stepped(&after, 1, seq![
                event(
                    Kind::Enter,
                    if embed { Name::ObsidianEmbedMarker } else { Name::ObsidianWikilinkMarker },
                    i,
                ),
            ])
        } else {
            s == State::Nok && before.stepped(&after, 0, seq![])
        }
    })
}

/// At `]]`, closing the target: enter the closing marker of the construct
/// that `token_1` names (an embed, else a wikilink), consume the first `]`,
/// and move to that construct's close state.
pub fn close(tokenizer: &mut Tokenizer) -> (s: State)
    requires
        old(tokenizer).wf(),
    ensures
        close_step(*old(tokenizer), s, *final(tokenizer)),
{
    if tokenizer.current == Some(0x5du8) {
        let marker = if tokenizer.token_1 == Name::ObsidianEmbed {
            Name::ObsidianEmbedMarker
        } else {
            Name::ObsidianWikilinkMarker
        };
        let close_state = if tokenizer.token_1 == Name::ObsidianEmbed {
            StateName::ObsidianEmbedClose
        } else {
            StateName::ObsidianWikilinkClose
        };
        tokenizer.enter(marker);
        tokenizer.consume();
        proof {
            assert(tokenizer.events@ =~= old(tokenizer).events@ + seq![
                event(Kind::Enter, marker, old(tokenizer).index as int),
            ]);
        }
        State::Next(close_state)
    } else {
        proof {
            assert(tokenizer.events@ =~= old(tokenizer).events@ + Seq::<Event>::empty());
        }
        State::Nok
    }
}

/// Where a target whose start is at `p` ends, at the `]` after it.
pub open spec fn target_end(bytes: Seq<u8>, p: int) -> Option<int>
    decreases bytes.len() - p, 1int,
{
    if p < 0 || p >= bytes.len() || bytes[p] == 0x5du8 || bytes[p] == 0x7cu8 {
        None
    } else if bytes[p] == 0x23u8 {
        after_hash_end(bytes, p + 1)
    } else {
        path_end(bytes, p)
    }
}

/// Where a target that is in its path at `p` ends.
pub open spec fn path_end(bytes: Seq<u8>, p: int) -> Option<int>
    decreases bytes.len() - p, 0int,
{
    if p < 0 || p >= bytes.len() || bytes[p] == 0x0au8 {
        None
    } else if bytes[p] == 0x5du8 {
        Some(p)
    } else if bytes[p] == 0x23u8 {
        after_hash_end(bytes, p + 1)
    } else if bytes[p] == 0x7cu8 {
        after_pipe_end(bytes, p + 1)
    } else {
        path_end(bytes, p + 1)
    }
}

/// Where a target that is after `#` at `p` ends.
pub open spec fn after_hash_end(bytes: Seq<u8>, p: int) -> Option<int>
    decreases bytes.len() - p, 1int,
{
    if p < 0 || p >= bytes.len() || bytes[p] == 0x5du8 || bytes[p] == 0x7cu8 {
        None
    } else if bytes[p] == 0x5eu8 {
        after_caret_end(bytes, p + 1)
    } else {
        heading_end(bytes, p)
    }
}

/// Where a target that is in its heading at `p` ends.
pub open spec fn heading_end(bytes: Seq<u8>, p: int) -> Option<int>
    decreases bytes.len() - p, 0int,
{
    if p < 0 || p >= bytes.len() || bytes[p] == 0x0au8 {
        None
    } else if bytes[p] == 0x5du8 {
        Some(p)
    } else if bytes[p] == 0x7cu8 {
        after_pipe_end(bytes, p + 1)
    } else {
        heading_end(bytes, p + 1)
    }
}

/// Where a target that is after `#^` at `p` ends.
pub open spec fn after_caret_end(bytes: Seq<u8>, p: int) -> Option<int>
    decreases bytes.len() - p, 1int,
{
    if 0 <= p < bytes.len() && spec_is_block_id_byte(bytes[p]) {
        block_id_end(bytes, p)
    } else {
        None
    }
}

/// Where a target that is in its block id at `p` ends.
pub open spec fn block_id_end(bytes: Seq<u8>, p: int) -> Option<int>
    decreases bytes.len() - p, 0int,
{
    if p < 0 || p >= bytes.len() {
        None
    } else if bytes[p] == 0x5du8 {
        Some(p)
    } else if bytes[p] == 0x7cu8 {
        after_pipe_end(bytes, p + 1)
    } else if spec_is_block_id_byte(bytes[p]) {
        block_id_end(bytes, p + 1)
    } else {
        None
    }
}

/// Where a target that is after `|` at `p` ends.
pub open spec fn after_pipe_end(bytes: Seq<u8>, p: int) -> Option<int>
    decreases bytes.len() - p, 1int,
{
    if p < 0 || p >= bytes.len() || bytes[p] == 0x5du8 || bytes[p] == 0x0au8 {
        None
    } else {
        alias_end(bytes, p)
    }
}

/// Where a target that is in its alias at `p` ends.
pub open spec fn alias_end(bytes: Seq<u8>, p: int) -> Option<int>
    decreases bytes.len() - p, 0int,
{
    if p < 0 || p >= bytes.len() || bytes[p] == 0x0au8 {
        None
    } else if bytes[p] == 0x5du8 {
        Some(p)
    } else {
        alias_end(bytes, p + 1)
    }
}

/// Where a target in state `name` at `p` ends, for the states of targets.
pub open spec fn state_end(bytes: Seq<u8>, name: StateName, p: int) -> Option<int> {
    match name {
        StateName::ObsidianTargetStart => target_end(bytes, p),
        StateName::ObsidianTargetPath => path_end(bytes, p),
        StateName::ObsidianTargetAfterHash => after_hash_end(bytes, p),
        StateName::ObsidianTargetHeading => heading_end(bytes, p),
        StateName::ObsidianTargetAfterCaret => after_caret_end(bytes, p),
        StateName::ObsidianTargetBlockId => block_id_end(bytes, p),
        StateName::ObsidianTargetAfterPipe => after_pipe_end(bytes, p),
        StateName::ObsidianTargetAlias => alias_end(bytes, p),
        _ => if 0 <= p < bytes.len() && bytes[p] == 0x5du8 { Some(p) } else { None },
    }
}

/// Whether `name` is a state of targets.
pub open spec fn is_target_state(name: StateName) -> bool {
    match name {
        StateName::ObsidianTargetStart | StateName::ObsidianTargetPath | StateName::ObsidianTargetAfterHash
        | StateName::ObsidianTargetHeading | StateName::ObsidianTargetAfterCaret | StateName::ObsidianTargetBlockId
        | StateName::ObsidianTargetAfterPipe | StateName::ObsidianTargetAlias | StateName::ObsidianTargetClose => true,
        _ => false,
    }
}

/// From a target state at step `k` of a wikilink or embed, the run matches
/// exactly when the target ends at a `]` followed by another `]`, and then
/// stands after both.
pub proof fn lemma_target_run(trace: Seq<(StateName, Tokenizer, State, Tokenizer)>, k: int)
    requires
        0 <= k < trace.len(),
        is_target_state(trace[k].0),
        trace[k].1.wf(),
        trace[k].1.token_1 == Name::ObsidianWikilink || trace[k].1.token_1 == Name::ObsidianEmbed,
        steps_valid(trace),
        trace.last().2 == State::Done || trace.last().2 == State::Nok,
    ensures
        ({
            let t = trace[k].1;
            let bytes = t.bytes@;
            let end = state_end(bytes, trace[k].0, t.index as int);
            &&& (trace.last().2 == State::Done) == (end matches Some(c) && c + 1 < bytes.len() && bytes[c + 1] == 0x5du8)
            &&& trace.last().2 == State::Done ==> trace.last().3.index == end->0 + 2
        }),
    decreases trace.len() - k,
{
    lemma_run_step(trace, k);
    let t = trace[k].1;
    if k + 1 < trace.len() {
        lemma_run_step(trace, k + 1);
        if is_target_state(trace[k + 1].0) {
            lemma_target_run(trace, k + 1);
        } else {
            assert(trace[k].0 == StateName::ObsidianTargetClose);
            if k + 2 < trace.len() {
                lemma_run_step(trace, k + 2);
            } else {
                assert(trace[k + 1] == trace.last());
            }
        }
    } else {
        assert(trace[k] == trace.last());
    }
}

} // verus!
