//! A byte tokenizer that records enter and exit events, and the states its
//! constructs move through.

use vstd::prelude::*;
use crate::configuration::Constructs;
use crate::util::text::{is_block_id_byte, spec_is_block_id_byte};

verus! {

/// Whether an event opens or closes a token.
#[derive(Clone, Copy, Debug, PartialEq, Eq, Structural)]
pub enum Kind {
    /// Start of a token.
    Enter,
    /// End of a token.
    Exit,
}

/// Names of the tokens that the Obsidian constructs produce.
#[derive(Clone, Copy, Debug, PartialEq, Eq, Structural)]
pub enum Name {
    /// Plain data.
    Data,
    /// A line ending.
    LineEnding,
    /// Whole block id (`^id`).
    ObsidianBlockId,
    /// The `^` of a block id.
    ObsidianBlockIdMarker,
    /// The id of a block id.
    ObsidianBlockIdValue,
    /// Whole comment (`%%a%%`).
    ObsidianComment,
    /// A `%%` of a comment.
    ObsidianCommentMarker,
    /// Content of a comment.
    ObsidianCommentValue,
    /// Whole embed (`![[a]]`).
    ObsidianEmbed,
    /// `![[` or `]]` of an embed.
    ObsidianEmbedMarker,
    /// Whole highlight (`==a==`).
    ObsidianHighlight,
    /// A `==` of a highlight.
    ObsidianHighlightSequence,
    /// Path of a target.
    ObsidianTargetPath,
    /// `#` of a target.
    ObsidianTargetHash,
    /// Heading of a target.
    ObsidianTargetHeading,
    /// `^` of a target block id.
    ObsidianTargetBlockIdMarker,
    /// Block id of a target.
    ObsidianTargetBlockId,
    /// `|` of a target alias.
    ObsidianTargetAliasMarker,
    /// Alias of a target.
    ObsidianTargetAlias,
    /// Whole wikilink (`[[a]]`).
    ObsidianWikilink,
    /// `[[` or `]]` of a wikilink.
    ObsidianWikilinkMarker,
}

/// Something that happens at a place: a token starts or ends.
#[derive(Clone, Copy, Debug, PartialEq, Eq, Structural)]
pub struct Event {
    /// Enter or exit.
    pub kind: Kind,
    /// Token name.
    pub name: Name,
    /// Byte offset.
    pub index: usize,
}

/// Names of the states of the Obsidian constructs.
#[derive(Clone, Copy, Debug, PartialEq, Eq, Structural)]
pub enum StateName {
    /// Block id: at `^`.
    ObsidianBlockIdStart,
    /// Block id: at the first id byte.
    ObsidianBlockIdValue,
    /// Block id: inside the id.
    ObsidianBlockIdValueInside,
    /// Comment: at the first `%`.
    ObsidianCommentStart,
    /// Comment: at the second `%`.
    ObsidianCommentOpen,
    /// Comment: inside.
    ObsidianCommentInside,
    /// Comment: after a `%` inside.
    ObsidianCommentAfter,
    /// Embed: at `!`.
    ObsidianEmbedStart,
    /// Embed: at the first `[`.
    ObsidianEmbedOpen,
    /// Embed: at the second `[`.
    ObsidianEmbedOpen2,
    /// Embed: at the second `]`.
    ObsidianEmbedClose,
    /// Highlight: at the first `=`.
    ObsidianHighlightStart,
    /// Highlight: at the second `=`.
    ObsidianHighlightSequence,
    /// Highlight: after the opening `==`.
    ObsidianHighlightAfter,
    /// Highlight: inside.
    ObsidianHighlightInside,
    /// Highlight: after a `=` inside.
    ObsidianHighlightClose,
    /// Target: first byte after `[[`.
    ObsidianTargetStart,
    /// Target: in the path.
    ObsidianTargetPath,
    /// Target: after `#`.
    ObsidianTargetAfterHash,
    /// Target: in the heading.
    ObsidianTargetHeading,
    /// Target: after `^`.
    ObsidianTargetAfterCaret,
    /// Target: in the block id.
    ObsidianTargetBlockId,
    /// Target: after `|`.
    ObsidianTargetAfterPipe,
    /// Target: in the alias.
    ObsidianTargetAlias,
    /// Target: at the first `]`.
    ObsidianTargetClose,
    /// Wikilink: at the first `[`.
    ObsidianWikilinkStart,
    /// Wikilink: at the second `[`.
    ObsidianWikilinkOpen,
    /// Wikilink: at the second `]`.
    ObsidianWikilinkClose,
}

/// What a state function decides.
#[derive(Clone, Copy, Debug, PartialEq, Eq, Structural)]
pub enum State {
    /// The current byte was consumed; continue in the named state.
    Next(StateName),
    /// Continue in the named state at the same byte.
    Retry(StateName),
    /// The construct ended successfully.
    Done,
    /// The construct does not match.
    Nok,
}

/// Tokenizer over the bytes of a document.
pub struct Tokenizer {
    /// The bytes.
    pub bytes: Vec<u8>,
    /// Offset of the current byte.
    pub index: usize,
    /// The byte before the current one, if any.
    pub previous: Option<u8>,
    /// The current byte, or `None` at the end.
    pub current: Option<u8>,
    /// Events so far.
    pub events: Vec<Event>,
    /// Which constructs are on.
    pub constructs: Constructs,
    /// Which construct (wikilink or embed) the shared target parser ends.
    pub token_1: Name,
}

/// The byte at `index`, or `None` past the end.
pub open spec fn byte_at(bytes: Seq<u8>, index: int) -> Option<u8> {
    if 0 <= index < bytes.len() {
        Some(bytes[index])
    } else {
        None
    }
}

/// An event.
pub open spec fn event(kind: Kind, name: Name, index: int) -> Event {
    Event { kind, name, index: index as usize }
}

impl Tokenizer {
    /// `current` and `previous` are the bytes around `index`.
    pub open spec fn wf(&self) -> bool {
        &&& self.index <= self.bytes@.len()
        &&& self.current == byte_at(self.bytes@, self.index as int)
        &&& self.previous == byte_at(self.bytes@, self.index - 1)
    }

    /// `next` reads the same input and ends the same construct as `self`,
    /// is well formed, and is at `index`.
    pub open spec fn same_input(&self, next: &Tokenizer, index: int) -> bool {
        &&& next.bytes@ == self.bytes@
        &&& next.constructs == self.constructs
        &&& next.token_1 == self.token_1
        &&& next.index == index
        &&& next.wf()
    }

    /// `next` is `self` after moving `by` bytes and recording `pushed`.
    pub open spec fn stepped(&self, next: &Tokenizer, by: int, pushed: Seq<Event>) -> bool {
        &&& self.same_input(next, self.index + by)
        &&& next.events@ == self.events@ + pushed
    }

    /// Like `stepped`, with `token_1` set to `token`.
    pub open spec fn stepped_marking(&self, next: &Tokenizer, by: int, pushed: Seq<Event>, token: Name) -> bool {
        &&& next.bytes@ == self.bytes@
        &&& next.constructs == self.constructs
        &&& next.token_1 == token
        &&& next.index == self.index + by
        &&& next.wf()
        &&& next.events@ == self.events@ + pushed
    }

    /// The current byte may occur in an Obsidian block id.
    pub open spec fn at_id_byte(&self) -> bool {
        self.current matches Some(c) && spec_is_block_id_byte(c)
    }

    /// Whether the current byte may occur in an Obsidian block id.
    pub fn current_is_id_byte(&self) -> (r: bool)
        ensures
            r == self.at_id_byte(),
    {
        match self.current {
            Some(c) => is_block_id_byte(c),
            None => false,
        }
    }

    /// A tokenizer at `index` in `bytes`, with no events yet.
    pub fn new(bytes: Vec<u8>, index: usize, constructs: Constructs) -> (t: Tokenizer)
        requires
            index <= bytes@.len(),
        ensures
            t.wf(),
            t.bytes@ == bytes@,
            t.index == index,
            t.events@.len() == 0,
            t.constructs == constructs,
            t.token_1 == Name::Data,
    {
        let current = if index < bytes.len() { Some(bytes[index]) } else { None };
        let previous = if index > 0 { Some(bytes[index - 1]) } else { None };
        Tokenizer { bytes, index, previous, current, events: Vec::new(), constructs, token_1: Name::Data }
    }

    /// Move past the current byte.
    pub fn consume(&mut self)
        requires
            old(self).wf(),
            old(self).current is Some,
        ensures
            old(self).stepped(final(self), 1, Seq::empty()),
    {
        assert(self.index < self.bytes.len());
        self.previous = self.current;
        self.index = self.index + 1;
        self.current = if self.index < self.bytes.len() { Some(self.bytes[self.index]) } else { None };
        proof {
            assert(self.events@ =~= old(self).events@ + Seq::<Event>::empty());
        }
    }

    /// Start a token at the current place.
    pub fn enter(&mut self, name: Name)
        requires
            old(self).wf(),
        ensures
            old(self).stepped(final(self), 0, seq![event(Kind::Enter, name, old(self).index as int)]),
    {
        self.events.push(Event { kind: Kind::Enter, name, index: self.index });
        proof {
            assert(self.events@ =~= old(self).events@ + seq![event(Kind::Enter, name, old(self).index as int)]);
        }
    }

    /// End a token at the current place.
    pub fn exit(&mut self, name: Name)
        requires
            old(self).wf(),
        ensures
            old(self).stepped(final(self), 0, seq![event(Kind::Exit, name, old(self).index as int)]),
    {
        self.events.push(Event { kind: Kind::Exit, name, index: self.index });
        proof {
            assert(self.events@ =~= old(self).events@ + seq![event(Kind::Exit, name, old(self).index as int)]);
        }
    }
}

} // verus!
