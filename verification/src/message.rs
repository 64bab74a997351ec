//! Messages: errors and warnings of the parser.

use vstd::prelude::*;
use crate::unist::Position;

verus! {

/// A message about something that went wrong.
#[derive(Clone, Debug, PartialEq, Eq)]
pub struct Message {
    /// Place of the message, if known.
    pub place: Option<Position>,
    /// Reason for the message.
    pub reason: String,
    /// Rule that raised the message.
    pub rule_id: String,
    /// Source that raised the message.
    pub source: String,
}

} // verus!
