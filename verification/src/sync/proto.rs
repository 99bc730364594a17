//! The messages peers exchange, in the order a pull session speaks them.

use vstd::prelude::*;

use crate::digest::EnvelopeDigest;
use crate::envelope::Envelope;

verus! {

/// Each side's first frame: protocol version and the current head.
#[derive(Debug, Clone, Copy, PartialEq, Eq)]
pub struct Hello {
    /// Must equal [`crate::sync::PROTOCOL_VERSION`] exactly.
    pub version: u32,
    /// The canonical head this node stands at.
    pub head: EnvelopeDigest,
}

/// The puller's canonical path sampled newest-first, asking the server
/// where the paths part.
#[derive(Debug, PartialEq, Eq)]
pub struct FindSplit {
    pub locator: Vec<EnvelopeDigest>,
}

/// The newest locator entry on the server's canonical path; the stream
/// that follows starts just after it.
#[derive(Debug, Clone, Copy, PartialEq, Eq)]
pub struct Split {
    pub at: EnvelopeDigest,
}

/// No locator entry is in the server's log: the chains share nothing.
#[derive(Debug, Clone, Copy, PartialEq, Eq, Structural, Default)]
pub struct NoSplit {}

/// One parent-first run of the server's canonical path.
#[derive(Debug, PartialEq, Eq)]
pub struct Envelopes {
    pub batch: Vec<Envelope>,
}

/// Ends the stream cleanly, which tells a finished stream from a connection
/// that died.
#[derive(Debug, Clone, Copy, PartialEq, Eq, Structural, Default)]
pub struct CaughtUp {}

/// A frame on the peer wire.
#[derive(Debug, PartialEq, Eq)]
pub enum Message {
    Hello(Hello),
    FindSplit(FindSplit),
    Split(Split),
    NoSplit(NoSplit),
    Envelopes(Envelopes),
    CaughtUp(CaughtUp),
}

/// A message's name without its payload.
#[derive(Debug, Clone, Copy, PartialEq, Eq, Structural)]
pub enum MessageKind {
    Hello,
    FindSplit,
    Split,
    NoSplit,
    Envelopes,
    CaughtUp,
}

/// Which message this is.
pub open spec fn kind_of(message: Message) -> MessageKind {
    match message {
        Message::Hello(_) => MessageKind::Hello,
        Message::FindSplit(_) => MessageKind::FindSplit,
        Message::Split(_) => MessageKind::Split,
        Message::NoSplit(_) => MessageKind::NoSplit,
        Message::Envelopes(_) => MessageKind::Envelopes,
        Message::CaughtUp(_) => MessageKind::CaughtUp,
    }
}

impl Message {
    /// Which message this is, for diagnostics.
    pub fn kind(&self) -> (kind: MessageKind)
        ensures
            kind == kind_of(*self),
    {
        match self {
            Message::Hello(_) => MessageKind::Hello,
            Message::FindSplit(_) => MessageKind::FindSplit,
            Message::Split(_) => MessageKind::Split,
            Message::NoSplit(_) => MessageKind::NoSplit,
            Message::Envelopes(_) => MessageKind::Envelopes,
            Message::CaughtUp(_) => MessageKind::CaughtUp,
        }
    }
}

/// A message's name as it is written.
pub open spec fn kind_text(kind: MessageKind) -> Seq<char> {
    match kind {
        MessageKind::Hello => "Hello"@,
        MessageKind::FindSplit => "FindSplit"@,
        MessageKind::Split => "Split"@,
        MessageKind::NoSplit => "NoSplit"@,
        MessageKind::Envelopes => "Envelopes"@,
        MessageKind::CaughtUp => "CaughtUp"@,
    }
}

impl MessageKind {
    /// The message's name.
    pub fn name(&self) -> (name: &'static str)
        ensures
            name@ == kind_text(*self),
    {
        match self {
            MessageKind::Hello => "Hello",
            MessageKind::FindSplit => "FindSplit",
            MessageKind::Split => "Split",
            MessageKind::NoSplit => "NoSplit",
            MessageKind::Envelopes => "Envelopes",
            MessageKind::CaughtUp => "CaughtUp",
        }
    }

    /// The message's name as text.
    pub fn text(&self) -> (text: String)
        ensures
            text@ == kind_text(*self),
    {
        self.name().to_owned()
    }
}

} // verus!
