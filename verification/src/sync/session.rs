//! What flows between a session machine and its driver.

use vstd::prelude::*;

use crate::digest::EnvelopeDigest;
use crate::envelope::{Envelope, WireError};
use crate::sync::proto::{kind_text, Message, MessageKind};
use crate::text::{append, append_decimal, decimal, text_of};

verus! {

/// What a driver feeds a session machine.
#[derive(Debug, PartialEq, Eq)]
pub enum Input {
    /// A frame decoded off the peer's stream.
    Message(Message),
    /// The answer to the query of an earlier [`Effect::Ask`].
    Answer(Answer),
    /// The run of an earlier [`Effect::Ingest`] has been inserted. An
    /// insert error never reaches the machine: the driver adjudicates it
    /// and ends the session itself.
    Ingested,
}

/// What a machine instructs its driver to do. `Ask` and `Ingest` must be
/// resolved, their result fed back as an [`Input`], before the driver feeds
/// the next frame; `Done` and `Violation` end the session.
#[derive(Debug, PartialEq, Eq)]
pub enum Effect<O> {
    /// Write this frame to the peer.
    Send(Message),
    /// Consult the core; feed the result back as [`Input::Answer`].
    Ask(Query),
    /// Insert this parent-first run through the chain; feed the outcome
    /// back as [`Input::Ingested`]. Only pullers emit it.
    Ingest(Vec<Envelope>),
    /// The session completed.
    Done(O),
    /// The peer broke the protocol: close the stream and score the peer.
    Violation(Breach),
}

/// A question a machine asks of the core it works for.
#[derive(Debug, PartialEq, Eq)]
pub enum Query {
    /// Whether the envelope log holds this digest; any branch counts.
    ContainsEnvelope(EnvelopeDigest),
    /// This node's canonical path sampled newest-first.
    Locator,
    /// The newest locator entry on this node's canonical path.
    SplitPoint(Vec<EnvelopeDigest>),
    /// The canonical path just after `after`, parent-first, within the
    /// budgets every segment answer must respect. Empty when `after` is the
    /// head, or has left the canonical path.
    Segment { after: EnvelopeDigest },
}

/// The answer to a [`Query`], in the same shape.
#[derive(Debug, PartialEq, Eq)]
pub enum Answer {
    Contains(bool),
    Locator(Vec<EnvelopeDigest>),
    SplitPoint(Option<EnvelopeDigest>),
    Segment(Vec<Envelope>),
}

/// How a pull session ended for the puller.
#[derive(Debug, Clone, Copy, PartialEq, Eq)]
pub enum PullOutcome {
    /// The peer's head is already in our log: nothing to fetch.
    AlreadyCurrent,
    /// Caught up to `head`, the peer's canonical tip as of the stream's
    /// end. `ingested` counts envelopes fed through the chain, overshoot
    /// duplicates included.
    Synced { head: EnvelopeDigest, ingested: u64 },
    /// The chains share nothing.
    NoCommonHistory,
}

/// How a pull session ended for the server.
#[derive(Debug, Clone, Copy, PartialEq, Eq)]
pub enum ServeOutcome {
    /// Nothing in the puller's locator is in our log.
    NoCommonHistory,
    /// Streamed `sent` envelopes up to `head` and said so.
    Served { head: EnvelopeDigest, sent: u64 },
}

/// How the peer broke the protocol.
#[allow(inconsistent_fields)]
#[derive(Debug, Clone, Copy, PartialEq, Eq)]
pub enum Breach {
    Version { ours: u32, theirs: u32 },
    Unexpected { got: MessageKind, expected: &'static str },
    SplitNotInLocator { at: EnvelopeDigest },
    EmptyBatch,
    OversizedBatch { got: usize },
    EmptyLocator,
    OversizedLocator { got: usize },
    BrokenRun { expected: EnvelopeDigest },
    Undigestable(WireError),
}

/// How a breach reads.
pub open spec fn breach_text(breach: Breach) -> Seq<char> {
    match breach {
        Breach::Version { ours, theirs } => "peer speaks protocol version "@ + decimal(
            theirs as nat,
        ) + ", this node speaks "@ + decimal(ours as nat),
        Breach::Unexpected { got, expected } => "unexpected "@ + kind_text(got)
            + " while awaiting "@ + expected@,
        Breach::SplitNotInLocator { .. } => "split point is not an entry of the locator we sent"@,
        Breach::EmptyBatch => "an empty envelope batch"@,
        Breach::OversizedBatch { got } => "a batch of "@ + decimal(got as nat)
            + " envelopes exceeds the cap"@,
        Breach::EmptyLocator => "an empty locator"@,
        Breach::OversizedLocator { got } => "a locator of "@ + decimal(got as nat)
            + " entries exceeds the cap"@,
        Breach::BrokenRun { .. } => "an envelope does not chain onto the one before it"@,
        Breach::Undigestable(_) => "an envelope that cannot be digested"@,
    }
}

impl Breach {
    /// The breach as a line of text.
    pub fn text(&self) -> (text: String)
        ensures
            text@ == breach_text(*self),
    {
        let mut chars: Vec<char> = Vec::new();
        match self {
            Breach::Version { ours, theirs } => {
                append(&mut chars, "peer speaks protocol version ");
                append_decimal(&mut chars, *theirs as u64);
                append(&mut chars, ", this node speaks ");
                append_decimal(&mut chars, *ours as u64);
            },
            Breach::Unexpected { got, expected } => {
                append(&mut chars, "unexpected ");
                append(&mut chars, got.name());
                append(&mut chars, " while awaiting ");
                append(&mut chars, expected);
            },
            Breach::SplitNotInLocator { .. } => {
                append(&mut chars, "split point is not an entry of the locator we sent");
            },
            Breach::EmptyBatch => {
                append(&mut chars, "an empty envelope batch");
            },
            Breach::OversizedBatch { got } => {
                append(&mut chars, "a batch of ");
                append_decimal(&mut chars, *got as u64);
                append(&mut chars, " envelopes exceeds the cap");
            },
            Breach::EmptyLocator => {
                append(&mut chars, "an empty locator");
            },
            Breach::OversizedLocator { got } => {
                append(&mut chars, "a locator of ");
                append_decimal(&mut chars, *got as u64);
                append(&mut chars, " entries exceeds the cap");
            },
            Breach::BrokenRun { .. } => {
                append(&mut chars, "an envelope does not chain onto the one before it");
            },
            Breach::Undigestable(_) => {
                append(&mut chars, "an envelope that cannot be digested");
            },
        }
        assert(chars@ =~= breach_text(*self));
        text_of(&chars)
    }
}

/// Where a run of envelopes chaining onto `from` ends; how it is broken,
/// if it is.
pub open spec fn run_end(from: EnvelopeDigest, run: Seq<Envelope>) -> Result<EnvelopeDigest, Breach>
    decreases run.len(),
{
    if run.len() == 0 {
        Ok(from)
    } else {
        match run_end(from, run.drop_last()) {
            Err(breach) => Err(breach),
            Ok(expected) => if run.last()@.payload.prev() != Some(expected) {
                Err(Breach::BrokenRun { expected })
            } else {
                match run.last()@.digest {
                    Some(digest) => Ok(digest),
                    None => Err(Breach::Undigestable(WireError)),
                }
            },
        }
    }
}

/// A run broken early is broken.
pub proof fn broken_stays_broken(from: EnvelopeDigest, run: Seq<Envelope>, n: int)
    requires
        0 <= n <= run.len(),
        run_end(from, run.take(n)) is Err,
    ensures
        run_end(from, run) == run_end(from, run.take(n)),
    decreases run.len() - n,
{
    if n < run.len() {
        assert(run.take(n + 1).drop_last() =~= run.take(n));
        broken_stays_broken(from, run, n + 1);
    } else {
        assert(run.take(n) =~= run);
    }
}

/// Walks a run of envelopes that should chain onto `from`, to its tip.
pub fn follow_run(from: EnvelopeDigest, run: &Vec<Envelope>) -> (tip: Result<EnvelopeDigest, Breach>)
    ensures
        tip == run_end(from, run@),
{
    let mut expected = from;
    let mut i: usize = 0;
    assert(run@.take(0).len() == 0);
    while i < run.len()
        invariant
            i <= run@.len(),
            run_end(from, run@.take(i as int)) == Ok::<EnvelopeDigest, Breach>(expected),
        decreases run@.len() - i,
    {
        proof {
            assert(run@.take(i + 1).drop_last() =~= run@.take(i as int));
            assert(run@.take(i + 1).last() == run@[i as int]);
        }
        let chains = match run[i].payload.prev_digest() {
            Some(prev) => prev == expected,
            None => false,
        };
        if !chains {
            proof {
                broken_stays_broken(from, run@, i + 1);
            }
            return Err(Breach::BrokenRun { expected });
        }
        match run[i].digest() {
            Ok(digest) => {
                expected = digest;
            },
            Err(error) => {
                proof {
                    broken_stays_broken(from, run@, i + 1);
                }
                return Err(Breach::Undigestable(error));
            },
        }
        i += 1;
    }
    assert(run@.take(i as int) =~= run@);
    Ok(expected)
}

} // verus!
