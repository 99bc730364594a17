//! The pulling side of a sync session.

use vstd::pervasive::unreached;
use vstd::prelude::*;

use crate::digest::EnvelopeDigest;
use crate::sync::locator::{offers, MAX_LOCATOR_LEN};
use crate::sync::proto::{kind_of, CaughtUp, Envelopes, FindSplit, Hello, Message, Split};
use crate::sync::session::{
    follow_run, run_end, Answer, Breach, Effect, Input, PullOutcome, Query,
};
use crate::sync::{MAX_BATCH_ENVELOPES, PROTOCOL_VERSION};

verus! {

/// The machine that catches this node up from one peer.
///
/// Opens with its `Hello`, learns where the paths part, and feeds the
/// peer's canonical path into the chain batch by batch. Everything the
/// peer sends is validated here, phase, batch shape and run linkage,
/// before an envelope is handed to [`Effect::Ingest`]; the chain then
/// judges content on its own terms.
#[derive(Debug)]
pub struct Puller {
    pub state: PullState,
}

/// What the machine waits for.
#[derive(Debug)]
pub enum PullState {
    AwaitHello,
    AwaitContains,
    AwaitLocator,
    AwaitSplit { locator: Vec<EnvelopeDigest> },
    AwaitBatch { cursor: EnvelopeDigest, ingested: u64 },
    AwaitIngest { cursor: EnvelopeDigest, ingested: u64, pending: u64 },
    Terminal,
}

/// What the machine waits for.
pub enum PullPhase {
    Hello,
    Contains,
    Locator,
    Split { locator: Seq<EnvelopeDigest> },
    Batch { cursor: EnvelopeDigest, ingested: u64 },
    Ingest { cursor: EnvelopeDigest, ingested: u64, pending: u64 },
    Terminal,
}

impl View for Puller {
    type V = PullPhase;

    open spec fn view(&self) -> PullPhase {
        match self.state {
            PullState::AwaitHello => PullPhase::Hello,
            PullState::AwaitContains => PullPhase::Contains,
            PullState::AwaitLocator => PullPhase::Locator,
            PullState::AwaitSplit { locator } => PullPhase::Split { locator: locator@ },
            PullState::AwaitBatch { cursor, ingested } => PullPhase::Batch { cursor, ingested },
            PullState::AwaitIngest { cursor, ingested, pending } => PullPhase::Ingest {
                cursor,
                ingested,
                pending,
            },
            PullState::Terminal => PullPhase::Terminal,
        }
    }
}

impl PullPhase {
    /// Whether the machine waits for a frame.
    pub open spec fn awaits_frame(self) -> bool {
        self is Hello || self is Split || self is Batch
    }

    /// What the protocol admits next.
    pub open spec fn expecting(self) -> &'static str {
        match self {
            PullPhase::Hello => "Hello",
            PullPhase::Split { .. } => "Split or NoSplit",
            PullPhase::Batch { .. } => "Envelopes or CaughtUp",
            PullPhase::Terminal => "nothing",
            _ => "no frame while an effect is unresolved",
        }
    }

    /// Whether a driver may feed `input` now: a frame where one is awaited,
    /// the answer that was asked for, the ingest that was requested. The
    /// node's own locator has an entry and stays within the cap.
    pub open spec fn admits(self, input: Input) -> bool {
        match input {
            Input::Message(_) => self.awaits_frame(),
            Input::Answer(Answer::Contains(_)) => self is Contains,
            Input::Answer(Answer::Locator(locator)) => self is Locator && 0 < locator@.len()
                <= MAX_LOCATOR_LEN,
            Input::Answer(_) => false,
            Input::Ingested => self matches PullPhase::Ingest { ingested, pending, .. } && ingested
                + pending <= u64::MAX,
        }
    }

    /// How a frame breaks the protocol in this phase, if it does.
    pub open spec fn breach(self, message: Message) -> Option<Breach> {
        match (self, message) {
            (PullPhase::Hello, Message::Hello(peer)) => if peer.version != PROTOCOL_VERSION {
                Some(Breach::Version { ours: PROTOCOL_VERSION, theirs: peer.version })
            } else {
                None
            },
            (PullPhase::Split { locator }, Message::Split(split)) => if locator.contains(split.at) {
                None
            } else {
                Some(Breach::SplitNotInLocator { at: split.at })
            },
            (PullPhase::Split { .. }, Message::NoSplit(_)) => None,
            (PullPhase::Batch { cursor, .. }, Message::Envelopes(envelopes)) => {
                let run = envelopes.batch@;
                if run.len() == 0 {
                    Some(Breach::EmptyBatch)
                } else if run.len() > MAX_BATCH_ENVELOPES {
                    Some(Breach::OversizedBatch { got: run.len() as usize })
                } else {
                    match run_end(cursor, run) {
                        Ok(_) => None,
                        Err(breach) => Some(breach),
                    }
                }
            },
            (PullPhase::Batch { .. }, Message::CaughtUp(_)) => None,
            _ => Some(Breach::Unexpected { got: kind_of(message), expected: self.expecting() }),
        }
    }

    /// What the machine waits for after an input it admits, and what it
    /// has its driver do.
    pub open spec fn after(self, input: Input) -> (PullPhase, Seq<Effect<PullOutcome>>) {
        match (self, input) {
            (_, Input::Message(message)) if self.breach(message) is Some => (
                PullPhase::Terminal,
                seq![Effect::Violation(self.breach(message)->0)],
            ),
            (PullPhase::Hello, Input::Message(Message::Hello(peer))) => (
                PullPhase::Contains,
                seq![Effect::Ask(Query::ContainsEnvelope(peer.head))],
            ),
            (PullPhase::Contains, Input::Answer(Answer::Contains(true))) => (
                PullPhase::Terminal,
                seq![Effect::Done(PullOutcome::AlreadyCurrent)],
            ),
            (PullPhase::Contains, Input::Answer(Answer::Contains(false))) => (
                PullPhase::Locator,
                seq![Effect::Ask(Query::Locator)],
            ),
            (PullPhase::Locator, Input::Answer(Answer::Locator(locator))) => (
                PullPhase::Split { locator: locator@ },
                seq![Effect::Send(Message::FindSplit(FindSplit { locator }))],
            ),
            (PullPhase::Split { .. }, Input::Message(Message::Split(split))) => (
                PullPhase::Batch { cursor: split.at, ingested: 0 },
                Seq::empty(),
            ),
            (PullPhase::Split { .. }, Input::Message(Message::NoSplit(_))) => (
                PullPhase::Terminal,
                seq![Effect::Done(PullOutcome::NoCommonHistory)],
            ),
            (
                PullPhase::Batch { cursor, ingested },
                Input::Message(Message::Envelopes(envelopes)),
            ) => (
                PullPhase::Ingest {
                    cursor: run_end(cursor, envelopes.batch@)->Ok_0,
                    ingested,
                    pending: envelopes.batch@.len() as u64,
                },
                seq![Effect::Ingest(envelopes.batch)],
            ),
            (PullPhase::Batch { cursor, ingested }, Input::Message(Message::CaughtUp(_))) => (
                PullPhase::Terminal,
                seq![Effect::Done(PullOutcome::Synced { head: cursor, ingested })],
            ),
            (PullPhase::Ingest { cursor, ingested, pending }, Input::Ingested) => (
                PullPhase::Batch { cursor, ingested: (ingested + pending) as u64 },
                Seq::empty(),
            ),
            _ => (PullPhase::Terminal, Seq::empty()),
        }
    }
}

/// The same digests again.
fn copy_digests(digests: &Vec<EnvelopeDigest>) -> (copy: Vec<EnvelopeDigest>)
    ensures
        copy@ == digests@,
{
    let mut copy: Vec<EnvelopeDigest> = Vec::new();
    let mut i: usize = 0;
    while i < digests.len()
        invariant
            i <= digests@.len(),
            copy@ == digests@.take(i as int),
        decreases digests@.len() - i,
    {
        copy.push(digests[i]);
        i += 1;
        assert(copy@ =~= digests@.take(i as int));
    }
    assert(copy@ =~= digests@);
    copy
}

/// One effect.
fn only<O>(effect: Effect<O>) -> (effects: Vec<Effect<O>>)
    ensures
        effects@ == seq![effect],
{
    let mut effects: Vec<Effect<O>> = Vec::new();
    effects.push(effect);
    effects
}

impl Puller {
    /// A puller for a node at `head`, and the first frame to be sent.
    pub fn new(head: EnvelopeDigest) -> (opened: (Self, Effect<PullOutcome>))
        ensures
            opened.0@ == PullPhase::Hello,
            opened.1 == Effect::<PullOutcome>::Send(
                Message::Hello(Hello { version: PROTOCOL_VERSION, head }),
            ),
    {
        let hello = Effect::Send(Message::Hello(Hello { version: PROTOCOL_VERSION, head }));
        (Puller { state: PullState::AwaitHello }, hello)
    }

    /// Feeds the machine one input; the returned effects must be resolved
    /// in order before the next frame is fed.
    pub fn handle(&mut self, input: Input) -> (effects: Vec<Effect<PullOutcome>>)
        requires
            old(self)@.admits(input),
        ensures
            (final(self)@, effects@) == old(self)@.after(input),
    {
        self.step(input)
    }

    /// What the protocol admits next, for diagnostics.
    fn expecting(&self) -> (expected: &'static str)
        ensures
            expected == self@.expecting(),
    {
        match &self.state {
            PullState::AwaitHello => "Hello",
            PullState::AwaitSplit { .. } => "Split or NoSplit",
            PullState::AwaitBatch { .. } => "Envelopes or CaughtUp",
            PullState::AwaitContains | PullState::AwaitLocator | PullState::AwaitIngest { .. } => {
                "no frame while an effect is unresolved"
            },
            PullState::Terminal => "nothing",
        }
    }

    fn step(&mut self, input: Input) -> (effects: Vec<Effect<PullOutcome>>)
        requires
            old(self)@.admits(input),
        ensures
            (final(self)@, effects@) == old(self)@.after(input),
    {
        match (&self.state, input) {
            (PullState::AwaitHello, Input::Message(Message::Hello(peer))) => {
                if peer.version != PROTOCOL_VERSION {
                    return self.breach(
                        Breach::Version { ours: PROTOCOL_VERSION, theirs: peer.version },
                    );
                }
                self.state = PullState::AwaitContains;
                only(Effect::Ask(Query::ContainsEnvelope(peer.head)))
            },
            (PullState::AwaitContains, Input::Answer(Answer::Contains(held))) => {
                if held {
                    self.state = PullState::Terminal;
                    only(Effect::Done(PullOutcome::AlreadyCurrent))
                } else {
                    self.state = PullState::AwaitLocator;
                    only(Effect::Ask(Query::Locator))
                }
            },
            (PullState::AwaitLocator, Input::Answer(Answer::Locator(locator))) => {
                self.state = PullState::AwaitSplit { locator: copy_digests(&locator) };
                only(Effect::Send(Message::FindSplit(FindSplit { locator })))
            },
            (PullState::AwaitSplit { locator }, Input::Message(Message::Split(split))) => {
                // The server may only point at what was offered: anything
                // else could name an envelope that cannot be built on.
                if !offers(locator, split.at) {
                    return self.breach(Breach::SplitNotInLocator { at: split.at });
                }
                self.state = PullState::AwaitBatch { cursor: split.at, ingested: 0 };
                Vec::new()
            },
            (PullState::AwaitSplit { .. }, Input::Message(Message::NoSplit(_))) => {
                self.state = PullState::Terminal;
                only(Effect::Done(PullOutcome::NoCommonHistory))
            },
            (
                PullState::AwaitBatch { cursor, ingested },
                Input::Message(Message::Envelopes(envelopes)),
            ) => {
                let batch = envelopes.batch;
                let cursor = *cursor;
                let ingested: u64 = *ingested;
                if batch.len() == 0 {
                    return self.breach(Breach::EmptyBatch);
                }
                if batch.len() > MAX_BATCH_ENVELOPES as usize {
                    return self.breach(Breach::OversizedBatch { got: batch.len() });
                }
                // Linkage is judged here so a violation is attributed to
                // the peer before anything touches the chain.
                match follow_run(cursor, &batch) {
                    Ok(tip) => {
                        let pending: u64 = batch.len() as u64;
                        self.state = PullState::AwaitIngest { cursor: tip, ingested, pending };
                        only(Effect::Ingest(batch))
                    },
                    Err(breach) => self.breach(breach),
                }
            },
            (
                PullState::AwaitBatch { cursor, ingested },
                Input::Message(Message::CaughtUp(_)),
            ) => {
                let outcome = PullOutcome::Synced { head: *cursor, ingested: *ingested };
                self.state = PullState::Terminal;
                only(Effect::Done(outcome))
            },
            (PullState::AwaitIngest { cursor, ingested, pending }, Input::Ingested) => {
                self.state = PullState::AwaitBatch {
                    cursor: *cursor,
                    ingested: *ingested + *pending,
                };
                Vec::new()
            },
            // A frame the phase does not admit is the peer's breach.
            (_, Input::Message(message)) => {
                let expected = self.expecting();
                self.breach(Breach::Unexpected { got: message.kind(), expected })
            },
            (_, Input::Answer(_)) | (_, Input::Ingested) => unreached(),
        }
    }

    fn breach(&mut self, breach: Breach) -> (effects: Vec<Effect<PullOutcome>>)
        ensures
            final(self)@ == PullPhase::Terminal,
            effects@ == seq![Effect::<PullOutcome>::Violation(breach)],
    {
        self.state = PullState::Terminal;
        only(Effect::Violation(breach))
    }
}

} // verus!
