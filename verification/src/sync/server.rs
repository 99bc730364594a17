//! The serving side of a sync session.

use vstd::pervasive::unreached;
use vstd::prelude::*;

use crate::digest::EnvelopeDigest;
use crate::sync::locator::MAX_LOCATOR_LEN;
use crate::sync::proto::{kind_of, CaughtUp, Envelopes, FindSplit, Hello, Message, NoSplit, Split};
use crate::sync::session::{run_end, Answer, Breach, Effect, Input, Query, ServeOutcome};
use crate::sync::{MAX_BATCH_ENVELOPES, PROTOCOL_VERSION};

verus! {

/// The machine that serves one peer's pull.
///
/// Answers the peer's `Hello`, finds the split its locator asks about, and
/// streams the canonical path from there in bounded segments. Each segment
/// is read fresh from the core, so a head that advances while the stream
/// runs is served too, and a cursor that a reorg detaches from the
/// canonical path ends the stream early, which the puller accepts.
#[derive(Debug)]
pub struct Server {
    /// The head at session start, for this side's `Hello` alone.
    pub head: EnvelopeDigest,
    pub state: ServeState,
}

/// What the machine waits for.
#[derive(Debug, Clone, Copy, PartialEq, Eq)]
pub enum ServeState {
    AwaitHello,
    AwaitFindSplit,
    AwaitSplitPoint,
    AwaitSegment { cursor: EnvelopeDigest, sent: u64 },
    Terminal,
}

impl ServeState {
    /// What the protocol admits next.
    pub open spec fn expected(self) -> &'static str {
        match self {
            ServeState::AwaitHello => "Hello",
            ServeState::AwaitFindSplit => "FindSplit",
            ServeState::Terminal => "nothing",
            _ => "no frame while an effect is unresolved",
        }
    }

    /// Whether a driver may feed `input` now: a frame where one is awaited,
    /// the answer that was asked for. The node's own segments stay within
    /// the cap and chain onto the cursor.
    pub open spec fn admits(self, input: Input) -> bool {
        match input {
            Input::Message(_) => self is AwaitHello || self is AwaitFindSplit,
            Input::Answer(Answer::SplitPoint(_)) => self is AwaitSplitPoint,
            Input::Answer(Answer::Segment(batch)) => {
                &&& self matches ServeState::AwaitSegment { cursor, sent }
                &&& batch@.len() <= MAX_BATCH_ENVELOPES
                &&& run_end(cursor, batch@) is Ok
                &&& sent + batch@.len() <= u64::MAX
            },
            _ => false,
        }
    }

    /// How a frame breaks the protocol in this phase, if it does.
    pub open spec fn breach(self, message: Message) -> Option<Breach> {
        match (self, message) {
            (ServeState::AwaitHello, Message::Hello(peer)) => if peer.version
                != PROTOCOL_VERSION {
                Some(Breach::Version { ours: PROTOCOL_VERSION, theirs: peer.version })
            } else {
                None
            },
            (ServeState::AwaitFindSplit, Message::FindSplit(find)) => {
                let entries = find.locator@.len();
                if entries == 0 {
                    Some(Breach::EmptyLocator)
                } else if entries > MAX_LOCATOR_LEN {
                    Some(Breach::OversizedLocator { got: entries as usize })
                } else {
                    None
                }
            },
            _ => Some(Breach::Unexpected { got: kind_of(message), expected: self.expected() }),
        }
    }

    /// What the machine waits for after an input it admits, and what it has
    /// its driver do; `head` is what its own `Hello` says.
    pub open spec fn after(self, head: EnvelopeDigest, input: Input) -> (
        ServeState,
        Seq<Effect<ServeOutcome>>,
    ) {
        match (self, input) {
            (_, Input::Message(message)) if self.breach(message) is Some => (
                ServeState::Terminal,
                seq![Effect::Violation(self.breach(message)->0)],
            ),
            (ServeState::AwaitHello, Input::Message(Message::Hello(_))) => (
                ServeState::AwaitFindSplit,
                seq![Effect::Send(Message::Hello(Hello { version: PROTOCOL_VERSION, head }))],
            ),
            (ServeState::AwaitFindSplit, Input::Message(Message::FindSplit(find))) => (
                ServeState::AwaitSplitPoint,
                seq![Effect::Ask(Query::SplitPoint(find.locator))],
            ),
            (ServeState::AwaitSplitPoint, Input::Answer(Answer::SplitPoint(None))) => (
                ServeState::Terminal,
                seq![
                    Effect::Send(Message::NoSplit(NoSplit {  })),
                    Effect::Done(ServeOutcome::NoCommonHistory),
                ],
            ),
            (ServeState::AwaitSplitPoint, Input::Answer(Answer::SplitPoint(Some(at)))) => (
                ServeState::AwaitSegment { cursor: at, sent: 0 },
                seq![
                    Effect::Send(Message::Split(Split { at })),
                    Effect::Ask(Query::Segment { after: at }),
                ],
            ),
            (
                ServeState::AwaitSegment { cursor, sent },
                Input::Answer(Answer::Segment(batch)),
            ) => if batch@.len() == 0 {
                (
                    ServeState::Terminal,
                    seq![
                        Effect::Send(Message::CaughtUp(CaughtUp {  })),
                        Effect::Done(ServeOutcome::Served { head: cursor, sent }),
                    ],
                )
            } else {
                let tip = run_end(cursor, batch@)->Ok_0;
                (
                    ServeState::AwaitSegment { cursor: tip, sent: (sent + batch@.len()) as u64 },
                    seq![
                        Effect::Send(Message::Envelopes(Envelopes { batch })),
                        Effect::Ask(Query::Segment { after: tip }),
                    ],
                )
            },
            _ => (ServeState::Terminal, Seq::empty()),
        }
    }
}

/// Two effects, in order.
fn pair<O>(first: Effect<O>, second: Effect<O>) -> (effects: Vec<Effect<O>>)
    ensures
        effects@ == seq![first, second],
{
    let mut effects: Vec<Effect<O>> = Vec::new();
    effects.push(first);
    effects.push(second);
    assert(effects@ =~= seq![first, second]);
    effects
}

impl Server {
    /// A session about to serve a peer's pull, standing at `head`; says
    /// nothing until the peer's `Hello` arrives.
    pub fn new(head: EnvelopeDigest) -> (server: Self)
        ensures
            server.head == head,
            server.state == ServeState::AwaitHello,
    {
        Server { head, state: ServeState::AwaitHello }
    }

    /// What the protocol admits next, for diagnostics.
    fn expecting(&self) -> (expected: &'static str)
        ensures
            expected == self.state.expected(),
    {
        match self.state {
            ServeState::AwaitHello => "Hello",
            ServeState::AwaitFindSplit => "FindSplit",
            ServeState::AwaitSplitPoint | ServeState::AwaitSegment { .. } => {
                "no frame while an effect is unresolved"
            },
            ServeState::Terminal => "nothing",
        }
    }

    /// Feeds the machine one input; the returned effects must be resolved
    /// in order before the next frame is fed.
    pub fn handle(&mut self, input: Input) -> (effects: Vec<Effect<ServeOutcome>>)
        requires
            old(self).state.admits(input),
        ensures
            final(self).head == old(self).head,
            (final(self).state, effects@) == old(self).state.after(old(self).head, input),
    {
        match (self.state, input) {
            (ServeState::AwaitHello, Input::Message(Message::Hello(peer))) => {
                if peer.version != PROTOCOL_VERSION {
                    return self.breach(
                        Breach::Version { ours: PROTOCOL_VERSION, theirs: peer.version },
                    );
                }
                self.state = ServeState::AwaitFindSplit;
                let hello = Hello { version: PROTOCOL_VERSION, head: self.head };
                let mut effects: Vec<Effect<ServeOutcome>> = Vec::new();
                effects.push(Effect::Send(Message::Hello(hello)));
                effects
            },
            (ServeState::AwaitFindSplit, Input::Message(Message::FindSplit(find))) => {
                let locator = find.locator;
                if locator.len() == 0 {
                    return self.breach(Breach::EmptyLocator);
                }
                if locator.len() > MAX_LOCATOR_LEN {
                    return self.breach(Breach::OversizedLocator { got: locator.len() });
                }
                self.state = ServeState::AwaitSplitPoint;
                let mut effects: Vec<Effect<ServeOutcome>> = Vec::new();
                effects.push(Effect::Ask(Query::SplitPoint(locator)));
                effects
            },
            (ServeState::AwaitSplitPoint, Input::Answer(Answer::SplitPoint(found))) => {
                match found {
                    None => {
                        self.state = ServeState::Terminal;
                        pair(
                            Effect::Send(Message::NoSplit(NoSplit {  })),
                            Effect::Done(ServeOutcome::NoCommonHistory),
                        )
                    },
                    Some(at) => {
                        self.state = ServeState::AwaitSegment { cursor: at, sent: 0 };
                        pair(
                            Effect::Send(Message::Split(Split { at })),
                            Effect::Ask(Query::Segment { after: at }),
                        )
                    },
                }
            },
            (
                ServeState::AwaitSegment { cursor, sent },
                Input::Answer(Answer::Segment(batch)),
            ) => {
                if batch.len() == 0 {
                    // Caught up, or the cursor left the canonical path under
                    // a reorg; either way the stream ends here.
                    self.state = ServeState::Terminal;
                    return pair(
                        Effect::Send(Message::CaughtUp(CaughtUp {  })),
                        Effect::Done(ServeOutcome::Served { head: cursor, sent }),
                    );
                }
                let last: usize = batch.len() - 1;
                assert(batch@.last() == batch@[last as int]);
                let tip = match batch[last].digest() {
                    Ok(tip) => tip,
                    Err(_) => unreached(),
                };
                self.state = ServeState::AwaitSegment {
                    cursor: tip,
                    sent: sent + batch.len() as u64,
                };
                pair(
                    Effect::Send(Message::Envelopes(Envelopes { batch })),
                    Effect::Ask(Query::Segment { after: tip }),
                )
            },
            // A frame the phase does not admit is the peer's breach.
            (_, Input::Message(message)) => {
                let expected = self.expecting();
                self.breach(Breach::Unexpected { got: message.kind(), expected })
            },
            (_, Input::Answer(_)) | (_, Input::Ingested) => unreached(),
        }
    }

    fn breach(&mut self, breach: Breach) -> (effects: Vec<Effect<ServeOutcome>>)
        ensures
            final(self).head == old(self).head,
            final(self).state == ServeState::Terminal,
            effects@ == seq![Effect::<ServeOutcome>::Violation(breach)],
    {
        self.state = ServeState::Terminal;
        let mut effects: Vec<Effect<ServeOutcome>> = Vec::new();
        effects.push(Effect::Violation(breach));
        effects
    }
}

} // verus!
