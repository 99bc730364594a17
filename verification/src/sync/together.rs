//! What holds of a session, whatever the peer does, and of two honest
//! machines talking to each other.

use vstd::prelude::*;

use crate::digest::EnvelopeDigest;
use crate::envelope::Envelope;
use crate::sync::locator::{a_split_is_the_newest, split_of, MAX_LOCATOR_LEN};
use crate::sync::proto::{CaughtUp, Envelopes, FindSplit, Hello, Message, NoSplit, Split};
use crate::sync::puller::PullPhase;
use crate::sync::server::ServeState;
use crate::sync::session::{
    broken_stays_broken, run_end, Answer, Breach, Effect, Input, PullOutcome, Query, ServeOutcome,
};
use crate::sync::{MAX_BATCH_ENVELOPES, PROTOCOL_VERSION};

verus! {

/// Whether an effect ends the session.
pub open spec fn ends<O>(effect: Effect<O>) -> bool {
    effect is Done || effect is Violation
}

/// A pull session is over exactly when the machine says so: once, and as
/// the last thing it says.
pub proof fn a_pull_ends_when_it_says_so(phase: PullPhase, input: Input)
    requires
        phase.admits(input),
    ensures
        ({
            let (next, effects) = phase.after(input);
            &&& next is Terminal <==> effects.len() > 0 && ends(effects.last())
            &&& forall|i: int| 0 <= i < effects.len() - 1 ==> !ends(#[trigger] effects[i])
        }),
{
}

/// A serving session is over exactly when the machine says so: once, and as
/// the last thing it says.
pub proof fn a_serve_ends_when_it_says_so(state: ServeState, head: EnvelopeDigest, input: Input)
    requires
        state.admits(input),
    ensures
        ({
            let (next, effects) = state.after(head, input);
            &&& next is Terminal <==> effects.len() > 0 && ends(effects.last())
            &&& forall|i: int| 0 <= i < effects.len() - 1 ==> !ends(#[trigger] effects[i])
        }),
{
}

/// Once a session is over, nothing may be fed any more.
pub proof fn nothing_follows_the_end(input: Input)
    ensures
        !PullPhase::Terminal.admits(input),
        !ServeState::Terminal.admits(input),
{
}

/// Nothing a peer sends puts anything but a bounded, unbroken run that
/// starts at the cursor in front of the chain.
pub proof fn only_runs_are_ingested(phase: PullPhase, input: Input, batch: Vec<Envelope>)
    requires
        phase.admits(input),
        phase.after(input).1.contains(Effect::Ingest(batch)),
    ensures
        phase matches PullPhase::Batch { cursor, ingested } && {
            &&& 0 < batch@.len() <= MAX_BATCH_ENVELOPES
            &&& run_end(cursor, batch@) is Ok
            &&& phase.after(input).0 == (PullPhase::Ingest {
                cursor: run_end(cursor, batch@)->Ok_0,
                ingested,
                pending: batch@.len() as u64,
            })
        },
{
}

/// A split the puller goes on from is one it offered.
pub proof fn a_split_was_offered(phase: PullPhase, split: Split)
    requires
        phase matches PullPhase::Split { .. },
        !(phase.after(Input::Message(Message::Split(split))).0 is Terminal),
    ensures
        phase matches PullPhase::Split { locator } && locator.contains(split.at),
{
}

/// Runs add up.
pub proof fn runs_add(from: EnvelopeDigest, a: Seq<Envelope>, b: Seq<Envelope>)
    requires
        run_end(from, a) is Ok,
    ensures
        run_end(from, a + b) == run_end(run_end(from, a)->Ok_0, b),
    decreases b.len(),
{
    if b.len() == 0 {
        assert(a + b =~= a);
    } else {
        runs_add(from, a, b.drop_last());
        assert((a + b).drop_last() =~= a + b.drop_last());
        assert((a + b).last() == b.last());
    }
}

/// Whether the machine is where `run`, ingested from `split` on, has led
/// it.
pub open spec fn accounts_for(
    phase: PullPhase,
    split: EnvelopeDigest,
    run: Seq<Envelope>,
) -> bool {
    match phase {
        PullPhase::Batch { cursor, ingested } => run_end(split, run) == Ok::<
            EnvelopeDigest,
            Breach,
        >(cursor) && ingested == run.len(),
        PullPhase::Ingest { cursor, ingested, pending } => run_end(split, run) == Ok::<
            EnvelopeDigest,
            Breach,
        >(cursor) && ingested + pending == run.len(),
        _ => false,
    }
}

/// What the machine has had ingested is one unbroken run from the split:
/// its cursor is the tip of that run, and its count the run's length, at
/// every step and in the outcome it reports.
pub proof fn a_puller_keeps_account(
    phase: PullPhase,
    split: EnvelopeDigest,
    run: Seq<Envelope>,
    input: Input,
)
    requires
        accounts_for(phase, split, run),
        phase.admits(input),
    ensures
        ({
            let (next, effects) = phase.after(input);
            &&& next is Terminal || match input {
                Input::Message(Message::Envelopes(envelopes)) => accounts_for(
                    next,
                    split,
                    run + envelopes.batch@,
                ),
                _ => accounts_for(next, split, run),
            }
            &&& forall|head: EnvelopeDigest, ingested: u64| #[trigger]
                effects.contains(Effect::Done(PullOutcome::Synced { head, ingested })) ==> {
                    &&& run_end(split, run) == Ok::<EnvelopeDigest, Breach>(head)
                    &&& ingested == run.len()
                }
        }),
{
    match (phase, input) {
        (PullPhase::Batch { cursor, .. }, Input::Message(Message::Envelopes(envelopes))) => {
            runs_add(split, run, envelopes.batch@);
        },
        _ => {},
    }
}

/// Whether a puller and its server stand at the same envelope of the
/// stream.
pub open spec fn in_step(puller: PullPhase, server: ServeState) -> bool {
    &&& puller matches PullPhase::Batch { cursor, ingested }
    &&& server matches ServeState::AwaitSegment { cursor: at, sent }
    &&& cursor == at
    &&& ingested == sent
}

/// Two honest machines greet each other: the server answers the puller's
/// `Hello` with its own, and the puller goes on to ask whether it holds the
/// server's head.
pub proof fn greetings_are_exchanged(ours: EnvelopeDigest, theirs: EnvelopeDigest)
    ensures
        ({
            let opening = Message::Hello(Hello { version: PROTOCOL_VERSION, head: ours });
            let reply = Message::Hello(Hello { version: PROTOCOL_VERSION, head: theirs });
            &&& ServeState::AwaitHello.after(theirs, Input::Message(opening)) == (
                ServeState::AwaitFindSplit,
                seq![Effect::<ServeOutcome>::Send(reply)],
            )
            &&& PullPhase::Hello.after(Input::Message(reply)) == (
                PullPhase::Contains,
                seq![Effect::<PullOutcome>::Ask(Query::ContainsEnvelope(theirs))],
            )
        }),
{
}

/// Two honest machines agree where to start: the server looks its own path
/// up in the puller's locator, and what it finds is a split the puller
/// accepts, so the two are in step; finding nothing ends the session on
/// both sides alike.
pub proof fn a_split_is_agreed(
    locator: Vec<EnvelopeDigest>,
    path: Seq<EnvelopeDigest>,
    theirs: EnvelopeDigest,
)
    requires
        0 < locator@.len() <= MAX_LOCATOR_LEN,
    ensures
        ({
            let asked = Message::FindSplit(FindSplit { locator });
            let (puller, sent) = PullPhase::Locator.after(Input::Answer(Answer::Locator(locator)));
            let (server, query) = ServeState::AwaitFindSplit.after(theirs, Input::Message(asked));
            let found = split_of(locator@, path);
            let (serving, reply) = server.after(theirs, Input::Answer(Answer::SplitPoint(found)));
            &&& sent == seq![Effect::<PullOutcome>::Send(asked)]
            &&& query == seq![Effect::<ServeOutcome>::Ask(Query::SplitPoint(locator))]
            &&& match found {
                Some(at) => {
                    let split = Message::Split(Split { at });
                    &&& reply[0] == Effect::<ServeOutcome>::Send(split)
                    &&& in_step(puller.after(Input::Message(split)).0, serving)
                },
                None => {
                    let none = Message::NoSplit(NoSplit {  });
                    &&& reply == seq![
                        Effect::<ServeOutcome>::Send(none),
                        Effect::Done(ServeOutcome::NoCommonHistory),
                    ]
                    &&& puller.after(Input::Message(none)).1 == seq![
                        Effect::<PullOutcome>::Done(PullOutcome::NoCommonHistory),
                    ]
                },
            }
        }),
{
    a_split_is_the_newest(locator@, path);
}

/// Two honest machines stay in step: a segment the server may be handed
/// goes out as a batch the puller ingests, and once it has, both stand at
/// its tip.
pub proof fn segments_keep_in_step(
    puller: PullPhase,
    server: ServeState,
    theirs: EnvelopeDigest,
    batch: Vec<Envelope>,
)
    requires
        in_step(puller, server),
        server.admits(Input::Answer(Answer::Segment(batch))),
        batch@.len() > 0,
    ensures
        ({
            let (serving, sent) = server.after(theirs, Input::Answer(Answer::Segment(batch)));
            let message = Message::Envelopes(Envelopes { batch });
            let (ingesting, effects) = puller.after(Input::Message(message));
            &&& sent[0] == Effect::<ServeOutcome>::Send(message)
            &&& effects == seq![Effect::<PullOutcome>::Ingest(batch)]
            &&& ingesting.admits(Input::Ingested)
            &&& in_step(ingesting.after(Input::Ingested).0, serving)
        }),
{
}

/// Two honest machines end alike: when there is nothing more to send, both
/// report the same head and the same count.
pub proof fn an_end_is_agreed(puller: PullPhase, server: ServeState, theirs: EnvelopeDigest, batch: Vec<Envelope>)
    requires
        in_step(puller, server),
        server.admits(Input::Answer(Answer::Segment(batch))),
        batch@.len() == 0,
    ensures
        ({
            let (_, sent) = server.after(theirs, Input::Answer(Answer::Segment(batch)));
            let message = Message::CaughtUp(CaughtUp {  });
            let (_, effects) = puller.after(Input::Message(message));
            &&& sent[0] == Effect::<ServeOutcome>::Send(message)
            &&& sent[1] matches Effect::Done(ServeOutcome::Served { head, sent: count })
            &&& effects == seq![
                Effect::<PullOutcome>::Done(PullOutcome::Synced { head, ingested: count }),
            ]
        }),
{
}

/// Batches end to end.
pub open spec fn joined(batches: Seq<Vec<Envelope>>) -> Seq<Envelope>
    decreases batches.len(),
{
    if batches.len() == 0 {
        Seq::empty()
    } else {
        joined(batches.drop_last()) + batches.last()@
    }
}

/// Where a puller and its server stand once the server was handed `batches`
/// for segments, and the puller ingested each as it came.
pub open spec fn streamed(
    puller: PullPhase,
    server: ServeState,
    theirs: EnvelopeDigest,
    batches: Seq<Vec<Envelope>>,
) -> (PullPhase, ServeState)
    decreases batches.len(),
{
    if batches.len() == 0 {
        (puller, server)
    } else {
        let (pulling, serving) = streamed(puller, server, theirs, batches.drop_last());
        let batch = batches.last();
        let message = Message::Envelopes(Envelopes { batch });
        (
            pulling.after(Input::Message(message)).0.after(Input::Ingested).0,
            serving.after(theirs, Input::Answer(Answer::Segment(batch))).0,
        )
    }
}

/// Whether a puller that was streamed `batches` from `split` on has the next
/// one ingested as it comes.
pub open spec fn ingests(
    split: EnvelopeDigest,
    theirs: EnvelopeDigest,
    batches: Seq<Vec<Envelope>>,
    next: Vec<Envelope>,
) -> bool {
    let (pulling, _) = streamed(
        PullPhase::Batch { cursor: split, ingested: 0 },
        ServeState::AwaitSegment { cursor: split, sent: 0 },
        theirs,
        batches,
    );
    pulling.after(Input::Message(Message::Envelopes(Envelopes { batch: next }))).1 == seq![
        Effect::<PullOutcome>::Ingest(next),
    ]
}

/// A whole stream: whatever segments the server's path comes in, the puller
/// ingests exactly the envelopes of that path past the split, oldest first,
/// and both sides end at the path's tip with the same count.
pub proof fn a_stream_delivers_the_path(
    split: EnvelopeDigest,
    theirs: EnvelopeDigest,
    batches: Seq<Vec<Envelope>>,
)
    requires
        run_end(split, joined(batches)) is Ok,
        joined(batches).len() <= u64::MAX,
        forall|i: int|
            0 <= i < batches.len() ==> 0 < (#[trigger] batches[i])@.len() <= MAX_BATCH_ENVELOPES,
    ensures
        ({
            let (pulling, serving) = streamed(
                PullPhase::Batch { cursor: split, ingested: 0 },
                ServeState::AwaitSegment { cursor: split, sent: 0 },
                theirs,
                batches,
            );
            let head = run_end(split, joined(batches))->Ok_0;
            let count = joined(batches).len() as u64;
            &&& accounts_for(pulling, split, joined(batches))
            &&& in_step(pulling, serving)
            &&& forall|i: int|
                0 <= i < batches.len() ==> ingests(split, theirs, batches.take(i), #[trigger] batches[i])
            &&& pulling.after(Input::Message(Message::CaughtUp(CaughtUp {  }))).1 == seq![
                Effect::Done(PullOutcome::Synced { head, ingested: count }),
            ]
            &&& forall|nothing: Vec<Envelope>|
                nothing@.len() == 0 ==> #[trigger] serving.after(
                    theirs,
                    Input::Answer(Answer::Segment(nothing)),
                ).1 == seq![
                    Effect::Send(Message::CaughtUp(CaughtUp {  })),
                    Effect::Done(ServeOutcome::Served { head, sent: count }),
                ]
        }),
    decreases batches.len(),
{
    if batches.len() > 0 {
        let front = batches.drop_last();
        let batch = batches.last();
        let before = joined(front);
        assert(joined(batches).take(before.len() as int) =~= before);
        if run_end(split, before) is Err {
            broken_stays_broken(split, joined(batches), before.len() as int);
        }
        assert forall|i: int| 0 <= i < front.len() implies 0 < (#[trigger] front[i])@.len()
            <= MAX_BATCH_ENVELOPES by {
            assert(front[i] == batches[i]);
        }
        a_stream_delivers_the_path(split, theirs, front);
        runs_add(split, before, batch@);
        assert(batches[batches.len() - 1] == batch);
        let (pulling, serving) = streamed(
            PullPhase::Batch { cursor: split, ingested: 0 },
            ServeState::AwaitSegment { cursor: split, sent: 0 },
            theirs,
            front,
        );
        segments_keep_in_step(pulling, serving, theirs, batch);
        assert forall|i: int| 0 <= i < batches.len() implies ingests(
            split,
            theirs,
            batches.take(i),
            #[trigger] batches[i],
        ) by {
            if i < front.len() {
                assert(batches.take(i) =~= front.take(i));
                assert(front[i] == batches[i]);
            } else {
                assert(batches.take(i) =~= front);
            }
        }
    }
}

} // verus!
