//! The pulling half of a session, one input at a time.

use lotus::digest::EnvelopeDigest;
use lotus::envelope::{Envelope, Signatures};
use lotus::msg::{
    FullCheckpoint, InitMsg, Msg, Namespace, NamespaceKey, Namespaces, SetNamespace,
};
use lotus::sync::proto::{
    CaughtUp, Envelopes, FindSplit, Hello, Message, MessageKind, NoSplit, Split,
};
use lotus::sync::puller::Puller;
use lotus::sync::session::{Answer, Breach, Effect, Input, PullOutcome, Query};
use lotus::sync::{MAX_BATCH_ENVELOPES, PROTOCOL_VERSION};
use lotus::value::Value;

/// A digest that differs wherever the text does, as far as these tests go.
fn hashed(text: &str) -> [u8; 32] {
    let mut out: [u8; 32] = [0; 32];
    for lane in 0..4usize {
        let mut h: u64 = 0xcbf2_9ce4_8422_2325 ^ (lane as u64).wrapping_mul(0x9e37_79b9_7f4a_7c15);
        for byte in text.bytes() {
            h = (h ^ u64::from(byte)).wrapping_mul(0x0000_0100_0000_01b3);
            h ^= h >> 29;
        }
        out[lane * 8..lane * 8 + 8].copy_from_slice(&h.to_be_bytes());
    }
    out
}

/// The digest of what an envelope says and who signed it.
fn digest_of(payload: &Msg, signatures: &Signatures) -> EnvelopeDigest {
    EnvelopeDigest::from_bytes(hashed(&format!("{payload:?} {signatures:?}")))
}

fn envelope(payload: Msg) -> Envelope {
    let digest = digest_of(&payload, &Signatures::new());
    Envelope::new(payload, digest)
}

/// An unsigned envelope chaining onto `prev`.
fn set(prev: EnvelopeDigest, key: &str, value: &str) -> Envelope {
    envelope(Msg::SetNamespace(SetNamespace {
        prev,
        key: NamespaceKey::try_new(key).unwrap(),
        namespace: Namespace {
            value: Value::String(value.to_string()),
        },
    }))
}

fn digest_in(envelope: &Envelope) -> EnvelopeDigest {
    envelope.digest().unwrap()
}

fn d(byte: u8) -> EnvelopeDigest {
    EnvelopeDigest::from_bytes([byte; 32])
}

fn peer_hello(head: EnvelopeDigest) -> Message {
    Message::Hello(Hello {
        version: PROTOCOL_VERSION,
        head,
    })
}

/// One effect out of a handle call, asserted to be the only one.
fn one(mut effects: Vec<Effect<PullOutcome>>) -> Effect<PullOutcome> {
    assert_eq!(effects.len(), 1, "expected exactly one effect: {effects:?}");
    effects.pop().expect("length checked")
}

fn none(effects: Vec<Effect<PullOutcome>>) {
    assert!(effects.is_empty(), "expected no effects: {effects:?}");
}

/// Drives a fresh puller to the point of awaiting batches, with the
/// split at `split`.
fn streaming(split: EnvelopeDigest) -> Puller {
    let (mut puller, _) = Puller::new(d(0x01));
    puller.handle(Input::Message(peer_hello(d(0x02))));
    puller.handle(Input::Answer(Answer::Contains(false)));
    puller.handle(Input::Answer(Answer::Locator(vec![d(0x01), split])));
    none(puller.handle(Input::Message(Message::Split(Split { at: split }))));
    puller
}

/// A run of `n` envelopes chaining onto `prev`; returns the run and
/// its tip digest.
fn run(prev: EnvelopeDigest, n: usize) -> (Vec<Envelope>, EnvelopeDigest) {
    let mut cursor = prev;
    let batch: Vec<Envelope> = (0..n)
        .map(|i| {
            let envelope = set(cursor, "k", &format!("v{i}"));
            cursor = digest_in(&envelope);
            envelope
        })
        .collect();
    (batch, cursor)
}

#[test]
fn a_new_puller_opens_with_hello() {
    let (_, effect) = Puller::new(d(0x01));
    assert!(matches!(
        effect,
        Effect::Send(Message::Hello(hello))
            if hello.version == PROTOCOL_VERSION && hello.head == d(0x01)
    ));
}

#[test]
fn puller_a_version_mismatch_is_a_breach() {
    let (mut puller, _) = Puller::new(d(0x01));
    let effect = one(puller.handle(Input::Message(Message::Hello(Hello {
        version: PROTOCOL_VERSION + 1,
        head: d(0x02),
    }))));
    assert!(matches!(
        effect,
        Effect::Violation(Breach::Version { theirs, .. }) if theirs == PROTOCOL_VERSION + 1
    ));
}

/// The peer's head is looked up before any negotiation: a known head
/// means nothing to fetch.
#[test]
fn a_known_peer_head_is_already_current() {
    let (mut puller, _) = Puller::new(d(0x01));
    let effect = one(puller.handle(Input::Message(peer_hello(d(0x02)))));
    assert!(matches!(
        effect,
        Effect::Ask(Query::ContainsEnvelope(head)) if head == d(0x02)
    ));

    let effect = one(puller.handle(Input::Answer(Answer::Contains(true))));
    assert!(matches!(effect, Effect::Done(PullOutcome::AlreadyCurrent)));
}

#[test]
fn an_unknown_peer_head_negotiates_a_split() {
    let (mut puller, _) = Puller::new(d(0x01));
    puller.handle(Input::Message(peer_hello(d(0x02))));

    let effect = one(puller.handle(Input::Answer(Answer::Contains(false))));
    assert!(matches!(effect, Effect::Ask(Query::Locator)));

    let locator = vec![d(0x01), d(0x03)];
    let effect = one(puller.handle(Input::Answer(Answer::Locator(locator.clone()))));
    assert!(matches!(
        effect,
        Effect::Send(Message::FindSplit(FindSplit { locator: sent })) if sent == locator
    ));
}

/// A split naming a digest we never offered could point anywhere —
/// including at an envelope we can't build on.
#[test]
fn a_split_outside_the_locator_is_a_breach() {
    let (mut puller, _) = Puller::new(d(0x01));
    puller.handle(Input::Message(peer_hello(d(0x02))));
    puller.handle(Input::Answer(Answer::Contains(false)));
    puller.handle(Input::Answer(Answer::Locator(vec![d(0x01)])));

    let effect = one(puller.handle(Input::Message(Message::Split(Split { at: d(0x77) }))));
    assert!(matches!(
        effect,
        Effect::Violation(Breach::SplitNotInLocator { at }) if at == d(0x77)
    ));
}

#[test]
fn no_split_ends_with_no_common_history() {
    let (mut puller, _) = Puller::new(d(0x01));
    puller.handle(Input::Message(peer_hello(d(0x02))));
    puller.handle(Input::Answer(Answer::Contains(false)));
    puller.handle(Input::Answer(Answer::Locator(vec![d(0x01)])));

    let effect = one(puller.handle(Input::Message(Message::NoSplit(NoSplit {}))));
    assert!(matches!(effect, Effect::Done(PullOutcome::NoCommonHistory)));
}

/// The happy path: two chained batches ingest, and the caught-up head
/// closes the session with the count.
#[test]
fn chained_batches_ingest_and_complete() {
    let mut puller = streaming(d(0x10));
    let (first, first_tip) = run(d(0x10), 3);
    let (second, tip) = run(first_tip, 2);

    let effect = one(puller.handle(Input::Message(Message::Envelopes(Envelopes {
        batch: first.clone(),
    }))));
    assert!(matches!(effect, Effect::Ingest(batch) if batch == first));
    none(puller.handle(Input::Ingested));

    let effect = one(puller.handle(Input::Message(Message::Envelopes(Envelopes {
        batch: second,
    }))));
    assert!(matches!(effect, Effect::Ingest(_)));
    none(puller.handle(Input::Ingested));

    let effect = one(puller.handle(Input::Message(Message::CaughtUp(CaughtUp {}))));
    assert!(matches!(
        effect,
        // The head is the tip the puller computed itself — `CaughtUp`
        // carries nothing to take the peer's word for.
        Effect::Done(PullOutcome::Synced { head, ingested: 5 }) if head == tip
    ));
}

/// A stream may legitimately carry nothing: the server reorged
/// between its `Hello` and the segment walk.
#[test]
fn caught_up_with_nothing_streamed_completes_at_the_split() {
    let mut puller = streaming(d(0x10));
    let effect = one(puller.handle(Input::Message(Message::CaughtUp(CaughtUp {}))));
    assert!(matches!(
        effect,
        Effect::Done(PullOutcome::Synced { head, ingested: 0 }) if head == d(0x10)
    ));
}

#[test]
fn an_empty_batch_is_a_breach() {
    let mut puller = streaming(d(0x10));
    let effect = one(puller.handle(Input::Message(Message::Envelopes(Envelopes {
        batch: Vec::new(),
    }))));
    assert!(matches!(effect, Effect::Violation(Breach::EmptyBatch)));
}

#[test]
fn an_oversized_batch_is_a_breach() {
    let mut puller = streaming(d(0x10));
    let (batch, _) = run(d(0x10), MAX_BATCH_ENVELOPES as usize + 1);
    let effect = one(puller.handle(Input::Message(Message::Envelopes(Envelopes { batch }))));
    assert!(matches!(
        effect,
        Effect::Violation(Breach::OversizedBatch { got }) if got == 257
    ));
}

/// The first envelope must chain onto the split point itself.
#[test]
fn a_batch_that_skips_the_split_is_a_breach() {
    let mut puller = streaming(d(0x10));
    let (batch, _) = run(d(0x55), 1);
    let effect = one(puller.handle(Input::Message(Message::Envelopes(Envelopes { batch }))));
    assert!(matches!(
        effect,
        Effect::Violation(Breach::BrokenRun { expected }) if expected == d(0x10)
    ));
}

#[test]
fn a_gap_inside_a_batch_is_a_breach() {
    let mut puller = streaming(d(0x10));
    let (mut batch, _) = run(d(0x10), 2);
    let (stray, _) = run(d(0x66), 1);
    batch.extend(stray);

    let effect = one(puller.handle(Input::Message(Message::Envelopes(Envelopes { batch }))));
    assert!(matches!(
        effect,
        Effect::Violation(Breach::BrokenRun { .. })
    ));
}

/// The second batch must chain onto the first batch's tip — a server
/// cannot restart the stream somewhere else mid-session.
#[test]
fn a_batch_not_chaining_onto_the_previous_is_a_breach() {
    let mut puller = streaming(d(0x10));
    let (first, _) = run(d(0x10), 2);
    puller.handle(Input::Message(Message::Envelopes(Envelopes {
        batch: first,
    })));
    none(puller.handle(Input::Ingested));

    let (stray, _) = run(d(0x66), 1);
    let effect = one(puller.handle(Input::Message(Message::Envelopes(Envelopes {
        batch: stray,
    }))));
    assert!(matches!(
        effect,
        Effect::Violation(Breach::BrokenRun { .. })
    ));
}

/// An `Init` has no `prev`, so it can never satisfy run linkage — a
/// peer cannot smuggle a new genesis through a pull stream.
#[test]
fn an_init_in_the_stream_is_a_breach() {
    let mut puller = streaming(d(0x10));
    let init = envelope(Msg::Init(InitMsg {
        state: FullCheckpoint {
            namespaces: Namespaces::new(),
        },
    }));
    let effect = one(puller.handle(Input::Message(Message::Envelopes(Envelopes {
        batch: vec![init],
    }))));
    assert!(matches!(
        effect,
        Effect::Violation(Breach::BrokenRun { .. })
    ));
}

/// Any frame outside its phase is a breach naming both sides.
#[test]
fn an_out_of_phase_frame_is_a_breach() {
    let (mut puller, _) = Puller::new(d(0x01));
    let effect = one(puller.handle(Input::Message(Message::CaughtUp(CaughtUp {}))));
    assert!(matches!(
        effect,
        Effect::Violation(Breach::Unexpected {
            got: MessageKind::CaughtUp,
            expected: "Hello",
        })
    ));
}
