//! The serving half of a session, one input at a time.

use lotus::digest::EnvelopeDigest;
use lotus::envelope::{Envelope, Signatures};
use lotus::msg::{Msg, Namespace, NamespaceKey, SetNamespace};
use lotus::sync::locator::MAX_LOCATOR_LEN;
use lotus::sync::proto::{Envelopes, FindSplit, Hello, Message, MessageKind, Split};
use lotus::sync::server::Server;
use lotus::sync::session::{Answer, Breach, Effect, Input, Query, ServeOutcome};
use lotus::sync::PROTOCOL_VERSION;
use lotus::value::Value;

/// A digest that differs wherever the text does, as far as these tests go.
fn hashed(text: &str) -> [u8; 32] {
    let mut out: [u8; 32] = [0; 32];
    for lane in 0..4usize {
        let mut h: u64 = 0xcbf2_9ce4_8422_2325 ^ (lane as u64).wrapping_mul(0x9e37_79b9_7f4a_7c15);
        for byte in text.bytes() {
            h = (h ^ u64::from(byte)).wrapping_mul(0x0000_0100_0000_01b3);
            h ^= h >> 29;
        }
        out[lane * 8..lane * 8 + 8].copy_from_slice(&h.to_be_bytes());
    }
    out
}

/// The digest of what an envelope says and who signed it.
fn digest_of(payload: &Msg, signatures: &Signatures) -> EnvelopeDigest {
    EnvelopeDigest::from_bytes(hashed(&format!("{payload:?} {signatures:?}")))
}

fn envelope(payload: Msg) -> Envelope {
    let digest = digest_of(&payload, &Signatures::new());
    Envelope::new(payload, digest)
}

/// An unsigned envelope chaining onto `prev`.
fn set(prev: EnvelopeDigest, key: &str, value: &str) -> Envelope {
    envelope(Msg::SetNamespace(SetNamespace {
        prev,
        key: NamespaceKey::try_new(key).unwrap(),
        namespace: Namespace {
            value: Value::String(value.to_string()),
        },
    }))
}

fn digest_in(envelope: &Envelope) -> EnvelopeDigest {
    envelope.digest().unwrap()
}

fn d(byte: u8) -> EnvelopeDigest {
    EnvelopeDigest::from_bytes([byte; 32])
}

fn peer_hello() -> Message {
    Message::Hello(Hello {
        version: PROTOCOL_VERSION,
        head: d(0x01),
    })
}

fn one(mut effects: Vec<Effect<ServeOutcome>>) -> Effect<ServeOutcome> {
    assert_eq!(effects.len(), 1, "expected exactly one effect: {effects:?}");
    effects.pop().expect("length checked")
}

fn two(mut effects: Vec<Effect<ServeOutcome>>) -> (Effect<ServeOutcome>, Effect<ServeOutcome>) {
    assert_eq!(
        effects.len(),
        2,
        "expected exactly two effects: {effects:?}"
    );
    let second = effects.pop().expect("length checked");
    (effects.pop().expect("length checked"), second)
}

/// Drives a fresh server to the point of streaming from `at`.
fn streaming(at: EnvelopeDigest) -> Server {
    let mut server = Server::new(d(0x02));
    server.handle(Input::Message(peer_hello()));
    server.handle(Input::Message(Message::FindSplit(FindSplit {
        locator: vec![at],
    })));
    let (split, ask) = two(server.handle(Input::Answer(Answer::SplitPoint(Some(at)))));
    assert!(matches!(split, Effect::Send(Message::Split(Split { at: a })) if a == at));
    assert!(matches!(ask, Effect::Ask(Query::Segment { after, .. }) if after == at));
    server
}

fn chained(prev: EnvelopeDigest, n: usize) -> (Vec<Envelope>, EnvelopeDigest) {
    let mut cursor = prev;
    let batch: Vec<Envelope> = (0..n)
        .map(|i| {
            let envelope = set(cursor, "k", &format!("v{i}"));
            cursor = digest_in(&envelope);
            envelope
        })
        .collect();
    (batch, cursor)
}

#[test]
fn hello_is_answered_with_hello() {
    let mut server = Server::new(d(0x02));
    let effect = one(server.handle(Input::Message(peer_hello())));
    assert!(matches!(
        effect,
        Effect::Send(Message::Hello(hello))
            if hello.version == PROTOCOL_VERSION && hello.head == d(0x02)
    ));
}

#[test]
fn server_a_version_mismatch_is_a_breach() {
    let mut server = Server::new(d(0x02));
    let effect = one(server.handle(Input::Message(Message::Hello(Hello {
        version: 0,
        head: d(0x01),
    }))));
    assert!(matches!(
        effect,
        Effect::Violation(Breach::Version { theirs: 0, .. })
    ));
}

#[test]
fn find_split_consults_the_core() {
    let mut server = Server::new(d(0x02));
    server.handle(Input::Message(peer_hello()));

    let locator = vec![d(0x01), d(0x03)];
    let effect = one(server.handle(Input::Message(Message::FindSplit(FindSplit {
        locator: locator.clone(),
    }))));
    assert!(matches!(
        effect,
        Effect::Ask(Query::SplitPoint(asked)) if asked == locator
    ));
}

#[test]
fn an_empty_locator_is_a_breach() {
    let mut server = Server::new(d(0x02));
    server.handle(Input::Message(peer_hello()));
    let effect = one(server.handle(Input::Message(Message::FindSplit(FindSplit {
        locator: Vec::new(),
    }))));
    assert!(matches!(effect, Effect::Violation(Breach::EmptyLocator)));
}

#[test]
fn an_oversized_locator_is_a_breach() {
    let mut server = Server::new(d(0x02));
    server.handle(Input::Message(peer_hello()));
    let locator = vec![d(0x01); MAX_LOCATOR_LEN + 1];
    let effect = one(server.handle(Input::Message(Message::FindSplit(FindSplit { locator }))));
    assert!(matches!(
        effect,
        Effect::Violation(Breach::OversizedLocator { got }) if got == 65
    ));
}

#[test]
fn no_split_point_says_so_and_ends() {
    let mut server = Server::new(d(0x02));
    server.handle(Input::Message(peer_hello()));
    server.handle(Input::Message(Message::FindSplit(FindSplit {
        locator: vec![d(0x01)],
    })));

    let (sent, done) = two(server.handle(Input::Answer(Answer::SplitPoint(None))));
    assert!(matches!(sent, Effect::Send(Message::NoSplit(_))));
    assert!(matches!(done, Effect::Done(ServeOutcome::NoCommonHistory)));
}

/// The streaming loop: each non-empty segment goes out as a batch and
/// asks for the next from the new tip; the empty segment closes with
/// `CaughtUp` at that tip.
#[test]
fn segments_stream_until_the_core_runs_dry() {
    let mut server = streaming(d(0x10));
    let (first, first_tip) = chained(d(0x10), 2);
    let (second, tip) = chained(first_tip, 1);

    let (sent, ask) = two(server.handle(Input::Answer(Answer::Segment(first.clone()))));
    assert!(matches!(
        sent,
        Effect::Send(Message::Envelopes(Envelopes { batch })) if batch == first
    ));
    assert!(matches!(
        ask,
        Effect::Ask(Query::Segment { after, .. }) if after == first_tip
    ));

    let (sent, ask) = two(server.handle(Input::Answer(Answer::Segment(second))));
    assert!(matches!(sent, Effect::Send(Message::Envelopes(_))));
    assert!(matches!(
        ask,
        Effect::Ask(Query::Segment { after, .. }) if after == tip
    ));

    let (sent, done) = two(server.handle(Input::Answer(Answer::Segment(Vec::new()))));
    assert!(matches!(sent, Effect::Send(Message::CaughtUp(_))));
    assert!(matches!(
        done,
        Effect::Done(ServeOutcome::Served { head, sent: 3 }) if head == tip
    ));
}

/// An immediately-empty segment — the split was the head, or a reorg
/// detached the cursor — closes at the split point itself.
#[test]
fn an_immediately_dry_stream_caught_up_at_the_split() {
    let mut server = streaming(d(0x10));
    let (sent, done) = two(server.handle(Input::Answer(Answer::Segment(Vec::new()))));
    assert!(matches!(sent, Effect::Send(Message::CaughtUp(_))));
    assert!(matches!(
        done,
        Effect::Done(ServeOutcome::Served { head, sent: 0 }) if head == d(0x10)
    ));
}

#[test]
fn a_find_split_before_hello_is_a_breach() {
    let mut server = Server::new(d(0x02));
    let effect = one(server.handle(Input::Message(Message::FindSplit(FindSplit {
        locator: vec![d(0x01)],
    }))));
    assert!(matches!(
        effect,
        Effect::Violation(Breach::Unexpected {
            got: MessageKind::FindSplit,
            expected: "Hello",
        })
    ));
}

/// A puller never sends `Envelopes`; one that does is off-script.
#[test]
fn an_envelopes_frame_from_the_puller_is_a_breach() {
    let mut server = Server::new(d(0x02));
    server.handle(Input::Message(peer_hello()));
    let (batch, _) = chained(d(0x10), 1);
    let effect = one(server.handle(Input::Message(Message::Envelopes(Envelopes { batch }))));
    assert!(matches!(
        effect,
        Effect::Violation(Breach::Unexpected {
            got: MessageKind::Envelopes,
            expected: "FindSplit",
        })
    ));
}
