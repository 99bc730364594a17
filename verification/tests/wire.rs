//! What crosses between two nodes: frames, messages, locators, and the
//! lines a trace says of them.

use lotus::digest::EnvelopeDigest;
use lotus::envelope::{Envelope, WireError};
use lotus::msg::{Msg, Namespace, NamespaceKey, SetNamespace};
use lotus::sync::encoding::Packet;
use lotus::sync::error::Error;
use lotus::sync::frame::Codec;
use lotus::sync::locator::{sample, split, MAX_LOCATOR_LEN};
use lotus::sync::proto::{
    CaughtUp, Envelopes, FindSplit, Hello, Message, MessageKind, NoSplit, Split,
};
use lotus::sync::session::{
    follow_run, Answer, Breach, Effect, Input, PullOutcome, Query, ServeOutcome,
};
use lotus::sync::trace::{effects, input};
use lotus::sync::{MAX_FRAME_LEN, SEGMENT_BYTE_BUDGET};
use lotus::value::Value;

fn d(byte: u8) -> EnvelopeDigest {
    EnvelopeDigest::from_bytes([byte; 32])
}

fn set(prev: EnvelopeDigest, key: &str, value: &str) -> Envelope {
    let digest = EnvelopeDigest::from_bytes([prev.bytes[0].wrapping_add(1); 32]);
    Envelope::new(
        Msg::SetNamespace(SetNamespace {
            prev,
            key: NamespaceKey::try_new(key).unwrap(),
            namespace: Namespace {
                value: Value::String(value.to_string()),
            },
        }),
        digest,
    )
}

fn hex(bytes: &[u8]) -> String {
    bytes.iter().map(|byte| format!("{byte:02x}")).collect()
}

fn unhex(hex: &str) -> Vec<u8> {
    assert!(hex.len() % 2 == 0, "hex strings pair up");
    (0..hex.len())
        .step_by(2)
        .map(|at| u8::from_str_radix(&hex[at..at + 2], 16).unwrap())
        .collect()
}

/// Asserts `packet` encodes to exactly the hex given and decodes back.
fn assert_wire(packet: &Packet, want: &str) {
    let encoded = packet.encode();
    assert_eq!(hex(&encoded), want);
    assert_eq!(Packet::decode(&encoded).as_ref(), Ok(packet));
}

/// A frame around a message.
fn encode(packet: &Packet) -> Vec<u8> {
    let mut buffer: Vec<u8> = Vec::new();
    Codec.encode(&packet.encode(), &mut buffer).unwrap();
    buffer
}

/// The message at the front of the buffer, once its frame is whole.
fn decode(buffer: &mut Vec<u8>) -> Result<Option<Packet>, Error> {
    match Codec.decode(buffer)? {
        Some(body) => Packet::decode(&body).map(Some).map_err(Error::Wire),
        None => Ok(None),
    }
}

/// Stand-ins for the encodings of two envelopes: an array and a string.
fn encodings() -> Vec<Vec<u8>> {
    vec![unhex("83010203"), unhex("6161")]
}

// ---- frames --------------------------------------------------------------

#[test]
fn a_frame_round_trips() {
    let sent = Packet::of_batch(&encodings());

    let mut buffer = encode(&sent);
    assert_eq!(decode(&mut buffer), Ok(Some(sent)));
    assert!(buffer.is_empty(), "the frame is consumed exactly");
}

/// The decoder is incremental: it answers `None` on a partial prefix
/// and a partial body, then yields once the frame completes.
#[test]
fn decoding_waits_for_a_full_frame() {
    let sent = Packet::Split(Split { at: d(0x11) });
    let frame = encode(&sent);

    let mut buffer: Vec<u8> = Vec::new();
    for &byte in &frame[..frame.len() - 1] {
        buffer.push(byte);
        assert_eq!(decode(&mut buffer), Ok(None));
    }
    buffer.push(frame[frame.len() - 1]);
    assert_eq!(decode(&mut buffer), Ok(Some(sent)));
}

/// Back-to-back frames in one buffer decode one call at a time; the
/// remainder stays for the next call.
#[test]
fn frames_decode_back_to_back() {
    let first = Packet::NoSplit(NoSplit {});
    let second = Packet::CaughtUp(CaughtUp {});

    let mut buffer = encode(&first);
    buffer.extend_from_slice(&encode(&second));

    assert_eq!(decode(&mut buffer), Ok(Some(first)));
    assert_eq!(decode(&mut buffer), Ok(Some(second)));
    assert_eq!(decode(&mut buffer), Ok(None));
}

/// The length prefix is judged before any body is read, so an
/// oversized claim costs nothing to refuse.
#[test]
fn an_oversized_length_prefix_is_refused() {
    let mut buffer: Vec<u8> = (MAX_FRAME_LEN + 1).to_be_bytes().to_vec();
    assert!(matches!(
        Codec.decode(&mut buffer),
        Err(Error::FrameTooLarge(len)) if len == u64::from(MAX_FRAME_LEN) + 1
    ));
}

#[test]
fn a_garbage_body_is_a_codec_error() {
    let mut buffer: Vec<u8> = 1u32.to_be_bytes().to_vec();
    buffer.push(0xff);
    assert!(matches!(decode(&mut buffer), Err(Error::Wire(_))));
}

/// A message too large to frame is refused at encode time rather than
/// written truncated or oversize.
#[test]
fn an_oversized_message_is_refused_at_encode() {
    let huge: Vec<u8> = vec![0x61; MAX_FRAME_LEN as usize + 1];

    let mut buffer: Vec<u8> = Vec::new();
    assert!(matches!(
        Codec.encode(&huge, &mut buffer),
        Err(Error::FrameTooLarge(_))
    ));
    assert!(buffer.is_empty(), "nothing may be written on refusal");
}

#[test]
fn a_frame_may_be_as_long_as_the_limit() {
    let mut body: Vec<u8> = vec![7; MAX_FRAME_LEN as usize];
    let mut buffer: Vec<u8> = Vec::new();
    assert_eq!(Codec.encode(&body, &mut buffer), Ok(()));
    assert_eq!(&buffer[..4], MAX_FRAME_LEN.to_be_bytes());
    let read = Codec.decode(&mut buffer).unwrap().unwrap();
    assert_eq!(read.len(), body.len());
    body.push(7);
    assert_eq!(
        Codec.encode(&body, &mut buffer),
        Err(Error::FrameTooLarge(16_777_217))
    );
    assert!(SEGMENT_BYTE_BUDGET < MAX_FRAME_LEN);
}

#[test]
fn frame_failures_say_what_went_wrong() {
    assert_eq!(
        Error::FrameTooLarge(7).text(),
        "a frame of 7 bytes exceeds the 16777216-byte cap"
    );
    assert_eq!(Error::Wire(WireError).text(), "message codec");
}

// ---- locators ------------------------------------------------------------

/// Distinct digests to stand in for a canonical path.
fn path(len: usize) -> Vec<EnvelopeDigest> {
    (0..len)
        .map(|n| {
            let mut bytes = [0u8; 32];
            bytes[..8].copy_from_slice(&(n as u64).to_be_bytes());
            EnvelopeDigest::from_bytes(bytes)
        })
        .collect()
}

#[test]
fn an_empty_path_samples_empty() {
    assert_eq!(sample(&vec![]), Vec::new());
}

/// A one-entry path — a node at its root — is just that entry.
#[test]
fn a_root_only_path_samples_itself() {
    let path = path(1);
    assert_eq!(sample(&path), path);
}

#[test]
fn short_paths_sample_densely() {
    let path = path(4);
    // Offsets 0, 1, 2 then the last entry 3.
    assert_eq!(sample(&path), path);
}

#[test]
fn offsets_widen_exponentially_and_end_on_the_root() {
    let path = path(100);
    let sampled = sample(&path);
    let want: Vec<EnvelopeDigest> = [0usize, 1, 2, 4, 8, 16, 32, 64, 99]
        .into_iter()
        .map(|offset| path[offset])
        .collect();
    assert_eq!(sampled, want);
}

/// When the root itself lands on a power-of-two offset it appears
/// once, not twice.
#[test]
fn the_root_is_never_duplicated() {
    let path = path(5); // offsets 0, 1, 2 then last = 4, itself a power of two
    let sampled = sample(&path);
    assert_eq!(sampled, [path[0], path[1], path[2], path[4]]);
}

#[test]
fn long_paths_stay_within_the_locator_cap() {
    let path = path(1_000_000);
    let sampled = sample(&path);
    assert!(sampled.len() <= MAX_LOCATOR_LEN);
    assert_eq!(sampled.first(), path.first(), "the head is always sampled");
    assert_eq!(sampled.last(), path.last(), "the root is always sampled");
}

/// The walk stops at the first hit, which the shared-history argument
/// makes the newest common sample.
#[test]
fn split_takes_the_newest_hit() {
    let path = path(10);
    let locator = sample(&path); // [0, 1, 2, 4, 8, 9]
    let known = path[3..].to_vec(); // this side forked 3 back

    let at = split(&locator, &known);
    assert_eq!(at, Some(path[4]), "offset 4 is the newest common sample");
}

/// A shuffled locator changes nothing: the split is decided by the
/// path's own order, so a puller cannot steer it.
#[test]
fn split_ignores_locator_order() {
    let path = path(10);
    let mut locator = sample(&path);
    locator.reverse();
    let known = path[3..].to_vec();

    assert_eq!(split(&locator, &known), Some(path[4]));
}

#[test]
fn split_finds_nothing_in_disjoint_histories() {
    let locator = sample(&path(10));
    let foreign = path(20)[10..].to_vec();
    assert_eq!(split(&locator, &foreign), None);
    assert_eq!(split(&locator, &vec![]), None, "an empty walk shares nothing");
}

// ---- messages ------------------------------------------------------------

/// `a2` (map, 2 pairs): version, then the head as a bare byte string.
#[test]
fn hello_pins_its_encoding() {
    let hello = Hello {
        version: 1,
        head: d(0xcd),
    };
    assert_wire(
        &Packet::Hello(hello),
        &format!("a101a20101025820{}", "cd".repeat(32)),
    );
}

/// Every variant wraps as a one-pair map under its integer tag.
#[test]
fn message_variants_pin_their_tags() {
    assert_wire(
        &Packet::FindSplit(FindSplit {
            locator: vec![d(0x11), d(0x22)],
        }),
        &format!("a102a101825820{}5820{}", "11".repeat(32), "22".repeat(32)),
    );
    assert_wire(
        &Packet::Split(Split { at: d(0x33) }),
        &format!("a103a1015820{}", "33".repeat(32)),
    );
    assert_wire(&Packet::NoSplit(NoSplit {}), "a104a0");
    assert_wire(&Packet::CaughtUp(CaughtUp {}), "a106a0");
}

/// An envelope inside a batch is byte-for-byte the envelope's own
/// encoding; nothing wraps it.
#[test]
fn envelopes_carry_ledger_wire_encodings() {
    let encoding = unhex("83010203");
    assert_wire(
        &Packet::of_batch(&vec![encoding.clone()]),
        &format!("a105a10181{}", hex(&encoding)),
    );
    assert_wire(&Packet::of_batch(&encodings()), "a105a10182830102036161");
}

/// A batch is read only where its bytes are as many items as it counts, and
/// nothing else.
#[test]
fn a_batch_holds_what_it_counts() {
    let read = |count: &str, encodings: &str| {
        Packet::decode(&unhex(&format!("a105a101{count}{encodings}")))
    };
    // An `Init` envelope, a tag, a string, a float, a simple value.
    for item in [
        "a301a101a101a101a002a00380",
        "c11a514b67b0",
        "43010203",
        "fb3ff199999999999a",
        "f8ff",
        "f6",
        "3903e7",
    ] {
        let encodings = unhex(item);
        assert_eq!(
            read("81", item),
            Ok(Packet::Envelopes { count: 1, encodings })
        );
        // One too few, one too many, a byte too few, a byte too many.
        assert_eq!(read("82", item), Err(WireError), "{item}");
        assert_eq!(read("80", item), Err(WireError), "{item}");
        assert_eq!(read("81", &item[..item.len() - 2]), Err(WireError), "{item}");
        assert_eq!(read("81", &format!("{item}00")), Err(WireError), "{item}");
    }
    assert_eq!(
        read("80", ""),
        Ok(Packet::Envelopes { count: 0, encodings: vec![] })
    );
    // A reserved head, an item without a length, a break, a simple value
    // that fits its head, a map that lacks a value, lengths beyond all bytes.
    for bad in [
        "1c",
        "9f01ff",
        "ff",
        "f818",
        "a101",
        "9bffffffffffffffff",
        "bbffffffffffffffff",
        "5bffffffffffffffff",
    ] {
        assert_eq!(read("81", bad), Err(WireError), "{bad}");
    }
    assert_eq!(read("9bffffffffffffffff", "00"), Err(WireError));
}

#[test]
fn unknown_tags_and_padded_maps_are_rejected() {
    // Tag 7 names no message.
    assert!(Packet::decode(&unhex("a107a0")).is_err());
    // A two-pair map is not a tagged message, even with a valid first
    // pair: {4: {}, 4: {}}.
    assert!(Packet::decode(&unhex("a204a004a0")).is_err());
    // The empty map carries no tag at all.
    assert!(Packet::decode(&unhex("a0")).is_err());
}

/// Numbers are spelled in as few bytes as will do, and no other spelling is
/// read.
#[test]
fn numbers_have_one_spelling() {
    for (version, spelled) in [
        (23, "17"),
        (24, "1818"),
        (255, "18ff"),
        (256, "190100"),
        (65_536, "1a00010000"),
        (u32::MAX, "1affffffff"),
    ] {
        assert_wire(
            &Packet::Hello(Hello {
                version,
                head: d(0),
            }),
            &format!("a101a201{spelled}025820{}", "00".repeat(32)),
        );
    }
    for padded in ["1801", "190001", "1a00000001", "1b0000000000000001", "1b0000000100000000"] {
        let bytes = unhex(&format!("a101a201{padded}025820{}", "00".repeat(32)));
        assert_eq!(Packet::decode(&bytes), Err(WireError), "{padded}");
    }
    // A byte too many, and one too few.
    let whole = Packet::Split(Split { at: d(0x33) }).encode();
    let mut longer = whole.clone();
    longer.push(0);
    assert!(Packet::decode(&longer).is_err());
    assert!(Packet::decode(&whole[..whole.len() - 1].to_vec()).is_err());
}

/// `MessageKind` names every variant, which breach diagnostics print.
#[test]
fn message_kinds_name_their_variants() {
    assert_eq!(Message::NoSplit(NoSplit {}).kind(), MessageKind::NoSplit);
    assert_eq!(MessageKind::FindSplit.text(), "FindSplit");
    assert_eq!(Message::CaughtUp(CaughtUp {}).kind().text(), "CaughtUp");
}

/// A digest is spelled in lowercase hex, the way it is shown everywhere.
#[test]
fn a_digest_is_spelled_in_hex() {
    let envelope = set(d(0xab), "a", "1");
    assert_eq!(envelope.digest(), Ok(d(0xac)));
    assert_eq!(d(0xac).to_hex(), "ac".repeat(32));
}

// ---- runs ----------------------------------------------------------------

#[test]
fn a_run_is_followed_to_its_tip() {
    let one = set(d(0x10), "a", "1");
    let two = set(d(0x11), "b", "2");
    let stray = set(d(0x66), "c", "3");
    assert_eq!(follow_run(d(0x10), &vec![]), Ok(d(0x10)));
    assert_eq!(
        follow_run(d(0x10), &vec![one.clone(), two.clone()]),
        Ok(d(0x12))
    );
    assert_eq!(
        follow_run(d(0x10), &vec![one.clone(), stray]),
        Err(Breach::BrokenRun { expected: d(0x11) })
    );
    let mut blank = two;
    blank.digest = None;
    assert_eq!(
        follow_run(d(0x10), &vec![one, blank]),
        Err(Breach::Undigestable(WireError))
    );
}

#[test]
fn breaches_say_what_was_wrong() {
    assert_eq!(
        Breach::Unexpected {
            got: MessageKind::CaughtUp,
            expected: "Hello",
        }
        .text(),
        "unexpected CaughtUp while awaiting Hello"
    );
    assert_eq!(Breach::EmptyBatch.text(), "an empty envelope batch");
}

// ---- traces --------------------------------------------------------------

#[test]
fn inputs_summarize_without_payloads() {
    let hello = Input::Message(Message::Hello(Hello {
        version: 1,
        head: d(0xab),
    }));
    assert_eq!(input(&hello), "Hello(v1, head abababab)");

    let find = Input::Message(Message::FindSplit(FindSplit {
        locator: vec![d(1), d(2)],
    }));
    assert_eq!(input(&find), "FindSplit(2 entries)");

    assert_eq!(input(&Input::Ingested), "Ingested");
    assert_eq!(
        input(&Input::Answer(Answer::SplitPoint(None))),
        "SplitPoint(none)"
    );
}

#[test]
fn effects_join_in_order() {
    let both: Vec<Effect<PullOutcome>> = vec![
        Effect::Send(Message::Split(Split { at: d(0xcd) })),
        Effect::Ask(Query::Segment { after: d(0xcd) }),
    ];
    assert_eq!(
        effects(&both),
        "Send(Split(cdcdcdcd)), Ask(Segment(after cdcdcdcd))"
    );

    assert_eq!(effects::<PullOutcome>(&vec![]), "none");
    assert_eq!(
        effects(&vec![Effect::<PullOutcome>::Violation(Breach::EmptyBatch)]),
        "Violation(an empty envelope batch)"
    );
}

#[test]
fn every_kind_of_step_is_traced() {
    assert_eq!(
        input(&Input::Message(Message::Envelopes(Envelopes {
            batch: vec![set(d(1), "a", "1")],
        }))),
        "Envelopes(1)"
    );
    assert_eq!(input(&Input::Answer(Answer::Contains(true))), "Contains(true)");
    assert_eq!(
        effects(&vec![Effect::Done(ServeOutcome::Served {
            head: d(0xab),
            sent: 3,
        })]),
        "Done(Served { head: abababab, sent: 3 })"
    );
}
