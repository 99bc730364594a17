//! The chain page.

use lotus::digest::{EnvelopeDigest, KeyId};
use lotus::envelope::{Envelope, Signature, VerificationStatus};
use lotus::msg::{
    AmendNamespaceKey, AmendOp, FullCheckpoint, IncrementDecrement, InitMsg, Match, Msg, Namespace,
    NamespaceKey, Namespaces, Predicate, SetNamespaceKey,
};
use lotus::storage::log::{Span, StoredAt};
use lotus::subkey::SubkeyPath;
use lotus::value::Value;
use lotus::web::chain::{
    anchor, clamp, detail, pane, stanza, summary, Bit, ChainRange, EnvelopeFrame, Field, Reference,
    Stored,
};
use lotus::web::walk::Walk;

fn digest(byte: u8) -> EnvelopeDigest {
    EnvelopeDigest::from_bytes([byte; 32])
}

fn key(text: &str) -> NamespaceKey {
    NamespaceKey::try_new(text).unwrap()
}

fn path(text: &str) -> SubkeyPath {
    SubkeyPath::parse(text).unwrap()
}

fn genesis() -> Msg {
    let mut namespaces = Namespaces::new();
    namespaces.insert(
        key("cfg"),
        Namespace {
            value: Value::Int(1),
        },
    );
    Msg::Init(InitMsg {
        state: FullCheckpoint { namespaces },
    })
}

fn set(prev: u8, value: Option<Value>) -> Msg {
    Msg::SetNamespaceKey(SetNamespaceKey {
        prev: digest(prev),
        key: key("a b"),
        path: path("servers[0]"),
        value,
    })
}

fn amend(op: AmendOp) -> Msg {
    Msg::AmendNamespaceKey(AmendNamespaceKey {
        prev: digest(1),
        key: key("cfg"),
        path: None,
        op,
    })
}

fn frame(byte: u8, msg: Msg) -> EnvelopeFrame {
    EnvelopeFrame {
        digest: digest(byte),
        envelope: Envelope::new(msg, digest(byte)),
        verification: VerificationStatus::Unchecked,
        stored_at: None,
    }
}

fn bit(text: &str, url: Option<&str>) -> Bit {
    Bit {
        text: text.to_string(),
        url: url.map(str::to_string),
    }
}

/// The text of a summary, and what its linked parts lead to.
fn said(msg: &Msg) -> (String, Vec<(String, String)>) {
    let bits = summary(msg);
    let text = bits.iter().map(|bit| bit.text.as_str()).collect();
    let links = bits
        .into_iter()
        .filter_map(|bit| bit.url.map(|url| (bit.text, url)))
        .collect();
    (text, links)
}

#[test]
fn a_summary_links_the_namespace_and_the_path() {
    let (text, links) = said(&set(1, Some(Value::Int(2))));
    assert_eq!(text, "set servers[0] in namespace a b");
    assert_eq!(
        links,
        [
            (
                "servers[0]".to_string(),
                "/ns/a%20b/servers%5B0%5D".to_string()
            ),
            ("a b".to_string(), "/ns/a%20b".to_string()),
        ]
    );
    let (text, links) = said(&genesis());
    assert_eq!((text.as_str(), links.len()), ("init, 1 namespace", 0));
    let (text, _) = said(&amend(AmendOp::IncrementDecrement(
        IncrementDecrement::new(-3),
    )));
    assert_eq!(text, "add -3 to namespace cfg");
    assert!(summary(&set(1, None)).contains(&bit("servers[0]", Some("/ns/a%20b/servers%5B0%5D"))));
}

#[test]
fn detail_shows_what_a_summary_leaves_out() {
    let field = |label: &'static str, lines: &[&str]| {
        Some(Field {
            label,
            lines: lines.iter().map(|line| line.to_string()).collect(),
        })
    };
    assert_eq!(detail(&genesis()), field("namespaces", &["cfg = 1"]));
    assert_eq!(
        detail(&set(1, Some(Value::Bool(true)))),
        field("value", &["true"])
    );
    assert_eq!(detail(&set(1, None)), None);
    assert_eq!(
        detail(&amend(AmendOp::AppendEntry(Value::String("x".to_string())))),
        field("entry", &["\"x\""])
    );
    assert_eq!(
        detail(&amend(AmendOp::DeleteMatching(
            Predicate::try_new(vec![
                Match::at(path("host"), Value::String("a".to_string())),
                Match::entry(Value::Int(3)),
            ])
            .unwrap()
        ))),
        field("matching", &["host = \"a\"", "entry = 3"])
    );
    assert_eq!(
        clamp(&IncrementDecrement::new(1).with_min(0).with_max(9)),
        field("clamped", &["at least 0, at most 9"])
    );
    assert_eq!(clamp(&IncrementDecrement::new(1)), None);
}

#[test]
fn a_stanza_holds_what_is_known_of_an_envelope() {
    let mut second = frame(2, set(1, Some(Value::Int(2))));
    second.verification = VerificationStatus::AllMatched { total_weight: 5 };
    second.stored_at = StoredAt::from_timestamp_millis(1_700_000_000_123);
    second
        .envelope
        .signatures
        .insert(KeyId::from_bytes([7; 32]), Signature { verifies: true });
    let frames = vec![frame(1, genesis()), second];
    let range = ChainRange {
        root: digest(1),
        head: digest(2),
    };

    let shown = stanza(&frames[1], &range, &frames);
    assert_eq!(shown.anchor, "e-020202020202");
    assert_eq!(shown.anchor, anchor(&digest(2)));
    assert_eq!(shown.digest, "02".repeat(32));
    assert!(shown.head && !shown.root);
    assert_eq!(
        shown.prev,
        Some(Reference {
            short: "010101010101".to_string(),
            full: "01".repeat(32),
            anchor: Some("e-010101010101".to_string()),
        })
    );
    assert_eq!(shown.status, "all matched, weight 5");
    assert_eq!(shown.signers, ["07".repeat(32)]);
    assert_eq!(shown.timestamps, 0);
    assert_eq!(
        shown.stored,
        Some(Stored {
            datetime: "2023-11-14T22:13:20.123Z".to_string(),
            text: "2023-11-14 22:13:20.123 UTC".to_string(),
        })
    );

    let first = stanza(&frames[0], &range, &frames);
    assert!(first.root && !first.head);
    assert_eq!((first.prev, first.stored), (None, None));

    // What the page does not show has no stanza to lead to.
    let alone = stanza(&frames[1], &range, &vec![]);
    assert_eq!(alone.prev.unwrap().anchor, None);
}

#[test]
fn the_page_shows_the_newest_first() {
    let frames = vec![frame(1, genesis()), frame(2, set(1, None))];
    let range = ChainRange {
        root: digest(1),
        head: digest(2),
    };
    let walk = Walk {
        limit: Some(100),
        since: Some(Span::from_secs(900)),
    };
    let page = pane(&walk, &range, &frames);
    assert_eq!(page.count, "2 envelopes");
    assert_eq!(page.short_head, "020202020202");
    assert_eq!(page.head, "02".repeat(32));
    assert_eq!(page.limit, Some(100));
    assert_eq!(page.since.as_deref(), Some("15m"));
    assert_eq!(page.note, None);
    assert_eq!(
        page.stanzas
            .iter()
            .map(|stanza| stanza.digest.as_str())
            .collect::<Vec<&str>>(),
        ["02".repeat(32), "01".repeat(32)]
    );

    let all = Walk {
        limit: None,
        since: None,
    };
    let newest = pane(&all, &range, &vec![frame(2, set(1, None))]);
    assert_eq!(newest.count, "1 envelope");
    assert_eq!(
        newest.note,
        Some("Older envelopes are held but not shown; widen the bounds to see back to the root.")
    );
    assert_eq!(
        pane(&all, &range, &vec![]).note,
        Some("Nothing in this window.")
    );
}
