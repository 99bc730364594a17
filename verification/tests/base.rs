//! Digests, paths, sorted collections, and the errors that name them.

use lotus::digest::{EnvelopeDigest, HexError, KeyId};
use lotus::msg::{EmptyKey, NamespaceKey};
use lotus::order::{SortedMap, SortedSet};
use lotus::state::error::{ApplyError, Error, TrustedKeysError, ValueError};
use lotus::state::nodes::{read_address, AddrError, EndpointAddr, TransportAddr};
use lotus::state::rules::{parse_min_keep, parse_threshold};
use lotus::subkey::{EmptyPath, Subkey, SubkeyPath};
use lotus::text::{read_signed, read_unsigned, text_less, trim};
use lotus::value::Value;

fn key(k: &str) -> Subkey {
    Subkey::Key(k.to_string())
}

fn table(entries: impl IntoIterator<Item = (&'static str, Value)>) -> Value {
    let mut fields: SortedMap<String, Value> = SortedMap::new();
    for (name, value) in entries {
        fields.insert(name.to_string(), value);
    }
    Value::Table(fields)
}

#[test]
fn a_key_id_reads_back_from_hex() {
    let id = KeyId::from_bytes([0x5c; 32]);
    assert_eq!(id.to_hex(), "5c".repeat(32));
    assert_eq!(KeyId::from_hex(&id.to_hex()), Ok(id));
    assert_eq!(KeyId::from_hex(&"5C".repeat(32)), Ok(id));
    assert_eq!(KeyId::from_hex("5c"), Err(HexError::Length));
    assert_eq!(KeyId::from_hex(&"5g".repeat(32)), Err(HexError::Digit));
    assert!(EnvelopeDigest::from_bytes([1; 32]) < EnvelopeDigest::from_bytes([2; 32]));
}

#[test]
fn a_path_reads_back_as_it_is_written() {
    for (text, segments) in [
        ("host", vec![key("host")]),
        (
            "servers[0].host",
            vec![key("servers"), Subkey::Index(0), key("host")],
        ),
        ("[7]", vec![Subkey::Index(7)]),
        ("['a.b']", vec![key("a.b")]),
        ("a['b.c'].d", vec![key("a"), key("b.c"), key("d")]),
        ("[4294967295]", vec![Subkey::Index(u32::MAX)]),
        ("a b", vec![key("a b")]),
    ] {
        let path = SubkeyPath::parse(text).unwrap();
        assert_eq!(path.segments, segments, "{text}");
        assert_eq!(path.text(), text);
    }
    // Whatever the steps, what they spell reads back.
    for steps in [
        vec![key("it's"), key("")],
        vec![key("7"), Subkey::Index(7)],
        vec![key("a[0]"), key("\\")],
    ] {
        let path = SubkeyPath::try_new(steps).unwrap();
        assert_eq!(SubkeyPath::parse(&path.text()), Ok(path));
    }
    for bad in ["", "a..b", "a.", ".a", "a[", "a[x]", "a[0", "[4294967296]", "['a'", "a[]"] {
        assert!(SubkeyPath::parse(bad).is_err(), "{bad}");
    }
    assert_eq!(SubkeyPath::try_new(vec![]), Err(EmptyPath));
    assert_eq!(NamespaceKey::try_new(""), Err(EmptyKey));
}

#[test]
fn sorted_collections_keep_their_order() {
    let mut map: SortedMap<String, i64> = SortedMap::new();
    for (k, v) in [("b", 2), ("a", 1), ("b", 3), ("ab", 4)] {
        map.insert(k.to_string(), v);
    }
    let entries: Vec<(&str, i64)> = map.entries.iter().map(|(k, v)| (k.as_str(), *v)).collect();
    assert_eq!(entries, [("a", 1), ("ab", 4), ("b", 3)]);
    assert_eq!(map.remove(&"a".to_string()), Some(1));
    assert_eq!(map.remove(&"a".to_string()), None);
    assert_eq!(map.get(&"b".to_string()), Some(&3));
    let mut set: SortedSet<i64> = SortedSet::new();
    for n in [3, -1, 3] {
        set.insert(n);
    }
    assert_eq!((set.len(), *set.at(0), *set.at(1)), (2, -1, 3));
    set.remove(&3);
    assert!(!set.contains(&3) && set.contains(&-1));
}

#[test]
fn numbers_are_read_as_std_reads_them() {
    let chars = |text: &str| text.chars().collect::<Vec<char>>();
    for text in [
        "0", "+7", "-7", "007", "", "+", "-", "--1", "1x", " 1", "9223372036854775807",
        "9223372036854775808", "-9223372036854775808", "-9223372036854775809",
        "18446744073709551615", "18446744073709551616", "٣",
    ] {
        assert_eq!(read_signed(&chars(text)), text.parse::<i64>().ok(), "{text}");
        assert_eq!(
            read_unsigned(&chars(text), u64::MAX),
            text.parse::<u64>().ok(),
            "{text}"
        );
    }
    for (a, b) in [("a", "b"), ("a", "ab"), ("b", "ab"), ("é", "z"), ("", "a"), ("a", "a")] {
        assert_eq!(text_less(a, b), a < b, "{a} {b}");
    }
    for text in ["", "  a b ", "\t\u{a0}x\u{3000}", "\u{200b}"] {
        assert_eq!(trim(text), chars(text.trim()), "{text:?}");
    }
}

#[test]
fn thresholds_are_whole_numbers_in_range() {
    assert_eq!(parse_min_keep(&Value::Int(1)), Some(1));
    assert_eq!(parse_min_keep(&Value::Int(0)), None);
    assert_eq!(parse_threshold(&Value::Int(0)), Some(0));
    assert_eq!(
        parse_threshold(&Value::Int(i64::from(u32::MAX))),
        Some(u32::MAX)
    );
    assert_eq!(parse_threshold(&Value::Int(-1)), None);
    assert_eq!(parse_threshold(&Value::Bool(true)), None);
}

/// An address is read the way iroh reads its parts, and held as iroh writes
/// them back.
#[test]
fn an_address_is_read_as_iroh_reads_it() {
    let secret = iroh::SecretKey::from_bytes(&[7; 32]);
    let transport = |kind: &str, addr: &str| {
        table([
            ("type", Value::String(kind.to_string())),
            ("addr", Value::String(addr.to_string())),
        ])
    };
    let address = |addrs: Vec<Value>| {
        table([
            ("endpoint_id", Value::String(secret.public().to_z32())),
            ("addrs", Value::Array(addrs)),
        ])
    };
    assert_eq!(
        read_address(&address(vec![
            transport("ip", "[2001:db8:0:0::1]:443"),
            transport("relay", "https://relay.example"),
        ])),
        Ok(EndpointAddr {
            id: *secret.public().as_bytes(),
            addrs: vec![
                TransportAddr::Ip("[2001:db8::1]:443".to_string()),
                TransportAddr::Relay(
                    "https://relay.example"
                        .parse::<iroh::RelayUrl>()
                        .unwrap()
                        .to_string()
                ),
            ],
        })
    );
    // Listed twice, in two spellings, is listed once.
    assert_eq!(
        read_address(&address(vec![
            transport("ip", "[2001:db8:0:0::1]:443"),
            transport("ip", "[2001:db8::1]:443"),
        ]))
        .unwrap()
        .addrs,
        vec![TransportAddr::Ip("[2001:db8::1]:443".to_string())]
    );
    assert_eq!(
        read_address(&address(vec![transport("relay", "not a url")])),
        Err(AddrError::BadAddr {
            kind: "relay".to_string(),
            text: "not a url".to_string(),
        })
    );
    assert_eq!(
        read_address(&address(vec![transport("carrier pigeon", "coo")])),
        Err(AddrError::BadAddr {
            kind: "carrier pigeon".to_string(),
            text: "coo".to_string(),
        })
    );
    assert_eq!(
        read_address(&table([(
            "endpoint_id",
            Value::String(secret.public().to_z32())
        )])),
        Err(AddrError::MissingField("addrs"))
    );
}

#[test]
fn failures_say_what_went_wrong() {
    let one = EnvelopeDigest::from_bytes([1; 32]);
    let unknown: Error<()> = Error::UnknownParent(one);
    assert!(unknown.text().contains(&one.to_hex()), "{}", unknown.text());
    assert!(unknown.source().is_none());
    let weight: ApplyError<()> = ApplyError::InsufficientWeight {
        required: 3,
        found: 1,
    };
    let said = weight.text();
    assert!(said.contains('3') && said.contains('1'), "{said}");
    let wrapped: Error<()> = Error::Apply(weight);
    assert!(wrapped.source().is_some());
    let keys = ValueError::TrustedKeys(TrustedKeysError::NotAKey {
        id: "id".to_string(),
    });
    assert!(keys.source().is_some());
    assert!(ValueError::MinKeepMinutes.source().is_none());
}
