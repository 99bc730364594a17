//! The pages: what they show, what a form asks for, and where it lands.

use lotus::digest::{EnvelopeDigest, KeyId};
use lotus::msg::NamespaceKey;
use lotus::order::SortedMap;
use lotus::storage::log::Span;
use lotus::subkey::{Subkey, SubkeyPath};
use lotus::value::{Key, PublicKey, Value};
use lotus::web::error::{DaemonError, Error};
use lotus::web::frame::{path_of, Frame};
use lotus::web::json::{holds_key, parse, preview, pretty, ParseError};
use lotus::web::location::Location;
use lotus::web::view::{
    self, Body, Deletion, Editor, Link, NamespaceEntry, Row, SideRow, Trail, ValueAt,
};
use lotus::web::walk::{parse_window, window, Walk, DEFAULT_LIMIT};
use lotus::web::write::{
    create, increment, insert, landed, notice, remove, replace, Ask, Landing,
};
use percent_encoding::{percent_decode_str, utf8_percent_encode, AsciiSet, CONTROLS};

fn chars(text: &str) -> Vec<char> {
    text.chars().collect()
}

fn text(text: &str) -> Value {
    Value::String(text.to_string())
}

fn table(entries: impl IntoIterator<Item = (&'static str, Value)>) -> Value {
    let mut fields: SortedMap<String, Value> = SortedMap::new();
    for (name, value) in entries {
        fields.insert(name.to_string(), value);
    }
    Value::Table(fields)
}

fn key(text: &str) -> NamespaceKey {
    NamespaceKey::try_new(text).unwrap()
}

fn at(namespace: &str, path: &str) -> Location {
    Location::new(key(namespace), Some(SubkeyPath::parse(path).unwrap()))
}

fn root(namespace: &str) -> Location {
    Location::namespace(key(namespace))
}

fn trusted() -> Value {
    Value::Key(Key::new(
        PublicKey::Ed25519([0xab; 32]),
        KeyId::from_bytes([1; 32]),
        3,
    ))
}

fn cfg() -> Value {
    table([
        ("host", text("a.example")),
        ("port", Value::Int(443)),
        ("servers", Value::Array(vec![text("s1"), text("s2")])),
    ])
}

// ---- the bounds of a walk ------------------------------------------------

#[test]
fn a_missing_limit_shows_the_newest_and_an_empty_one_shows_all() {
    assert_eq!(Walk::parse(None, None).unwrap().limit, Some(DEFAULT_LIMIT));
    assert_eq!(Walk::parse(Some(""), None).unwrap().limit, None);
    assert_eq!(Walk::parse(Some(" 7 "), None).unwrap().limit, Some(7));
    assert!(Walk::parse(Some("seven"), None).is_err());
    assert!(Walk::parse(Some("-1"), None).is_err());
}

#[test]
fn a_window_reads_as_lotusctl_reads_it() {
    let walk = Walk::parse(None, Some("15m")).unwrap();
    assert_eq!(walk.since, Some(Span::from_secs(900)));
    assert_eq!(walk.request().since(), Some(Span::from_secs(900)));
    assert_eq!(Walk::parse(None, Some("")).unwrap().since, None);
    for bad in ["", "m5", "5x", "1.5h"] {
        assert!(
            parse_window(&chars(bad)).is_err(),
            "`{bad}` should not parse"
        );
    }
}

#[test]
fn a_window_shows_back_in_its_largest_whole_unit() {
    assert_eq!(window(Span::from_secs(600)), "10m");
    assert_eq!(window(Span::from_secs(7200)), "2h");
    assert_eq!(window(Span::from_secs(172_800)), "2d");
    assert_eq!(window(Span::from_secs(90)), "90s");
}

#[test]
fn every_unit_of_a_window_is_read() {
    assert_eq!(parse_window(&chars("250ms")), Ok(Span::from_millis(250)));
    assert_eq!(parse_window(&chars("90")), Ok(Span::from_secs(90)));
    assert_eq!(parse_window(&chars("90s")), Ok(Span::from_secs(90)));
    assert_eq!(parse_window(&chars("2h")), Ok(Span::from_secs(7200)));
    assert_eq!(parse_window(&chars("7d")), Ok(Span::from_secs(604_800)));
    assert_eq!(
        parse_window(&chars("5x")),
        Err("`x` is not a unit; use ms, s, m, h or d".to_string())
    );
    assert_eq!(
        parse_window(&chars("m5")),
        Err("`m5` is not a window; write one like 90s, 15m, 2h or 7d".to_string())
    );
    assert_eq!(
        parse_window(&chars("18446744073709551615d")),
        Err("`18446744073709551615d` is a longer window than any log covers".to_string())
    );
    // One more than a count can be is no window at all.
    assert_eq!(
        parse_window(&chars("18446744073709551616")),
        Err(
            "`18446744073709551616` is not a window; write one like 90s, 15m, 2h or 7d".to_string()
        )
    );
}

#[test]
fn a_window_shown_reads_back() {
    for secs in [1, 59, 60, 61, 3600, 5400, 86_400, 604_800] {
        let shown = window(Span::from_secs(secs));
        assert_eq!(parse_window(&chars(&shown)), Ok(Span::from_secs(secs)));
    }
    assert_eq!(window(Span::from_millis(900)), "0s");
}

#[test]
fn a_walk_says_what_it_cannot_read() {
    assert_eq!(
        Walk::parse(Some(" seven "), None),
        Err(Error::BadRequest(
            "`seven` is not a number of envelopes".to_string()
        ))
    );
    // The limit is read before the window.
    assert_eq!(
        Walk::parse(Some("-1"), Some("5x")),
        Err(Error::BadRequest(
            "`-1` is not a number of envelopes".to_string()
        ))
    );
    assert_eq!(
        Walk::parse(Some("+4294967295"), Some(" 1h ")),
        Ok(Walk {
            limit: Some(u32::MAX),
            since: Some(Span::from_secs(3600)),
        })
    );
    assert!(Walk::parse(Some("4294967296"), None).is_err());
    let request = Walk::parse(Some(""), None).unwrap().request();
    assert_eq!((request.limit(), request.since()), (None, None));
}

// ---- how much of a page a request wants ----------------------------------

#[test]
fn a_plain_navigation_gets_the_document() {
    assert_eq!(Frame::from_headers(None, None, None), Frame::Document);
}

#[test]
fn an_htmx_request_gets_the_pane() {
    assert_eq!(
        Frame::from_headers(Some("true"), None, None),
        Frame::Pane { current: None }
    );
}

#[test]
fn the_pane_knows_where_the_browser_is() {
    let frame = Frame::from_headers(
        Some("true"),
        None,
        Some("http://localhost:8080/ns/cfg?x=1#top"),
    );
    assert!(frame.shows("/ns/cfg"));
    assert!(!frame.shows("/ns/cfg/host"));
    assert!(!Frame::Document.shows("/ns/cfg"));
}

/// htmx restores history by fetching the page whole and picking the
/// body out of it, so a fragment would leave it nothing to pick.
#[test]
fn a_history_restore_gets_the_document() {
    assert_eq!(
        Frame::from_headers(Some("true"), Some("true"), None),
        Frame::Document
    );
}

#[test]
fn a_url_gives_up_its_path() {
    assert_eq!(path_of("http://h/a/b?c#d"), Some("/a/b".to_string()));
    assert_eq!(path_of("http://h"), None);
    assert_eq!(path_of("/a#d?c"), Some("/a".to_string()));
    assert_eq!(path_of("http://h?x=/y"), Some("/y".to_string()));
    assert_eq!(
        Frame::from_headers(Some("TRUE"), None, None),
        Frame::Document
    );
    assert_eq!(
        Frame::from_headers(Some("true"), Some("false"), Some("nowhere")),
        Frame::Pane { current: None }
    );
}

// ---- values as JSON ------------------------------------------------------

#[test]
fn plain_json_reads_as_a_value() {
    assert_eq!(parse("\"hi\"").unwrap(), text("hi"));
    assert_eq!(parse(" 7 ").unwrap(), Value::Int(7));
    assert_eq!(parse("true").unwrap(), Value::Bool(true));
    assert_eq!(
        parse("{\"a\": [1, \"b\"]}").unwrap(),
        table([("a", Value::Array(vec![Value::Int(1), text("b")]))])
    );
}

#[test]
fn what_the_ledger_cannot_hold_is_refused() {
    assert!(matches!(parse("null"), Err(ParseError::Null)));
    assert!(matches!(parse("1.5"), Err(ParseError::NotInteger(_))));
    assert!(matches!(parse("hello"), Err(ParseError::Syntax(_))));
}

#[test]
fn a_preview_is_cut_on_a_character_boundary() {
    let value = text("ünïcödé text that runs on");
    assert_eq!(preview(&value, 6), "\"ünïcö…");
    assert_eq!(preview(&Value::Int(7), 6), "7");
}

#[test]
fn a_value_round_trips_through_its_text() {
    let value = table([("host", text("a")), ("port", Value::Int(443))]);
    assert_eq!(parse(&pretty(&value)).unwrap(), value);
}

#[test]
fn a_refused_text_says_why() {
    assert_eq!(
        parse("null").unwrap_err().text(),
        "null is not a value the ledger holds"
    );
    assert_eq!(
        parse("[1.5]").unwrap_err().text(),
        "1.5 is not a whole number an i64 holds"
    );
    assert_eq!(
        parse("9223372036854775808").unwrap_err(),
        ParseError::NotInteger("9223372036854775808".to_string())
    );
    assert_eq!(
        parse("-9223372036854775808").unwrap(),
        Value::Int(i64::MIN)
    );
    let syntax = parse("hello").unwrap_err().text();
    let said = serde_json::from_str::<serde_json::Value>("hello")
        .unwrap_err()
        .to_string();
    assert_eq!(syntax, format!("not JSON: {said}"));
}

/// The first thing wrong is the one reported, and a name written twice
/// keeps what was written last.
#[test]
fn json_is_read_in_order() {
    assert_eq!(
        parse("[1, null, 1.5]").unwrap_err(),
        ParseError::Null
    );
    assert_eq!(
        parse("{\"a\": 1, \"a\": 2}").unwrap(),
        table([("a", Value::Int(2))])
    );
    assert_eq!(
        parse("{\"b\": 1, \"a\": 2}").unwrap(),
        parse("{\"a\": 2, \"b\": 1}").unwrap()
    );
}

#[test]
fn values_are_spelled_as_plain_json() {
    assert_eq!(preview(&cfg(), 200), "{\"host\":\"a.example\",\"port\":443,\"servers\":[\"s1\",\"s2\"]}");
    assert_eq!(
        pretty(&table([("a", Value::Array(vec![Value::Bool(true)]))])),
        "{\n  \"a\": [\n    true\n  ]\n}"
    );
    assert_eq!(preview(&text("a\"b\\c\n"), 200), "\"a\\\"b\\\\c\\n\"");
    assert_eq!(preview(&text("abcdef"), 8), "\"abcdef\"");
    assert_eq!(preview(&text("abcdef"), 7), "\"abcdef…");
    assert_eq!(preview(&text("abcdef"), 0), "…");
}

#[test]
fn a_key_is_found_wherever_it_is_held() {
    assert!(holds_key(&trusted()));
    assert!(holds_key(&table([(
        "a",
        Value::Array(vec![Value::Int(1), trusted()])
    )])));
    assert!(!holds_key(&cfg()));
    assert_eq!(
        preview(&trusted(), 200),
        format!("{{\"key\":{{\"ed25519\":\"{}\",\"weight\":3}}}}", "ab".repeat(32))
    );
}

// ---- locations and their URLs --------------------------------------------

#[test]
fn the_url_spells_the_path_as_the_cli_does() {
    assert_eq!(root("cfg").url(), "/ns/cfg");
    assert_eq!(
        at("cfg", "servers[0].host").url(),
        "/ns/cfg/servers%5B0%5D.host"
    );
    assert_eq!(at("cfg", "['a.b']").url(), "/ns/cfg/%5B%27a.b%27%5D");
    assert_eq!(at("cfg", "a b").url(), "/ns/cfg/a%20b");
    assert_eq!(root("a/b").url(), "/ns/a%2Fb");
}

#[test]
fn a_child_extends_the_path_and_a_parent_shortens_it() {
    let servers = root("cfg").child(Subkey::Key("servers".into()));
    assert_eq!(servers, at("cfg", "servers"));
    assert_eq!(servers.child(Subkey::Index(0)), at("cfg", "servers[0]"));

    assert_eq!(at("cfg", "servers[0]").parent(), Some(at("cfg", "servers")));
    assert_eq!(at("cfg", "servers").parent(), Some(root("cfg")));
    assert_eq!(root("cfg").parent(), None);
}

#[test]
fn crumbs_walk_from_the_namespace_to_here() {
    let crumbs: Vec<Location> = at("cfg", "servers[0].host").crumbs();
    assert_eq!(
        crumbs,
        [
            root("cfg"),
            at("cfg", "servers"),
            at("cfg", "servers[0]"),
            at("cfg", "servers[0].host"),
        ]
    );
    assert_eq!(root("cfg").crumbs(), [root("cfg")]);
}

#[test]
fn the_name_is_the_last_step() {
    assert_eq!(root("cfg").name(), "cfg");
    assert_eq!(at("cfg", "servers[0]").name(), "[0]");
    assert_eq!(at("cfg", "servers[0].host").name(), "host");
}

/// A URL segment is escaped as the percent-encoding crate escapes it, and
/// decodes to what it spells.
#[test]
fn a_segment_is_escaped_as_the_crate_escapes_it() {
    let escaped = b"\"#%&'+/<>?[\\]^`{|}";
    let set: AsciiSet = escaped.iter().fold(CONTROLS.add(b' '), |set, byte| set.add(*byte));
    let set: &'static AsciiSet = Box::leak(Box::new(set));
    let ascii: String = (0..128u8).map(char::from).collect();
    for name in ["a", "a b", "100%", "ünï", "日本", "a/b?c#d", "~x-y_z.w", &ascii] {
        let url = root(name).url();
        let segment = url.strip_prefix("/ns/").unwrap();
        assert_eq!(segment, utf8_percent_encode(name, set).to_string());
        assert_eq!(percent_decode_str(segment).decode_utf8().unwrap(), name);
    }
}

#[test]
fn a_location_reads_from_its_captures() {
    assert_eq!(
        Location::from_captures(Some("cfg"), None),
        Ok(root("cfg"))
    );
    assert_eq!(
        Location::from_captures(Some("cfg"), Some("servers[0].host")),
        Ok(at("cfg", "servers[0].host"))
    );
    assert_eq!(
        Location::from_captures(None, None),
        Err(Error::BadRequest("the route names no namespace".to_string()))
    );
    let Err(Error::BadRequest(why)) = Location::from_captures(Some("cfg"), Some("a..b")) else {
        panic!("a path that names nothing is a bad request");
    };
    assert!(why.starts_with("`a..b` is not a path: "), "{why}");
    let Err(Error::BadRequest(why)) = Location::from_captures(Some(""), None) else {
        panic!("an empty namespace is a bad request");
    };
    assert!(why.starts_with("`` is not a namespace: "), "{why}");
}

#[test]
fn a_location_reads_as_a_person_writes_it() {
    assert_eq!(root("cfg").text(), "cfg");
    assert_eq!(at("cfg", "servers[0]").text(), "cfg › servers[0]");
    assert!(root("cfg").is_root());
    assert!(!at("cfg", "a").is_root());
    assert!(root("cfg").same(&root("cfg")));
    assert!(!root("cfg").same(&at("cfg", "a")));
}

/// Two places never share a URL, and going up undoes going down.
#[test]
fn urls_name_one_place_and_up_undoes_down() {
    let places = [
        root("a"),
        root("a/b"),
        at("a", "b"),
        at("a", "['b.c']"),
        at("a", "b.c"),
        at("a", "[0]"),
        at("a", "['0']"),
    ];
    for (i, one) in places.iter().enumerate() {
        for (j, two) in places.iter().enumerate() {
            assert_eq!(one.url() == two.url(), i == j, "{one:?} and {two:?}");
        }
        let down = one.child(Subkey::Key("x.y".to_string()));
        assert_eq!(down.parent().as_ref(), Some(one));
    }
}

// ---- failures ------------------------------------------------------------

fn daemon_error(rejected: bool, unreachable: bool) -> DaemonError {
    DaemonError {
        rejected,
        unreachable,
        causes: vec!["could not connect".to_string(), "no such file".to_string()],
    }
}

#[test]
fn a_refusal_by_the_chain_is_the_requests_fault() {
    let refused = Error::from_daemon(daemon_error(true, false));
    assert_eq!(
        refused,
        Error::Invalid("could not connect: no such file".to_string())
    );
    assert_eq!(refused.status(), 422);

    let gone = Error::from_daemon(daemon_error(false, true));
    assert_eq!(gone.status(), 502);
    assert_eq!(gone.describe(), "could not connect: no such file");
    assert_eq!(Error::from_daemon(daemon_error(false, false)).status(), 500);
    assert_eq!(Error::BadRequest("no".to_string()).status(), 400);
    assert_eq!(Error::BadRequest("no".to_string()).describe(), "no");
}

// ---- what a form asks for ------------------------------------------------

#[test]
fn forms_ask_for_writes() {
    assert_eq!(
        replace(at("cfg", "host"), "\"b.example\""),
        Ok(Ask::Put(at("cfg", "host"), text("b.example")))
    );
    assert_eq!(
        insert(root("cfg"), Some("tls".to_string()), "true"),
        Ok(Ask::Put(at("cfg", "tls"), Value::Bool(true)))
    );
    assert_eq!(
        insert(at("cfg", "servers"), None, "\"s3\""),
        Ok(Ask::Push(at("cfg", "servers"), text("s3")))
    );
    assert_eq!(
        increment(at("cfg", "port"), " -50 "),
        Ok(Ask::Increment(at("cfg", "port"), -50))
    );
    assert_eq!(
        create(" new ", "{\"a\": 1}"),
        Ok(Ask::Put(root("new"), table([("a", Value::Int(1))])))
    );
    assert_eq!(remove(root("cfg")), Ask::Delete(root("cfg")));
}

#[test]
fn what_a_form_cannot_mean_is_refused() {
    assert_eq!(
        increment(at("cfg", "port"), "1.5"),
        Err(Error::Invalid(
            "`1.5` is not a whole number to add".to_string()
        ))
    );
    assert_eq!(
        replace(root("cfg"), "null"),
        Err(Error::Invalid(
            "null is not a value the ledger holds".to_string()
        ))
    );
    // A name is looked at before the value.
    let Err(Error::Invalid(why)) = create("  ", "null") else {
        panic!("an empty name is refused");
    };
    assert!(why.starts_with("not a namespace name: "), "{why}");
    assert!(matches!(
        insert(root("cfg"), Some("x".to_string()), "oops"),
        Err(Error::Invalid(_))
    ));
}

#[test]
fn a_notice_says_what_a_write_did() {
    let head = EnvelopeDigest::from_bytes([0xab; 32]);
    let said = |ask: &Ask| notice(ask, "extended", &head);
    let moved = "; head extended at abababababab";
    assert_eq!(
        said(&Ask::Put(at("cfg", "host"), Value::Int(1))),
        format!("Wrote cfg › host{moved}")
    );
    assert_eq!(
        said(&Ask::Push(at("cfg", "servers"), Value::Int(1))),
        format!("Appended to cfg › servers{moved}")
    );
    assert_eq!(
        said(&Ask::Increment(at("cfg", "port"), -7)),
        format!("Added -7 to cfg › port{moved}")
    );
    assert_eq!(
        said(&Ask::Delete(root("cfg"))),
        format!("Deleted cfg{moved}")
    );
}

#[test]
fn a_write_lands_where_its_frame_asks() {
    let pane = |current: Option<&str>| Frame::Pane {
        current: current.map(str::to_string),
    };
    let landing = |url: &str, redirect: bool, push: bool| Landing {
        url: url.to_string(),
        redirect,
        push,
    };
    let item = at("cfg", "servers[0]");
    let servers = at("cfg", "servers");
    // Deleting lands on the parent, which is pushed unless shown already.
    assert_eq!(
        landed(&pane(None), Some(&item), item.parent().as_ref()),
        landing("/ns/cfg/servers", false, true)
    );
    assert_eq!(
        landed(
            &pane(Some("/ns/cfg/servers")),
            Some(&item),
            Some(&servers)
        ),
        landing("/ns/cfg/servers", false, false)
    );
    // Writing where the browser stands pushes nothing.
    assert_eq!(
        landed(&pane(None), Some(&servers), Some(&servers)),
        landing("/ns/cfg/servers", false, false)
    );
    // The last of a namespace lands at home.
    assert_eq!(
        landed(&pane(None), Some(&root("cfg")), None),
        landing("/", false, true)
    );
    // A namespace created from home is somewhere new.
    assert_eq!(
        landed(&pane(None), None, Some(&root("new"))),
        landing("/ns/new", false, true)
    );
    // A plain submission is redirected.
    let plain = landed(&Frame::Document, Some(&servers), Some(&servers));
    assert_eq!(plain.url, "/ns/cfg/servers");
    assert!(plain.redirect);
}

// ---- the panes -----------------------------------------------------------

#[test]
fn a_digest_is_shown_in_short() {
    assert_eq!(
        view::short(&EnvelopeDigest::from_bytes([0xab; 32])),
        "abababababab"
    );
    assert_eq!(view::title(&at("cfg", "host")), "cfg › host · lotusweb");
    assert_eq!(view::failure_title(422), "422 · lotusweb");
}

#[test]
fn the_sidebar_marks_where_the_pane_is() {
    let entry = |name: &str| NamespaceEntry {
        key: key(name),
        shape: "map".to_string(),
    };
    let row = |name: &str, url: &str, active: bool, internal: bool| SideRow {
        link: Link {
            url: url.to_string(),
            label: name.to_string(),
        },
        shape: "map".to_string(),
        active,
        internal,
    };
    let listed = vec![entry("_lotus_nodes"), entry("a b"), entry("cfg")];
    assert_eq!(
        view::side_rows(&listed, Some(&key("cfg"))),
        [
            row("_lotus_nodes", "/ns/_lotus_nodes", false, true),
            row("a b", "/ns/a%20b", false, false),
            row("cfg", "/ns/cfg", true, false),
        ]
    );
    assert!(view::side_rows(&listed, None).iter().all(|row| !row.active));
}

#[test]
fn the_trail_links_every_step_but_the_last() {
    assert_eq!(
        view::crumbs(&at("cfg", "servers[1]")),
        Trail {
            before: vec![
                Link {
                    url: "/ns/cfg".to_string(),
                    label: "cfg".to_string(),
                },
                Link {
                    url: "/ns/cfg/servers".to_string(),
                    label: "servers".to_string(),
                },
            ],
            here: "[1]".to_string(),
        }
    );
}

#[test]
fn kinds_say_how_much_there_is() {
    assert_eq!(view::kind(&text("x")), "string");
    assert_eq!(view::kind(&Value::Int(1)), "int");
    assert_eq!(view::kind(&Value::Bool(true)), "bool");
    assert_eq!(view::kind(&trusted()), "trusted key");
    assert_eq!(view::kind(&Value::Array(vec![])), "array · 0");
    assert_eq!(view::kind(&cfg()), "map · 3");
}

#[test]
fn an_editor_is_as_tall_as_its_text_within_bounds() {
    assert_eq!(
        view::editor(None),
        Editor {
            text: String::new(),
            rows: 3
        }
    );
    let four = table([("a", Value::Int(1)), ("b", Value::Int(2))]);
    assert_eq!(view::editor(Some(&four)).rows, 4);
    assert_eq!(view::editor(Some(&four)).text, pretty(&four));
    let tall = Value::Array(vec![Value::Int(0), Value::Int(0)].into_iter().cycle().take(40).collect());
    assert_eq!(view::editor(Some(&tall)).rows, 24);
}

#[test]
fn entries_are_listed_with_a_link_each() {
    let rows = view::entries(&root("cfg"), &cfg());
    assert_eq!(rows.len(), 3);
    assert_eq!(
        rows[0],
        Row {
            link: Link {
                url: "/ns/cfg/host".to_string(),
                label: "host".to_string(),
            },
            kind: "string".to_string(),
            preview: "\"a.example\"".to_string(),
            confirm: "Delete cfg › host?".to_string(),
        }
    );
    assert_eq!(rows[2].kind, "array · 2");
    let items = view::entries(
        &at("cfg", "servers"),
        &Value::Array(vec![text("s1"), text("s2")]),
    );
    assert_eq!(items[1].link.url, "/ns/cfg/servers%5B1%5D");
    assert_eq!(items[1].link.label, "[1]");
}

#[test]
fn a_pane_offers_what_its_value_allows() {
    let head = EnvelopeDigest::from_bytes([0xcd; 32]);
    let pane = |location: &Location, value: Option<Value>| {
        view::value_pane(location, &ValueAt { head, value })
    };

    let map = pane(&root("cfg"), Some(cfg()));
    assert_eq!(map.name, "cfg");
    assert_eq!(map.badge.as_deref(), Some("map · 3"));
    assert_eq!(map.head, "cd".repeat(32));
    assert_eq!(map.short_head, "cdcdcdcdcdcd");
    assert_eq!(map.url, "/ns/cfg");
    let Body::Entries {
        rows,
        keyed,
        replace: whole,
        deletion,
    } = map.body
    else {
        panic!("a map lists its entries");
    };
    assert_eq!(rows.len(), 3);
    assert!(keyed && whole.is_some());
    assert_eq!(
        deletion,
        Deletion {
            confirm: "Delete the namespace cfg and everything in it?".to_string(),
            label: "Delete namespace",
        }
    );

    // A container holding a key is not replaced whole.
    let held = pane(&root("cfg"), Some(Value::Array(vec![trusted()])));
    assert!(matches!(
        held.body,
        Body::Entries {
            keyed: false,
            replace: None,
            ..
        }
    ));

    let integer = pane(&at("cfg", "port"), Some(Value::Int(443)));
    let Body::Leaf {
        editor,
        increments,
        deletion,
    } = integer.body
    else {
        panic!("an integer is a leaf");
    };
    assert_eq!(editor.text, "443");
    assert!(increments);
    assert_eq!(deletion.confirm, "Delete cfg › port?");
    assert_eq!(deletion.label, "Delete");
    assert!(matches!(
        pane(&at("cfg", "host"), Some(text("a"))).body,
        Body::Leaf {
            increments: false,
            ..
        }
    ));
    assert!(matches!(
        pane(&at("cfg", "k"), Some(trusted())).body,
        Body::Key { .. }
    ));

    let missing = pane(&at("cfg", "missing"), None);
    assert_eq!(missing.badge, None);
    assert!(matches!(
        missing.body,
        Body::Missing {
            note: "Nothing is held here.",
            ..
        }
    ));
    assert!(matches!(
        pane(&root("absent"), None).body,
        Body::Missing {
            note: "This namespace does not exist yet.",
            ..
        }
    ));
}
