//! Values, readings of the clock, columns, and rows.

use lotus::digest::{EnvelopeDigest, KeyId};
use lotus::envelope::{Envelope, VerificationStatus};
use lotus::msg::{
    AmendOp, IncrementDecrement, Match, Msg, Namespace, NamespaceKey, Namespaces, Predicate,
    SetNamespace,
};
use lotus::order::{SortedMap, SortedSet};
use lotus::storage::columns::{
    digest_from, key_from, key_ids_from, status_columns, status_from, StatusColumns,
};
use lotus::storage::graph::{child_of, insert_value, kind_from, node, value_of, RowError};
use lotus::storage::log::{Reading, Span, StoredAt, MAX_MILLIS, MIN_MILLIS};
use lotus::storage::rows::{EnvelopeRow, Rows, LEAF, TABLE};
use lotus::storage::sqlite::{
    setup, OpenError, Setup, SqliteStorage, APPLICATION_ID, SCHEMA_VERSION,
};
use lotus::storage::tables::{MemRows, NoMoreNodes};
use lotus::storage::value::{amend_at, kind, meta, resolve, set_at, walk};
use lotus::storage::{NamespaceOp, NodeKind, Resolution, Storage, ValueMeta};
use lotus::subkey::{Subkey, SubkeyPath};
use lotus::value::{Key, PublicKey, Value};

fn digest(byte: u8) -> EnvelopeDigest {
    EnvelopeDigest::from_bytes([byte; 32])
}

fn key(k: &str) -> NamespaceKey {
    NamespaceKey::try_new(k).unwrap()
}

fn sub(k: &str) -> Subkey {
    Subkey::Key(k.to_string())
}

fn text(text: &str) -> Value {
    Value::String(text.to_string())
}

fn table(entries: impl IntoIterator<Item = (&'static str, Value)>) -> Value {
    let mut fields: SortedMap<String, Value> = SortedMap::new();
    for (name, value) in entries {
        fields.insert(name.to_string(), value);
    }
    Value::Table(fields)
}

fn path(segments: impl IntoIterator<Item = Subkey>) -> SubkeyPath {
    SubkeyPath::try_new(segments.into_iter().collect()).unwrap()
}

fn key_value() -> Value {
    Value::Key(Key::new(
        PublicKey::Ed25519([0xab; 32]),
        KeyId::from_bytes([3; 32]),
        1,
    ))
}

// ---- values --------------------------------------------------------------

/// A key is an atom to the walk: it has fields, but no subkey reaches
/// them, so descending into one is a mismatch like stepping through
/// any other leaf.
#[test]
fn a_path_cannot_descend_into_a_key() {
    assert_eq!(kind(&key_value()), NodeKind::Leaf);

    let root = table([("signer", key_value())]);

    assert_eq!(
        resolve(&root, &vec![sub("signer")]),
        Resolution::Node(NodeKind::Leaf),
    );
    assert_eq!(
        resolve(&root, &vec![sub("signer"), sub("weight")]),
        Resolution::Mismatch { depth: 1 },
    );
}

#[test]
fn a_value_is_written_read_and_measured() {
    let mut root = table([
        ("a", table([("b", Value::Int(1))])),
        ("list", Value::Array(vec![Value::Int(1), Value::Int(2)])),
    ]);
    set_at(&mut root, &path([sub("a"), sub("c")]), Some(Value::Int(9)));
    assert_eq!(
        walk(&root, &vec![sub("a"), sub("c")]),
        Some(&Value::Int(9))
    );
    set_at(&mut root, &path([sub("list"), Subkey::Index(0)]), None);
    assert_eq!(
        walk(&root, &vec![sub("list")]),
        Some(&Value::Array(vec![Value::Int(2)]))
    );
    amend_at(
        &mut root,
        &Some(path([sub("fresh")])),
        AmendOp::AppendEntry(Value::Bool(true)),
    );
    assert_eq!(
        meta(&root),
        ValueMeta::Table {
            keys: vec!["a".to_string(), "fresh".to_string(), "list".to_string()]
        }
    );
    assert_eq!(walk(&root, &vec![sub("a"), sub("zzz")]), None);
    assert_eq!(meta(&Value::Int(1)), ValueMeta::Leaf);
}

#[test]
fn an_increment_clamps_or_overflows() {
    assert_eq!(IncrementDecrement::new(3).apply(4), Some(7));
    assert_eq!(IncrementDecrement::new(1).apply(i64::MAX), None);
    assert_eq!(
        IncrementDecrement::new(1).with_max(10).apply(i64::MAX),
        Some(10)
    );
    assert_eq!(IncrementDecrement::new(-1).with_min(5).apply(2), Some(5));
    assert_eq!(IncrementDecrement::new(-1).with_max(5).apply(i64::MIN), None);
}

#[test]
fn a_predicate_holds_where_every_condition_does() {
    let entry = table([("id", text("b")), ("up", Value::Bool(false))]);
    let id = |id: &str| Match::at(path([sub("id")]), text(id));
    let down = || Match::at(path([sub("up")]), Value::Bool(false));
    assert!(Predicate::try_new(vec![]).is_err());
    assert!(Predicate::try_new(vec![id("b"), down()])
        .unwrap()
        .matches(&entry));
    assert!(!Predicate::try_new(vec![id("a"), down()])
        .unwrap()
        .matches(&entry));
    assert!(Match::entry(entry.clone()).matches(&entry));
    assert!(!Match::at(path([sub("nope")]), Value::Int(1)).matches(&entry));
}

// ---- the clock -----------------------------------------------------------

/// A backend writes the number and reads it back, so the number has
/// to be the whole reading — anything the round trip drops is a
/// reading that changes by being stored.
#[test]
fn a_reading_survives_the_number_it_is_stored_as() {
    for at in [
        StoredAt::now(),
        StoredAt::ago(Span::from_secs(1)).unwrap(),
    ] {
        assert_eq!(
            StoredAt::from_timestamp_millis(at.timestamp_millis()),
            Some(at)
        );
        assert_eq!(
            chrono::DateTime::from_timestamp_millis(at.timestamp_millis())
                .unwrap()
                .timestamp_subsec_nanos()
                % 1_000_000,
            0
        );
    }
}

/// Nothing sensible is a hundred thousand years wide, and a window
/// that big means "everything" regardless.
#[test]
fn an_absurd_window_has_no_cutoff() {
    assert!(StoredAt::ago(Span::from_secs(60)).is_some());
    assert_eq!(StoredAt::ago(Span::from_secs(u64::MAX)), None);
}

/// Ordering is what a `since` walk stops on, so it has to follow the
/// clock rather than the encoding.
#[test]
fn readings_order_by_the_clock() {
    let early = StoredAt::from_timestamp_millis(1_000).unwrap();
    let late = StoredAt::from_timestamp_millis(2_000).unwrap();

    assert!(early < late);
    assert!(StoredAt::from_timestamp_millis(-1_000).unwrap() < early);
}

#[test]
fn a_reading_is_written_out_in_utc() {
    let at = StoredAt::from_timestamp_millis(1_700_000_000_123).unwrap();
    assert_eq!(at.text(), "2023-11-14 22:13:20.123");
    assert_eq!(at.rfc3339(), "2023-11-14T22:13:20.123Z");
    let epoch = StoredAt::from_timestamp_millis(0).unwrap();
    assert_eq!(epoch.rfc3339(), "1970-01-01T00:00:00.000Z");
}

/// The ends of what a datetime holds are where `chrono` has them.
#[test]
fn a_datetime_holds_no_more_than_chrono_does() {
    for (edge, beyond) in [(MIN_MILLIS, MIN_MILLIS - 1), (MAX_MILLIS, MAX_MILLIS + 1)] {
        assert!(chrono::DateTime::from_timestamp_millis(edge).is_some());
        assert!(chrono::DateTime::from_timestamp_millis(beyond).is_none());
        assert_eq!(
            StoredAt::from_timestamp_millis(edge).map(|at| at.timestamp_millis()),
            Some(edge)
        );
        assert_eq!(StoredAt::from_timestamp_millis(beyond), None);
    }
    assert_eq!(
        chrono::DateTime::<chrono::Utc>::MIN_UTC.timestamp_millis(),
        MIN_MILLIS
    );
    assert_eq!(
        chrono::DateTime::<chrono::Utc>::MAX_UTC.timestamp_millis(),
        MAX_MILLIS
    );
    let before = StoredAt::now();
    let ago = StoredAt::ago(Span::from_millis(60_000)).unwrap();
    let after = StoredAt::now();
    assert!(before.timestamp_millis() - 60_000 <= ago.timestamp_millis());
    assert!(ago.timestamp_millis() <= after.timestamp_millis() - 60_000);
}

/// A reading less a span, to the millisecond, rounded down.
#[test]
fn a_span_is_taken_off_a_reading() {
    let millis = |secs: i64, nanos: u32, ago: Span| {
        StoredAt::before(Reading { secs, nanos }, ago).map(|at| at.timestamp_millis())
    };
    let span = |secs: u64, nanos: u32| Span { secs, nanos };

    assert_eq!(millis(100, 500_000_000, span(1, 250_000_000)), Some(99_250));
    assert_eq!(millis(100, 0, span(0, 0)), Some(100_000));
    assert_eq!(millis(100, 999_999, span(0, 1)), Some(100_000));
    assert_eq!(millis(0, 0, span(0, 1)), Some(-1));
    assert_eq!(millis(5, 0, span(0, 1_000_001)), Some(4_998));
    let back = (-MIN_MILLIS / 1000) as u64;
    assert_eq!(millis(0, 0, span(back, 0)), Some(MIN_MILLIS));
    assert_eq!(millis(0, 0, span(back, 1)), None);
    assert_eq!(millis(0, 0, span(u64::MAX, 999_999_999)), None);
    assert_eq!(StoredAt::at(Reading { secs: 7, nanos: 1_999_999 }).timestamp_millis(), 7_001);
}

// ---- columns -------------------------------------------------------------

type Read<T> = Result<T, RowError<()>>;

fn ids(ids: impl IntoIterator<Item = u8>) -> SortedSet<KeyId> {
    let mut set: SortedSet<KeyId> = SortedSet::new();
    for id in ids {
        set.insert(KeyId::from_bytes([id; 32]));
    }
    set
}

#[test]
fn a_status_reads_back_from_its_columns() {
    for status in [
        VerificationStatus::Unchecked,
        VerificationStatus::AllMatched { total_weight: 7 },
        VerificationStatus::AllMatched {
            total_weight: u32::MAX,
        },
        VerificationStatus::Failed {
            failing_key_ids: ids([]),
        },
        VerificationStatus::Failed {
            failing_key_ids: ids([9, 7]),
        },
    ] {
        let columns = status_columns(&status);
        let read: Read<VerificationStatus> =
            status_from(columns.status, columns.weight, columns.bad_keys);
        assert_eq!(read, Ok(status));
    }
    let mut blob = vec![7u8; 32];
    blob.extend([9u8; 32]);
    assert_eq!(
        status_columns(&VerificationStatus::Failed {
            failing_key_ids: ids([9, 7]),
        }),
        StatusColumns {
            status: 1,
            weight: None,
            bad_keys: Some(blob),
        }
    );
}

#[test]
fn columns_that_say_nothing_are_corrupt() {
    let corrupt = |code: i64, weight: Option<i64>, keys: Option<Vec<u8>>| {
        let read: Read<VerificationStatus> = status_from(code, weight, keys);
        read.unwrap_err()
    };
    assert_eq!(
        corrupt(1, None, None),
        RowError::Corrupt("failed status without its keys")
    );
    assert_eq!(
        corrupt(1, None, Some(vec![0; 33])),
        RowError::Corrupt("failing key ids are not whole ids")
    );
    assert_eq!(
        corrupt(2, None, None),
        RowError::Corrupt("all-matched status without a weight")
    );
    assert_eq!(
        corrupt(2, Some(-1), None),
        RowError::Corrupt("verification weight out of range")
    );
    assert_eq!(
        corrupt(2, Some(4_294_967_296), None),
        RowError::Corrupt("verification weight out of range")
    );
    assert_eq!(
        corrupt(3, None, None),
        RowError::Corrupt("unknown verification status")
    );
    let kind: Read<NodeKind> = kind_from(3);
    assert_eq!(kind, Err(RowError::Corrupt("unknown node kind")));
    let short: Read<EnvelopeDigest> = digest_from(&vec![0; 31]);
    assert_eq!(short, Err(RowError::Corrupt("stored digest is not 32 bytes")));
    let whole: Read<EnvelopeDigest> = digest_from(&vec![5; 32]);
    assert_eq!(whole, Ok(digest(5)));
    let empty: Read<NamespaceKey> = key_from(String::new());
    assert_eq!(empty, Err(RowError::Corrupt("stored namespace key is empty")));
    let named: Read<NamespaceKey> = key_from("n".to_string());
    assert_eq!(named, Ok(key("n")));
    let read: Read<SortedSet<KeyId>> = key_ids_from(&vec![]);
    assert_eq!(read, Ok(ids([])));
}

// ---- rows ----------------------------------------------------------------

fn namespaces(entries: impl IntoIterator<Item = (NamespaceKey, Namespace)>) -> Namespaces {
    let mut namespaces = Namespaces::new();
    for (key, namespace) in entries {
        namespaces.insert(key, namespace);
    }
    namespaces
}

fn nested() -> Namespace {
    Namespace {
        value: table([
            ("a", table([("b", text("1"))])),
            ("list", Value::Array(vec![text("x")])),
        ]),
    }
}

/// The conformance suite proves survivors survive `retain`; this
/// proves the garbage actually goes.
#[test]
fn retain_sweeps_unreachable_nodes() {
    let mut store = SqliteStorage::open_in_memory();
    store
        .install(digest(1), namespaces([(key("n"), nested())]))
        .unwrap();
    store
        .commit(
            digest(1),
            digest(2),
            NamespaceOp::SetAt {
                key: key("n"),
                path: path([sub("a"), sub("b")]),
                value: Some(text("2")),
            },
        )
        .unwrap();

    let nodes = |store: &SqliteStorage<MemRows>| store.rows.tables.nodes.len();

    let both_versions = nodes(&store);
    store.retain(&vec![digest(2)]).unwrap();
    let survivor = nodes(&store);
    assert!(survivor < both_versions, "the version-1-only path is swept");
    assert!(survivor > 0, "the kept version's nodes stay");

    store.retain(&vec![]).unwrap();
    assert_eq!(nodes(&store), 0, "no versions, no nodes, no edges");
}

/// A write by path adds the nodes on the path and those of what it writes;
/// all else is shared.
#[test]
fn a_commit_adds_its_path_alone() {
    let mut store = SqliteStorage::open_in_memory();
    store
        .install(digest(1), namespaces([(key("n"), nested()), (key("m"), nested())]))
        .unwrap();
    let before = store.rows.tables.nodes.len();
    store
        .commit(
            digest(1),
            digest(2),
            NamespaceOp::SetAt {
                key: key("n"),
                path: path([sub("a"), sub("b")]),
                value: Some(text("2")),
            },
        )
        .unwrap();
    assert_eq!(store.rows.tables.nodes.len(), before + 3);
    store
        .commit(digest(2), digest(3), NamespaceOp::Delete(key("m")))
        .unwrap();
    assert_eq!(store.rows.tables.nodes.len(), before + 3);
}

/// A database some other application stamped is refused before
/// anything writes to it.
#[test]
fn a_foreign_database_is_refused() {
    assert!(matches!(
        setup(0, 0x1234_5678),
        Err(OpenError::ApplicationId(0x1234_5678))
    ));
}

#[test]
fn opening_a_database_depends_on_its_stamps() {
    assert_eq!(
        setup(0, 0),
        Ok(Setup {
            stamp: true,
            vacuum: true,
            create: true
        })
    );
    assert_eq!(
        setup(SCHEMA_VERSION, APPLICATION_ID),
        Ok(Setup {
            stamp: false,
            vacuum: false,
            create: false
        })
    );
    // From before there were stamps.
    assert_eq!(
        setup(SCHEMA_VERSION, 0),
        Ok(Setup {
            stamp: true,
            vacuum: false,
            create: false
        })
    );
    assert_eq!(setup(2, 0), Err(OpenError::SchemaVersion(2)));
    assert_eq!(APPLICATION_ID, i64::from(i32::from_be_bytes(*b"LOTS")));
}

/// A value taken apart into rows comes together again, its children under
/// it.
#[test]
fn a_value_is_kept_in_rows() {
    let mut rows = MemRows::new();
    rows.begin().unwrap();
    let id = insert_value(&mut rows, &nested().value).unwrap();
    rows.commit().unwrap();
    assert_eq!(value_of(&rows, id), Ok(nested().value));
    assert_eq!(node(&rows, id), Ok((NodeKind::Table, None)));
    let list = child_of(&rows, id, &sub("list")).unwrap().unwrap();
    assert_eq!(node(&rows, list), Ok((NodeKind::Array, None)));
    let x = child_of(&rows, list, &Subkey::Index(0)).unwrap().unwrap();
    assert_eq!(node(&rows, x), Ok((NodeKind::Leaf, Some(text("x")))));
    assert_eq!(child_of(&rows, list, &Subkey::Index(1)), Ok(None));
    assert!(list < id && x < list, "children come before their parents");
}

#[test]
fn what_is_rolled_back_never_was() {
    let mut rows = MemRows::new();
    rows.begin().unwrap();
    let kept = rows.insert_node(0, Some(&Value::Int(1))).unwrap();
    rows.commit().unwrap();
    rows.begin().unwrap();
    let lost = rows.insert_node(0, Some(&Value::Int(2))).unwrap();
    assert!(rows.node(lost).unwrap().is_some());
    rows.rollback();
    assert!(rows.node(kept).unwrap().is_some());
    assert!(rows.node(lost).unwrap().is_none());
}

#[test]
fn rows_run_out_at_the_last_number() {
    let mut rows = MemRows::new();
    rows.begin().unwrap();
    let id = rows.insert_node(0, Some(&Value::Int(1))).unwrap();
    let (_, first) = rows.tables.nodes.remove_at(0);
    assert_eq!(id, 1);
    rows.tables.nodes.insert(i64::MAX, first);
    assert_eq!(rows.insert_node(0, Some(&Value::Int(2))), Err(NoMoreNodes));
}

/// A status that changes keeps the time an envelope was first seen, and an
/// envelope row keeps its own time the first time.
#[test]
fn an_envelope_row_keeps_the_first_time() {
    let envelope = || {
        Envelope::new(
            Msg::SetNamespace(SetNamespace {
                prev: digest(1),
                key: key("a"),
                namespace: nested(),
            }),
            digest(2),
        )
    };
    let row = |status: i64, stored_at: i64| EnvelopeRow {
        envelope: envelope(),
        status,
        weight: None,
        bad_keys: None,
        stored_at,
    };
    let mut rows = MemRows::new();
    rows.begin().unwrap();
    rows.put_envelope(&digest(2), row(0, 100)).unwrap();
    rows.put_envelope(&digest(2), row(2, 200)).unwrap();
    rows.commit().unwrap();
    let held = rows.envelope(&digest(2)).unwrap().unwrap();
    assert_eq!((held.status, held.stored_at), (2, 100));
    assert_eq!(rows.followers(&digest(1)).unwrap(), vec![vec![2; 32]]);
    assert_eq!(rows.prev(&digest(2)).unwrap(), Some(vec![1; 32]));
}

/// An envelope filed under `own` that follows `prev`.
fn follower(prev: u8, own: u8) -> Envelope {
    Envelope::new(
        Msg::SetNamespace(SetNamespace {
            prev: digest(prev),
            key: key("n"),
            namespace: nested(),
        }),
        digest(own),
    )
}

/// A log can be walked where every envelope is under its own digest and no
/// line comes round to where it was.
#[test]
fn a_log_that_leads_in_a_circle_is_not_walked() {
    let mut store = SqliteStorage::open_in_memory();
    assert_eq!(store.walks(), Ok(true));
    for (prev, own) in [(1, 2), (2, 3), (2, 4), (4, 5)] {
        store.put_envelope(digest(own), follower(prev, own)).unwrap();
    }
    assert_eq!(store.walks(), Ok(true));

    // The line of every envelope now runs through the first again.
    store.put_envelope(digest(1), follower(5, 1)).unwrap();
    assert_eq!(store.walks(), Ok(false));
    store.remove_envelope(digest(1)).unwrap();
    assert_eq!(store.walks(), Ok(true));

    store.put_envelope(digest(6), follower(5, 7)).unwrap();
    assert_eq!(store.walks(), Ok(false));
}

/// Rows that hold together are a store; of others it is said what is wrong.
#[test]
fn rows_that_do_not_hold_together_are_refused() {
    let sound = || {
        let mut store = SqliteStorage::open_in_memory();
        store
            .install(digest(1), namespaces([(key("n"), nested())]))
            .unwrap();
        store.put_envelope(digest(2), follower(1, 2)).unwrap();
        store.rows
    };
    let store = SqliteStorage::audited(sound()).unwrap();
    assert_eq!(store.namespace(digest(1), &key("n")), Ok(Some(nested())));

    let fault = |spoil: &dyn Fn(&mut MemRows)| {
        let mut rows = sound();
        spoil(&mut rows);
        match SqliteStorage::audited(rows) {
            Err(RowError::Corrupt(why)) => why,
            other => panic!("got {other:?}"),
        }
    };
    let find = |rows: &MemRows, code: i64| {
        let nodes = &rows.tables.nodes.entries;
        nodes.iter().position(|(_, node)| node.code == code).unwrap()
    };
    assert_eq!(
        fault(&|rows| {
            let at = find(rows, 1);
            rows.tables.nodes.entries[at].1.fields.insert("x".to_string(), 999);
        }),
        "an edge of a table that joins no nodes"
    );
    assert_eq!(
        fault(&|rows| {
            let at = find(rows, 1);
            rows.tables.nodes.entries[at].1.items.push(1);
        }),
        "an edge of an array that joins no nodes"
    );
    assert_eq!(
        fault(&|rows| {
            rows.tables.versions.entries[0].1.insert(key("m"), 999);
        }),
        "a root that is no node of a version"
    );
    // A table that holds itself, and one that holds it through another.
    assert_eq!(
        fault(&|rows| {
            let at = find(rows, 1);
            let own = rows.tables.nodes.entries[at].0;
            rows.tables.nodes.entries[at].1.fields.insert("x".to_string(), own);
        }),
        "a node that holds itself"
    );
    assert_eq!(
        fault(&|rows| {
            let at = find(rows, 1);
            let held = rows.tables.nodes.entries[at].0;
            rows.begin().unwrap();
            let holder = rows.insert_node(TABLE, None).unwrap();
            rows.insert_field(holder, &"x".to_string(), held).unwrap();
            rows.insert_field(held, &"x".to_string(), holder).unwrap();
            rows.commit().unwrap();
        }),
        "a node that holds itself"
    );
}

/// Nodes may be numbered in any order: one may lead to a younger one, as
/// long as none holds itself.
#[test]
fn a_node_may_hold_a_younger_one() {
    let mut rows = MemRows::new();
    rows.begin().unwrap();
    let outer = rows.insert_node(TABLE, None).unwrap();
    let inner = rows.insert_node(TABLE, None).unwrap();
    let leaf = rows.insert_node(LEAF, Some(&text("deep"))).unwrap();
    let stray = rows.insert_node(LEAF, Some(&text("stray"))).unwrap();
    rows.insert_field(outer, &"a".to_string(), inner).unwrap();
    rows.insert_field(inner, &"b".to_string(), leaf).unwrap();
    rows.replace_version(&digest(1)).unwrap();
    rows.set_root(&digest(1), &key("n"), outer).unwrap();
    rows.commit().unwrap();
    assert!(outer < inner && inner < leaf);

    let mut store = SqliteStorage::audited(rows).unwrap();
    let at = path([sub("a"), sub("b")]);
    assert_eq!(store.value_at(digest(1), &key("n"), &at.segments), Ok(Some(text("deep"))));

    store
        .commit(
            digest(1),
            digest(2),
            NamespaceOp::SetAt {
                key: key("n"),
                path: path([sub("c")]),
                value: Some(text("more")),
            },
        )
        .unwrap();
    // A sweep takes what no version holds, and nothing else.
    store.retain(&vec![digest(2)]).unwrap();
    assert_eq!(store.rows.node(stray), Ok(None));
    assert_eq!(store.rows.node(outer), Ok(None));
    assert!(store.rows.node(leaf).unwrap().is_some());
    assert_eq!(store.value_at(digest(2), &key("n"), &at.segments), Ok(Some(text("deep"))));
    assert_eq!(
        store.value_at(digest(2), &key("n"), &path([sub("c")]).segments),
        Ok(Some(text("more")))
    );
}

/// A node that cannot be read is no obstacle until it is asked for, and then
/// only to what it is part of.
#[test]
fn an_unreadable_node_is_reported_when_it_is_read() {
    let spoilt = |spoil: &dyn Fn(&mut MemRows, usize)| {
        let mut store = SqliteStorage::open_in_memory();
        let leaf = Namespace { value: text("gone") };
        store
            .install(digest(1), namespaces([(key("m"), leaf), (key("n"), nested())]))
            .unwrap();
        let nodes = &store.rows.tables.nodes.entries;
        let at = nodes
            .iter()
            .position(|(_, node)| node.leaf == Some(text("gone")))
            .unwrap();
        spoil(&mut store.rows, at);
        SqliteStorage::audited(store.rows).unwrap()
    };
    for (mut store, why) in [
        (
            spoilt(&|rows, at| rows.tables.nodes.entries[at].1.leaf = None),
            "leaf node without a payload",
        ),
        (
            spoilt(&|rows, at| rows.tables.nodes.entries[at].1.leaf = Some(nested().value)),
            "leaf node whose payload is no leaf",
        ),
        (
            spoilt(&|rows, at| rows.tables.nodes.entries[at].1.code = 7),
            "unknown node kind",
        ),
    ] {
        assert_eq!(store.namespace(digest(1), &key("m")), Err(RowError::Corrupt(why)));
        assert_eq!(store.namespace(digest(1), &key("n")), Ok(Some(nested())));
        // A version that shares the node is made without reading it.
        store
            .commit(digest(1), digest(2), NamespaceOp::Delete(key("m")))
            .unwrap();
        assert_eq!(store.namespaces(digest(2)), Ok(namespaces([(key("n"), nested())])));
    }
}

/// A row of the log that cannot be read is no obstacle until it is asked for.
#[test]
fn an_unreadable_log_row_is_reported_when_it_is_read() {
    let spoilt = |spoil: &dyn Fn(&mut EnvelopeRow)| {
        let mut store = SqliteStorage::open_in_memory();
        store.put_envelope(digest(2), follower(1, 2)).unwrap();
        store.put_envelope(digest(3), follower(2, 3)).unwrap();
        spoil(&mut store.rows.tables.log.entries[0].1);
        SqliteStorage::audited(store.rows).unwrap()
    };
    for (store, why) in [
        (spoilt(&|row| row.status = 9), "unknown verification status"),
        (spoilt(&|row| row.stored_at = i64::MAX), "stored-at is not a time"),
        (spoilt(&|row| row.status = 1), "failed status without its keys"),
    ] {
        assert_eq!(store.logged_envelope(digest(2)), Err(RowError::Corrupt(why)));
        assert_eq!(store.envelope(digest(3)), Ok(Some(follower(2, 3))));
        assert_eq!(store.parent(digest(2)), Ok(Some(digest(1))));
        assert_eq!(store.children(digest(1)), Ok(vec![digest(2)]));
        assert_eq!(store.walks(), Ok(true));
    }
}
