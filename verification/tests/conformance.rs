//! What every backend must do, run against each of them.

use std::collections::BTreeSet;
use std::fmt::Debug;

use lotus::digest::{EnvelopeDigest, KeyId};
use lotus::envelope::{Envelope, Signatures, VerificationStatus};
use lotus::msg::{
    AmendOp, FullCheckpoint, IncrementDecrement, InitMsg, Match, Msg, Namespace, NamespaceKey,
    Namespaces, Predicate, SetNamespace,
};
use lotus::order::{SortedMap, SortedSet};
use lotus::storage::log::StoredAt;
use lotus::storage::mem::MemStorage;
use lotus::storage::sqlite::SqliteStorage;
use lotus::storage::tables::MemRows;
use lotus::storage::{NamespaceOp, NodeKind, Resolution, Storage, ValueMeta};
use lotus::subkey::{Subkey, SubkeyPath};
use lotus::value::Value;
use lotus::web::json::pretty;

/// A digest that differs wherever the text does, as far as these tests go.
fn hashed(text: &str) -> [u8; 32] {
    let mut out: [u8; 32] = [0; 32];
    for lane in 0..4usize {
        let mut h: u64 = 0xcbf2_9ce4_8422_2325 ^ (lane as u64).wrapping_mul(0x9e37_79b9_7f4a_7c15);
        for byte in text.bytes() {
            h = (h ^ u64::from(byte)).wrapping_mul(0x0000_0100_0000_01b3);
            h ^= h >> 29;
        }
        out[lane * 8..lane * 8 + 8].copy_from_slice(&h.to_be_bytes());
    }
    out
}

/// The digest of what an envelope says and who signed it.
fn digest_of(payload: &Msg, signatures: &Signatures) -> EnvelopeDigest {
    EnvelopeDigest::from_bytes(hashed(&format!("{payload:?} {signatures:?}")))
}

fn digested(payload: Msg) -> Envelope {
    let digest = digest_of(&payload, &Signatures::new());
    Envelope::new(payload, digest)
}

fn table(entries: impl IntoIterator<Item = (String, Value)>) -> Value {
    let mut fields: SortedMap<String, Value> = SortedMap::new();
    for (name, value) in entries {
        fields.insert(name, value);
    }
    Value::Table(fields)
}

fn ids(ids: impl IntoIterator<Item = KeyId>) -> SortedSet<KeyId> {
    let mut set: SortedSet<KeyId> = SortedSet::new();
    for id in ids {
        set.insert(id);
    }
    set
}

fn digest(byte: u8) -> EnvelopeDigest {
    EnvelopeDigest::from_bytes([byte; 32])
}

fn key(k: &str) -> NamespaceKey {
    NamespaceKey::try_new(k).expect("suite keys are non-empty")
}

fn leaf(v: &str) -> Namespace {
    Namespace {
        value: Value::String(v.to_string()),
    }
}

fn map(entries: impl IntoIterator<Item = (&'static str, Value)>) -> Value {
    table(entries.into_iter().map(|(k, v)| (k.to_string(), v)))
}

fn namespaces(entries: impl IntoIterator<Item = (&'static str, Namespace)>) -> Namespaces {
    let mut namespaces = Namespaces::new();
    for (k, namespace) in entries {
        namespaces.insert(key(k), namespace);
    }
    namespaces
}

fn path(segments: impl IntoIterator<Item = Subkey>) -> SubkeyPath {
    SubkeyPath::try_new(segments.into_iter().collect()).expect("suite paths are non-empty")
}

fn sub(k: &str) -> Subkey {
    Subkey::Key(k.to_string())
}

/// A namespace whose value is `{"a": {"b": "1"}, "list": ["x", "y"]}` —
/// one of each container kind.
fn nested() -> Namespace {
    Namespace {
        value: map([
            ("a", map([("b", Value::String("1".into()))])),
            (
                "list",
                Value::Array(vec![Value::String("x".into()), Value::String("y".into())]),
            ),
        ]),
    }
}

/// A `SetAt` against the `n` namespace the nested fixtures install.
fn set_at(p: SubkeyPath, value: Option<Value>) -> NamespaceOp {
    NamespaceOp::SetAt {
        key: key("n"),
        path: p,
        value,
    }
}

fn fetch<S: Storage>(store: &S, head: u8, k: &str) -> Option<Namespace>
where
    S::Error: Debug,
{
    store
        .namespace(digest(head), &key(k))
        .expect("namespace read must not fail")
}

fn unknown_heads_are_absent<S: Storage>(store: S)
where
    S::Error: Debug,
{
    assert!(!store.contains_version(digest(9)).expect("contains_version"));
}

fn install_creates_a_version<S: Storage>(mut store: S)
where
    S::Error: Debug,
{
    store
        .install(digest(1), namespaces([("a", leaf("1")), ("b", leaf("2"))]))
        .expect("install");

    assert!(store.contains_version(digest(1)).expect("contains_version"));
    assert_eq!(fetch(&store, 1, "a"), Some(leaf("1")));
    assert_eq!(fetch(&store, 1, "missing"), None);

    let all = store.namespaces(digest(1)).expect("namespaces");
    assert_eq!(
        all.entries,
        vec![(key("a"), leaf("1")), (key("b"), leaf("2"))]
    );
}

fn install_keeps_other_chains<S: Storage>(mut store: S)
where
    S::Error: Debug,
{
    store
        .install(digest(1), namespaces([("a", leaf("1"))]))
        .expect("install");
    store
        .install(digest(2), namespaces([("b", leaf("2"))]))
        .expect("install");

    assert_eq!(
        fetch(&store, 1, "a"),
        Some(leaf("1")),
        "an install must not wipe other versions"
    );
    assert_eq!(fetch(&store, 1, "b"), None);
    assert_eq!(fetch(&store, 2, "b"), Some(leaf("2")));
    assert_eq!(fetch(&store, 2, "a"), None);
}

fn commit_keeps_the_parent_intact<S: Storage>(mut store: S)
where
    S::Error: Debug,
{
    store
        .install(digest(1), namespaces([("a", leaf("1"))]))
        .expect("install");
    store
        .commit(digest(1), digest(2), NamespaceOp::Put(key("a"), leaf("9")))
        .expect("commit");

    assert_eq!(fetch(&store, 2, "a"), Some(leaf("9")));
    assert_eq!(
        fetch(&store, 1, "a"),
        Some(leaf("1")),
        "the parent version must not move"
    );
}

fn put_creates_and_overwrites<S: Storage>(mut store: S)
where
    S::Error: Debug,
{
    store
        .install(digest(1), namespaces([("a", leaf("1"))]))
        .expect("install");
    store
        .commit(digest(1), digest(2), NamespaceOp::Put(key("b"), leaf("2")))
        .expect("commit");
    store
        .commit(digest(2), digest(3), NamespaceOp::Put(key("a"), leaf("9")))
        .expect("commit");

    assert_eq!(fetch(&store, 3, "a"), Some(leaf("9")));
    assert_eq!(fetch(&store, 3, "b"), Some(leaf("2")));
}

fn delete_removes_the_namespace<S: Storage>(mut store: S)
where
    S::Error: Debug,
{
    store
        .install(digest(1), namespaces([("a", leaf("1")), ("b", leaf("2"))]))
        .expect("install");
    store
        .commit(digest(1), digest(2), NamespaceOp::Delete(key("a")))
        .expect("commit");

    assert_eq!(fetch(&store, 2, "a"), None);
    assert_eq!(
        fetch(&store, 2, "b"),
        Some(leaf("2")),
        "siblings must survive"
    );
    assert_eq!(
        fetch(&store, 1, "a"),
        Some(leaf("1")),
        "the parent still holds it"
    );
}

fn set_at_writes_and_creates_leaves<S: Storage>(mut store: S)
where
    S::Error: Debug,
{
    store
        .install(digest(1), namespaces([("n", nested())]))
        .expect("install");

    // Overwrite an existing leaf, then create a fresh one under a map.
    store
        .commit(
            digest(1),
            digest(2),
            set_at(path([sub("a"), sub("b")]), Some(Value::String("2".into()))),
        )
        .expect("commit");
    store
        .commit(
            digest(2),
            digest(3),
            set_at(path([sub("a"), sub("new")]), Some(Value::Bool(true))),
        )
        .expect("commit");

    let expected = map([
        (
            "a",
            map([("b", Value::String("2".into())), ("new", Value::Bool(true))]),
        ),
        (
            "list",
            Value::Array(vec![Value::String("x".into()), Value::String("y".into())]),
        ),
    ]);
    assert_eq!(fetch(&store, 3, "n").expect("n exists").value, expected);
}

fn set_at_replaces_array_elements<S: Storage>(mut store: S)
where
    S::Error: Debug,
{
    store
        .install(digest(1), namespaces([("n", nested())]))
        .expect("install");

    store
        .commit(
            digest(1),
            digest(2),
            set_at(
                path([sub("list"), Subkey::Index(1)]),
                Some(Value::String("z".into())),
            ),
        )
        .expect("commit");

    let expected = map([
        ("a", map([("b", Value::String("1".into()))])),
        (
            "list",
            Value::Array(vec![Value::String("x".into()), Value::String("z".into())]),
        ),
    ]);
    assert_eq!(fetch(&store, 2, "n").expect("n exists").value, expected);
}

fn set_at_clears_values<S: Storage>(mut store: S)
where
    S::Error: Debug,
{
    store
        .install(digest(1), namespaces([("n", nested())]))
        .expect("install");

    // Clear a map entry, then remove an array element — later indices
    // shift down.
    store
        .commit(
            digest(1),
            digest(2),
            set_at(path([sub("a"), sub("b")]), None),
        )
        .expect("commit");
    store
        .commit(
            digest(2),
            digest(3),
            set_at(path([sub("list"), Subkey::Index(0)]), None),
        )
        .expect("commit");

    let expected = map([
        ("a", map([])),
        ("list", Value::Array(vec![Value::String("y".into())])),
    ]);
    assert_eq!(fetch(&store, 3, "n").expect("n exists").value, expected);
}

/// An `AmendAt` against the `n` namespace the nested fixtures install.
fn amend_at(p: SubkeyPath, op: AmendOp) -> NamespaceOp {
    NamespaceOp::AmendAt {
        key: key("n"),
        path: Some(p),
        op,
    }
}

/// An `AmendAt` of a namespace's whole value.
fn amend_root(k: &'static str, op: AmendOp) -> NamespaceOp {
    NamespaceOp::AmendAt {
        key: key(k),
        path: None,
        op,
    }
}

fn amend_at_appends_and_creates_arrays<S: Storage>(mut store: S)
where
    S::Error: Debug,
{
    store
        .install(digest(1), namespaces([("n", nested())]))
        .expect("install");

    // Append to the array that's there, then create a fresh one-entry
    // array under the map.
    store
        .commit(
            digest(1),
            digest(2),
            amend_at(
                path([sub("list")]),
                AmendOp::AppendEntry(Value::String("z".into())),
            ),
        )
        .expect("commit");
    store
        .commit(
            digest(2),
            digest(3),
            amend_at(
                path([sub("a"), sub("fresh")]),
                AmendOp::AppendEntry(Value::Int(1)),
            ),
        )
        .expect("commit");

    let expected = map([
        (
            "a",
            map([
                ("b", Value::String("1".into())),
                ("fresh", Value::Array(vec![Value::Int(1)])),
            ]),
        ),
        (
            "list",
            Value::Array(vec![
                Value::String("x".into()),
                Value::String("y".into()),
                Value::String("z".into()),
            ]),
        ),
    ]);
    assert_eq!(fetch(&store, 3, "n").expect("n exists").value, expected);
    assert_eq!(
        fetch(&store, 1, "n"),
        Some(nested()),
        "the parent version must not move"
    );
}

fn amend_at_increments_integers<S: Storage>(mut store: S)
where
    S::Error: Debug,
{
    store
        .install(
            digest(1),
            namespaces([(
                "n",
                Namespace {
                    value: map([("count", Value::Int(5))]),
                },
            )]),
        )
        .expect("install");

    let at_count = || path([sub("count")]);
    store
        .commit(
            digest(1),
            digest(2),
            amend_at(
                at_count(),
                AmendOp::IncrementDecrement(IncrementDecrement::new(3)),
            ),
        )
        .expect("commit");
    store
        .commit(
            digest(2),
            digest(3),
            amend_at(
                at_count(),
                AmendOp::IncrementDecrement(IncrementDecrement::new(-10)),
            ),
        )
        .expect("commit");
    // Clamped on both sides: the ceiling catches this sum...
    store
        .commit(
            digest(3),
            digest(4),
            amend_at(
                at_count(),
                AmendOp::IncrementDecrement(IncrementDecrement::new(100).with_min(0).with_max(10)),
            ),
        )
        .expect("commit");
    // ...the floor catches the next, even when the sum leaves i64.
    store
        .commit(
            digest(4),
            digest(5),
            amend_at(
                at_count(),
                AmendOp::IncrementDecrement(IncrementDecrement::new(i64::MIN).with_min(-1)),
            ),
        )
        .expect("commit");

    let count_of = |head: u8| match fetch(&store, head, "n").expect("n exists").value {
        Value::Table(top) => top.get(&"count".to_string()).cloned(),
        _ => None,
    };
    assert_eq!(count_of(1), Some(Value::Int(5)), "parent must not move");
    assert_eq!(count_of(2), Some(Value::Int(8)));
    assert_eq!(count_of(3), Some(Value::Int(-2)));
    assert_eq!(count_of(4), Some(Value::Int(10)));
    assert_eq!(count_of(5), Some(Value::Int(-1)));
}

fn predicate(matches: impl IntoIterator<Item = Match>) -> Predicate {
    Predicate::try_new(matches.into_iter().collect()).expect("suite predicates are non-empty")
}

/// A delete-matching drops the entries its predicate matches — from an
/// array with later indices shifted down, from a map, or from the
/// namespace's root container with no path — and nothing when none match.
fn amend_at_deletes_matching_entries<S: Storage>(mut store: S)
where
    S::Error: Debug,
{
    let server =
        |id: &str, up: bool| map([("id", Value::String(id.into())), ("up", Value::Bool(up))]);
    store
        .install(
            digest(1),
            namespaces([(
                "n",
                Namespace {
                    value: map([
                        (
                            "servers",
                            Value::Array(vec![
                                server("a", true),
                                server("b", false),
                                server("c", false),
                            ]),
                        ),
                        (
                            "flags",
                            map([("x", Value::Bool(true)), ("y", Value::Bool(false))]),
                        ),
                    ]),
                },
            )]),
        )
        .expect("install");
    let id_is = |id: &str| Match::at(path([sub("id")]), Value::String(id.into()));

    // Two conditions, one entry meets both.
    store
        .commit(
            digest(1),
            digest(2),
            amend_at(
                path([sub("servers")]),
                AmendOp::DeleteMatching(predicate([
                    id_is("b"),
                    Match::at(path([sub("up")]), Value::Bool(false)),
                ])),
            ),
        )
        .expect("commit");
    // Nothing matches: a new version that is the same.
    store
        .commit(
            digest(2),
            digest(3),
            amend_at(
                path([sub("servers")]),
                AmendOp::DeleteMatching(predicate([id_is("zzz")])),
            ),
        )
        .expect("commit");
    // A map's entries are judged by value too.
    store
        .commit(
            digest(3),
            digest(4),
            amend_at(
                path([sub("flags")]),
                AmendOp::DeleteMatching(predicate([Match::entry(Value::Bool(false))])),
            ),
        )
        .expect("commit");
    // No path: the root map's entries.
    store
        .commit(
            digest(4),
            digest(5),
            amend_root(
                "n",
                AmendOp::DeleteMatching(predicate([Match::entry(map([("x", Value::Bool(true))]))])),
            ),
        )
        .expect("commit");

    let after_first = map([
        (
            "servers",
            Value::Array(vec![server("a", true), server("c", false)]),
        ),
        (
            "flags",
            map([("x", Value::Bool(true)), ("y", Value::Bool(false))]),
        ),
    ]);
    assert_eq!(fetch(&store, 2, "n").expect("n exists").value, after_first);
    assert_eq!(fetch(&store, 3, "n").expect("n exists").value, after_first);
    assert_eq!(
        fetch(&store, 4, "n").expect("n exists").value,
        map([
            (
                "servers",
                Value::Array(vec![server("a", true), server("c", false)]),
            ),
            ("flags", map([("x", Value::Bool(true))])),
        ])
    );
    assert_eq!(
        fetch(&store, 5, "n").expect("n exists").value,
        map([(
            "servers",
            Value::Array(vec![server("a", true), server("c", false)]),
        )])
    );
    assert_eq!(
        fetch(&store, 1, "n").expect("n exists").value,
        map([
            (
                "servers",
                Value::Array(vec![
                    server("a", true),
                    server("b", false),
                    server("c", false),
                ]),
            ),
            (
                "flags",
                map([("x", Value::Bool(true)), ("y", Value::Bool(false))]),
            ),
        ]),
        "the parent version must not move"
    );
}

/// A `path` of `None` amends the namespace's value itself — a namespace
/// that is one bare array or one bare integer.
fn amend_at_without_a_path_amends_the_root<S: Storage>(mut store: S)
where
    S::Error: Debug,
{
    store
        .install(
            digest(1),
            namespaces([
                (
                    "tags",
                    Namespace {
                        value: Value::Array(vec![Value::String("x".into())]),
                    },
                ),
                (
                    "total",
                    Namespace {
                        value: Value::Int(5),
                    },
                ),
            ]),
        )
        .expect("install");

    store
        .commit(
            digest(1),
            digest(2),
            amend_root("tags", AmendOp::AppendEntry(Value::String("y".into()))),
        )
        .expect("commit");
    store
        .commit(
            digest(2),
            digest(3),
            amend_root(
                "total",
                AmendOp::IncrementDecrement(IncrementDecrement::new(-100).with_min(0)),
            ),
        )
        .expect("commit");

    assert_eq!(
        fetch(&store, 3, "tags").expect("tags exists").value,
        Value::Array(vec![Value::String("x".into()), Value::String("y".into())])
    );
    assert_eq!(
        fetch(&store, 3, "total").expect("total exists").value,
        Value::Int(0)
    );
    assert_eq!(
        fetch(&store, 1, "total").expect("total exists").value,
        Value::Int(5),
        "the parent version must not move"
    );
}

fn value_at_reads_the_addressed_value<S: Storage>(mut store: S)
where
    S::Error: Debug,
{
    store
        .install(digest(1), namespaces([("n", nested())]))
        .expect("install");

    let value_at = |p: &[Subkey]| store.value_at(digest(1), &key("n"), &p.to_vec()).expect("value_at");

    assert_eq!(value_at(&[]), Some(nested().value));
    assert_eq!(
        value_at(&[sub("a"), sub("b")]),
        Some(Value::String("1".into()))
    );
    assert_eq!(
        value_at(&[sub("list"), Subkey::Index(1)]),
        Some(Value::String("y".into()))
    );

    // A path that stops short — absent, out of bounds, or the wrong
    // shape — is `None`, like the namespace that isn't there at all.
    assert_eq!(value_at(&[sub("nope")]), None);
    assert_eq!(value_at(&[sub("list"), Subkey::Index(9)]), None);
    assert_eq!(value_at(&[sub("a"), Subkey::Index(0)]), None);
    assert_eq!(
        store
            .value_at(digest(1), &key("absent"), &vec![])
            .expect("value_at"),
        None
    );
}

/// Two siblings write through the same shared parent; each must see only
/// its own write, and the parent neither. Catches copy-on-write slips
/// where structural sharing lets a write leak across versions.
fn meta_at_counts_and_names_entries<S: Storage>(mut store: S)
where
    S::Error: Debug,
{
    store
        .install(digest(1), namespaces([("n", nested())]))
        .expect("install");

    let meta = |p: &[Subkey]| store.meta_at(digest(1), &key("n"), &p.to_vec()).expect("meta_at");

    assert_eq!(
        meta(&[]),
        Some(ValueMeta::Table {
            keys: vec!["a".to_string(), "list".to_string()],
        })
    );
    assert_eq!(meta(&[sub("list")]), Some(ValueMeta::Array { len: 2 }));
    assert_eq!(meta(&[sub("a"), sub("b")]), Some(ValueMeta::Leaf));
    // Nothing there, and nowhere to walk: both are absent, not empty.
    assert_eq!(meta(&[sub("missing")]), None);
    assert_eq!(meta(&[sub("a"), sub("b"), sub("c")]), None);
    assert_eq!(
        store
            .meta_at(digest(1), &key("missing"), &vec![])
            .expect("meta_at"),
        None
    );
}

fn set_at_does_not_bleed_into_other_versions<S: Storage>(mut store: S)
where
    S::Error: Debug,
{
    store
        .install(digest(1), namespaces([("n", nested())]))
        .expect("install");

    let at_b = || path([sub("a"), sub("b")]);
    store
        .commit(
            digest(1),
            digest(2),
            set_at(at_b(), Some(Value::String("2".into()))),
        )
        .expect("commit");
    store
        .commit(
            digest(1),
            digest(3),
            set_at(at_b(), Some(Value::String("3".into()))),
        )
        .expect("commit");

    let b_of = |head: u8| match fetch(&store, head, "n").expect("n exists").value {
        Value::Table(top) => match top.get(&"a".to_string()) {
            Some(Value::Table(a)) => a.get(&"b".to_string()).cloned(),
            _ => None,
        },
        _ => None,
    };
    assert_eq!(
        b_of(1),
        Some(Value::String("1".into())),
        "parent must not move"
    );
    assert_eq!(b_of(2), Some(Value::String("2".into())));
    assert_eq!(b_of(3), Some(Value::String("3".into())));
}

/// Reads are snapshots, not handles: everything read at a head must read
/// back identically after later commits touch the same keys and paths.
/// Returned values are owned and cannot change in the caller's hands —
/// what this pins is the store itself, where structural sharing or a
/// path-indexed `resolve` override could serve a newer version's write
/// through an old head.
fn reads_at_a_head_are_stable_across_updates<S: Storage>(mut store: S)
where
    S::Error: Debug,
{
    store
        .install(digest(1), namespaces([("a", leaf("1")), ("n", nested())]))
        .expect("install");

    let before_n = fetch(&store, 1, "n").expect("n exists");
    let before_all = store.namespaces(digest(1)).expect("namespaces");
    let at_b = || [sub("a"), sub("b")];
    let before_resolved = store
        .resolve(digest(1), &key("n"), &at_b().to_vec())
        .expect("resolve");

    // Touch everything the snapshot read: a nested write, a wholesale
    // overwrite, and a delete of the sibling.
    store
        .commit(
            digest(1),
            digest(2),
            set_at(path(at_b()), Some(Value::String("9".into()))),
        )
        .expect("commit");
    store
        .commit(digest(2), digest(3), NamespaceOp::Put(key("n"), leaf("x")))
        .expect("commit");
    store
        .commit(digest(3), digest(4), NamespaceOp::Delete(key("a")))
        .expect("commit");

    assert_eq!(fetch(&store, 1, "n"), Some(before_n));
    assert_eq!(fetch(&store, 1, "a"), Some(leaf("1")));
    assert_eq!(
        store.namespaces(digest(1)).expect("namespaces"),
        before_all
    );
    assert_eq!(
        store
            .resolve(digest(1), &key("n"), &at_b().to_vec())
            .expect("resolve"),
        before_resolved,
        "resolve must walk the addressed version, not the newest"
    );
}

fn forks_diverge_independently<S: Storage>(mut store: S)
where
    S::Error: Debug,
{
    store
        .install(digest(1), namespaces([("a", leaf("1"))]))
        .expect("install");
    store
        .commit(digest(1), digest(2), NamespaceOp::Put(key("b"), leaf("2")))
        .expect("commit");
    store
        .commit(digest(1), digest(3), NamespaceOp::Put(key("c"), leaf("3")))
        .expect("commit");

    assert_eq!(fetch(&store, 2, "a"), Some(leaf("1")));
    assert_eq!(fetch(&store, 2, "b"), Some(leaf("2")));
    assert_eq!(fetch(&store, 2, "c"), None);

    assert_eq!(fetch(&store, 3, "a"), Some(leaf("1")));
    assert_eq!(fetch(&store, 3, "b"), None);
    assert_eq!(fetch(&store, 3, "c"), Some(leaf("3")));

    assert_eq!(fetch(&store, 1, "b"), None);
    assert_eq!(fetch(&store, 1, "c"), None);
}

fn resolve_reports_the_walk<S: Storage>(mut store: S)
where
    S::Error: Debug,
{
    store
        .install(digest(1), namespaces([("n", nested())]))
        .expect("install");

    let resolve = |p: &[Subkey]| {
        store
            .resolve(digest(1), &key("n"), &p.to_vec())
            .expect("resolve")
            .expect("namespace exists")
    };

    // Everything that exists, by kind.
    assert_eq!(resolve(&[]), Resolution::Node(NodeKind::Table));
    assert_eq!(resolve(&[sub("a")]), Resolution::Node(NodeKind::Table));
    assert_eq!(
        resolve(&[sub("a"), sub("b")]),
        Resolution::Node(NodeKind::Leaf)
    );
    assert_eq!(resolve(&[sub("list")]), Resolution::Node(NodeKind::Array));
    assert_eq!(
        resolve(&[sub("list"), Subkey::Index(1)]),
        Resolution::Node(NodeKind::Leaf)
    );

    // Absences report where the walk stopped, and in what.
    assert_eq!(
        resolve(&[sub("nope")]),
        Resolution::Missing {
            depth: 0,
            at: NodeKind::Table
        }
    );
    assert_eq!(
        resolve(&[sub("nope"), sub("deeper")]),
        Resolution::Missing {
            depth: 0,
            at: NodeKind::Table
        },
        "the walk stops at the first absent segment"
    );
    assert_eq!(
        resolve(&[sub("a"), sub("nope")]),
        Resolution::Missing {
            depth: 1,
            at: NodeKind::Table
        }
    );
    assert_eq!(
        resolve(&[sub("list"), Subkey::Index(9)]),
        Resolution::Missing {
            depth: 1,
            at: NodeKind::Array
        }
    );

    // Shape disagreements are mismatches, not absences.
    assert_eq!(
        resolve(&[sub("a"), Subkey::Index(0)]),
        Resolution::Mismatch { depth: 1 },
        "an index into a map"
    );
    assert_eq!(
        resolve(&[sub("list"), sub("x")]),
        Resolution::Mismatch { depth: 1 },
        "a key into an array"
    );
    assert_eq!(
        resolve(&[sub("a"), sub("b"), sub("deeper")]),
        Resolution::Mismatch { depth: 2 },
        "a step through a leaf"
    );

    // No namespace at all is `None`, not a `Resolution`.
    assert_eq!(
        store
            .resolve(digest(1), &key("absent"), &vec![])
            .expect("resolve"),
        None
    );
}

/// The key listing names every namespace of the version, in key order,
/// and no namespace of any other version.
fn namespace_keys_name_the_versions_namespaces<S: Storage>(mut store: S)
where
    S::Error: Debug,
{
    store
        .install(digest(1), namespaces([("b", leaf("2")), ("a", nested())]))
        .expect("install");
    store
        .install(digest(2), namespaces([("c", leaf("3"))]))
        .expect("install");

    assert_eq!(keys_at(&store, 1), vec![key("a"), key("b")]);
    assert_eq!(keys_at(&store, 2), vec![key("c")]);

    store
        .commit(digest(2), digest(3), NamespaceOp::Delete(key("c")))
        .expect("commit");
    assert_eq!(keys_at(&store, 3), Vec::<NamespaceKey>::new());
    assert_eq!(
        keys_at(&store, 2),
        vec![key("c")],
        "the parent version must not move"
    );
}

fn keys_at<S: Storage>(store: &S, head: u8) -> Vec<NamespaceKey>
where
    S::Error: Debug,
{
    store.namespace_keys(digest(head)).expect("namespace_keys")
}

/// A namespace read back is spelled exactly as it went in: a backend that
/// takes the tree apart must put it together losslessly.
fn namespaces_reencode_to_identical_bytes<S: Storage>(mut store: S)
where
    S::Error: Debug,
{
    let before = pretty(&nested().value);

    store
        .install(digest(1), namespaces([("n", nested())]))
        .expect("install");

    let after = fetch(&store, 1, "n").expect("n exists");
    assert_eq!(pretty(&after.value), before);
}

/// An envelope chaining onto `prev`, distinguished by its value.
fn envelope(prev: EnvelopeDigest, v: &str) -> Envelope {
    digested(Msg::SetNamespace(SetNamespace {
        prev,
        key: key("a"),
        namespace: leaf(v),
    }))
}

fn digest_in(envelope: &Envelope) -> EnvelopeDigest {
    envelope.digest().expect("suite envelopes encode")
}

fn put<S: Storage>(store: &mut S, envelope: &Envelope) -> EnvelopeDigest
where
    S::Error: Debug,
{
    let digest = digest_in(envelope);
    store
        .put_envelope(digest, envelope.clone())
        .expect("put_envelope");
    digest
}

fn children_of<S: Storage>(store: &S, parent: EnvelopeDigest) -> Vec<EnvelopeDigest>
where
    S::Error: Debug,
{
    store.children(parent).expect("children")
}

fn envelopes_store_and_read_back<S: Storage>(mut store: S)
where
    S::Error: Debug,
{
    let stored = envelope(digest(1), "1");
    let d = digest_in(&stored);

    assert_eq!(store.envelope(d).expect("envelope"), None);
    put(&mut store, &stored);
    assert_eq!(store.envelope(d).expect("envelope"), Some(stored.clone()));

    // The log is content-addressed: re-storing changes nothing, and the
    // parent doesn't grow a second child.
    put(&mut store, &stored);
    assert_eq!(store.envelope(d).expect("envelope"), Some(stored));
    assert_eq!(children_of(&store, digest(1)), vec![d]);
}

/// A stored envelope is stamped with when the log took it, and the plain
/// `envelope` read is the same envelope the stamped one carries.
fn envelopes_record_when_they_were_stored<S: Storage>(mut store: S)
where
    S::Error: Debug,
{
    let stored = envelope(digest(1), "1");
    let d = digest_in(&stored);

    let before = StoredAt::now();
    put(&mut store, &stored);
    let after = StoredAt::now();

    let entry = store
        .logged_envelope(d)
        .expect("logged_envelope")
        .expect("stored");
    let at = entry.stored_at;

    assert!(
        before <= at && at <= after,
        "{at:?} is outside {before:?}..{after:?}"
    );
    assert_eq!(entry.envelope, stored);
    // The two reads are the same envelope, whichever a caller reaches for.
    assert_eq!(store.envelope(d).expect("envelope"), Some(stored));

    // Nothing is stamped until something is stored.
    assert_eq!(
        store.logged_envelope(digest(9)).expect("logged_envelope"),
        None,
    );
}

/// Verification lands after an envelope did, and re-storing it is how the
/// status is upgraded. The stamp says when this node first saw the
/// envelope, so that upgrade must not make it look newer than it is.
fn re_storing_keeps_the_time_first_seen<S: Storage>(mut store: S)
where
    S::Error: Debug,
{
    let stored = envelope(digest(1), "1");
    let d = digest_in(&stored);
    put(&mut store, &stored);

    let first = store
        .logged_envelope(d)
        .expect("logged_envelope")
        .expect("stored")
        .stored_at;

    // Long enough that a clock reading a millisecond at a time has moved.
    while StoredAt::now() <= first {}

    let mut verified = stored.clone();
    verified.set_verification_status(VerificationStatus::AllMatched { total_weight: 3 });
    put(&mut store, &verified);

    let entry = store
        .logged_envelope(d)
        .expect("logged_envelope")
        .expect("stored");
    assert_eq!(entry.stored_at, first, "the stamp was rewritten");
    assert_eq!(
        entry.envelope.verification_status(),
        &VerificationStatus::AllMatched { total_weight: 3 },
        "the rest of the record must still be replaced",
    );

    // An envelope genuinely stored later is stamped later, which is what
    // makes the assertion above mean anything.
    let later = put(&mut store, &envelope(digest(1), "2"));
    let later = store
        .logged_envelope(later)
        .expect("logged_envelope")
        .expect("stored")
        .stored_at;
    assert!(first < later, "{first:?} should precede {later:?}");
}

/// The verification status rides outside the envelope's canonical CBOR:
/// a backend keeping envelopes as encoded bytes must persist the status
/// beside them, or fork resolution forgets every verification on restart.
fn envelopes_round_trip_the_verification_status<S: Storage>(mut store: S)
where
    S::Error: Debug,
{
    let unverified = envelope(digest(1), "1");
    let mut verified = unverified.clone();
    verified.set_verification_status(VerificationStatus::AllMatched { total_weight: 7 });
    assert_eq!(
        digest_in(&verified),
        digest_in(&unverified),
        "the status must not change the digest"
    );

    let d = put(&mut store, &verified);
    assert_eq!(
        store.envelope(d).expect("envelope").expect("stored"),
        verified,
        "the status is not in the encoding and must be stored beside it"
    );

    // A failed status names the keys that failed, and a backend that
    // dropped them would hand back a forged envelope as one that merely
    // failed for reasons nobody recorded.
    let mut failed = unverified.clone();
    failed.set_verification_status(VerificationStatus::Failed {
        failing_key_ids: ids([KeyId::from_bytes([7u8; 32]), KeyId::from_bytes([9u8; 32])]),
    });
    put(&mut store, &failed);
    assert_eq!(
        store.envelope(d).expect("envelope").expect("stored"),
        failed,
        "the keys a failed status names must be stored beside it"
    );

    // Verification usually lands after the envelope did: re-storing under
    // the same digest replaces the record, status included.
    put(&mut store, &unverified);
    assert_eq!(
        store.envelope(d).expect("envelope").expect("stored"),
        unverified
    );
}

fn children_come_back_in_digest_order<S: Storage>(mut store: S)
where
    S::Error: Debug,
{
    let siblings: Vec<EnvelopeDigest> = ["1", "2", "3", "4"]
        .iter()
        .map(|v| put(&mut store, &envelope(digest(1), v)))
        .collect();
    let elsewhere = put(&mut store, &envelope(digest(2), "1"));

    let expected = siblings
        .iter()
        .copied()
        .collect::<BTreeSet<EnvelopeDigest>>();
    assert_eq!(
        children_of(&store, digest(1)),
        expected.into_iter().collect::<Vec<EnvelopeDigest>>(),
        "siblings must come back ascending — the fork rule reads them in order"
    );

    assert_eq!(children_of(&store, digest(2)), vec![elsewhere]);
    assert_eq!(children_of(&store, digest(9)), Vec::new());
}

fn remove_envelope_unstores_and_unindexes<S: Storage>(mut store: S)
where
    S::Error: Debug,
{
    let kept_envelope = envelope(digest(1), "1");
    let kept = put(&mut store, &kept_envelope);
    let removed = put(&mut store, &envelope(digest(1), "2"));

    store.remove_envelope(removed).expect("remove");

    assert_eq!(store.envelope(removed).expect("envelope"), None);
    assert_eq!(
        store.envelope(kept).expect("envelope"),
        Some(kept_envelope),
        "siblings must survive"
    );
    assert_eq!(children_of(&store, digest(1)), vec![kept]);

    // Removing what isn't stored is a no-op.
    store.remove_envelope(digest(9)).expect("remove");
    assert_eq!(children_of(&store, digest(1)), vec![kept]);
}

/// `parent` answers what the stored envelope's own `prev` says — the hop
/// chain walks take without materializing envelopes — and `None` for
/// both an absent envelope and one with no parent.
fn parent_follows_prev<S: Storage>(mut store: S)
where
    S::Error: Debug,
{
    let first = envelope(digest(1), "1");
    let second = envelope(digest_in(&first), "2");
    put(&mut store, &first);
    put(&mut store, &second);

    assert_eq!(
        store.parent(digest_in(&second)).expect("parent"),
        Some(digest_in(&first))
    );
    assert_eq!(
        store.parent(digest_in(&first)).expect("parent"),
        Some(digest(1))
    );
    assert_eq!(store.parent(digest(9)).expect("parent"), None, "not stored");

    // An `Init` has no parent: stored, but the walk ends on it.
    let root = digested(Msg::Init(InitMsg {
        state: FullCheckpoint {
            namespaces: Namespaces::new(),
        },
    }));
    put(&mut store, &root);
    assert_eq!(store.parent(digest_in(&root)).expect("parent"), None);

    // Removal takes the answer with it.
    store.remove_envelope(digest_in(&second)).expect("remove");
    assert_eq!(store.parent(digest_in(&second)).expect("parent"), None);
}

/// Versions are what the log folds down to; pruning them must not touch
/// the log itself.
fn retain_leaves_the_envelope_log_alone<S: Storage>(mut store: S)
where
    S::Error: Debug,
{
    store
        .install(digest(1), namespaces([("a", leaf("1"))]))
        .expect("install");
    let stored = envelope(digest(1), "2");
    let d = put(&mut store, &stored);

    store.retain(&vec![]).expect("retain");

    assert!(!store.contains_version(digest(1)).expect("contains_version"));
    assert_eq!(store.envelope(d).expect("envelope"), Some(stored));
    assert_eq!(children_of(&store, digest(1)), vec![d]);
}

fn retain_prunes_unkept_versions<S: Storage>(mut store: S)
where
    S::Error: Debug,
{
    store
        .install(digest(1), namespaces([("n", nested())]))
        .expect("install");
    store
        .commit(
            digest(1),
            digest(2),
            set_at(path([sub("a"), sub("b")]), Some(Value::String("2".into()))),
        )
        .expect("commit");

    store.retain(&vec![digest(2)]).expect("retain");

    assert!(!store.contains_version(digest(1)).expect("contains_version"));
    assert!(store.contains_version(digest(2)).expect("contains_version"));

    // The untouched subtree was shared with the pruned parent; pruning
    // must not tear it out from under the survivor.
    let expected = map([
        ("a", map([("b", Value::String("2".into()))])),
        (
            "list",
            Value::Array(vec![Value::String("x".into()), Value::String("y".into())]),
        ),
    ]);
    assert_eq!(fetch(&store, 2, "n").expect("n exists").value, expected);
}

fn rows() -> SqliteStorage<MemRows> {
    SqliteStorage::open_in_memory()
}

#[test]
fn mem_unknown_heads_are_absent() {
    unknown_heads_are_absent(MemStorage::default());
}

#[test]
fn rows_unknown_heads_are_absent() {
    unknown_heads_are_absent(rows());
}

#[test]
fn mem_install_creates_a_version() {
    install_creates_a_version(MemStorage::default());
}

#[test]
fn rows_install_creates_a_version() {
    install_creates_a_version(rows());
}

#[test]
fn mem_install_keeps_other_chains() {
    install_keeps_other_chains(MemStorage::default());
}

#[test]
fn rows_install_keeps_other_chains() {
    install_keeps_other_chains(rows());
}

#[test]
fn mem_commit_keeps_the_parent_intact() {
    commit_keeps_the_parent_intact(MemStorage::default());
}

#[test]
fn rows_commit_keeps_the_parent_intact() {
    commit_keeps_the_parent_intact(rows());
}

#[test]
fn mem_put_creates_and_overwrites() {
    put_creates_and_overwrites(MemStorage::default());
}

#[test]
fn rows_put_creates_and_overwrites() {
    put_creates_and_overwrites(rows());
}

#[test]
fn mem_delete_removes_the_namespace() {
    delete_removes_the_namespace(MemStorage::default());
}

#[test]
fn rows_delete_removes_the_namespace() {
    delete_removes_the_namespace(rows());
}

#[test]
fn mem_set_at_writes_and_creates_leaves() {
    set_at_writes_and_creates_leaves(MemStorage::default());
}

#[test]
fn rows_set_at_writes_and_creates_leaves() {
    set_at_writes_and_creates_leaves(rows());
}

#[test]
fn mem_set_at_replaces_array_elements() {
    set_at_replaces_array_elements(MemStorage::default());
}

#[test]
fn rows_set_at_replaces_array_elements() {
    set_at_replaces_array_elements(rows());
}

#[test]
fn mem_set_at_clears_values() {
    set_at_clears_values(MemStorage::default());
}

#[test]
fn rows_set_at_clears_values() {
    set_at_clears_values(rows());
}

#[test]
fn mem_amend_at_appends_and_creates_arrays() {
    amend_at_appends_and_creates_arrays(MemStorage::default());
}

#[test]
fn rows_amend_at_appends_and_creates_arrays() {
    amend_at_appends_and_creates_arrays(rows());
}

#[test]
fn mem_amend_at_increments_integers() {
    amend_at_increments_integers(MemStorage::default());
}

#[test]
fn rows_amend_at_increments_integers() {
    amend_at_increments_integers(rows());
}

#[test]
fn mem_amend_at_without_a_path_amends_the_root() {
    amend_at_without_a_path_amends_the_root(MemStorage::default());
}

#[test]
fn rows_amend_at_without_a_path_amends_the_root() {
    amend_at_without_a_path_amends_the_root(rows());
}

#[test]
fn mem_amend_at_deletes_matching_entries() {
    amend_at_deletes_matching_entries(MemStorage::default());
}

#[test]
fn rows_amend_at_deletes_matching_entries() {
    amend_at_deletes_matching_entries(rows());
}

#[test]
fn mem_value_at_reads_the_addressed_value() {
    value_at_reads_the_addressed_value(MemStorage::default());
}

#[test]
fn rows_value_at_reads_the_addressed_value() {
    value_at_reads_the_addressed_value(rows());
}

#[test]
fn mem_meta_at_counts_and_names_entries() {
    meta_at_counts_and_names_entries(MemStorage::default());
}

#[test]
fn rows_meta_at_counts_and_names_entries() {
    meta_at_counts_and_names_entries(rows());
}

#[test]
fn mem_set_at_does_not_bleed_into_other_versions() {
    set_at_does_not_bleed_into_other_versions(MemStorage::default());
}

#[test]
fn rows_set_at_does_not_bleed_into_other_versions() {
    set_at_does_not_bleed_into_other_versions(rows());
}

#[test]
fn mem_reads_at_a_head_are_stable_across_updates() {
    reads_at_a_head_are_stable_across_updates(MemStorage::default());
}

#[test]
fn rows_reads_at_a_head_are_stable_across_updates() {
    reads_at_a_head_are_stable_across_updates(rows());
}

#[test]
fn mem_forks_diverge_independently() {
    forks_diverge_independently(MemStorage::default());
}

#[test]
fn rows_forks_diverge_independently() {
    forks_diverge_independently(rows());
}

#[test]
fn mem_resolve_reports_the_walk() {
    resolve_reports_the_walk(MemStorage::default());
}

#[test]
fn rows_resolve_reports_the_walk() {
    resolve_reports_the_walk(rows());
}

#[test]
fn mem_namespace_keys_name_the_versions_namespaces() {
    namespace_keys_name_the_versions_namespaces(MemStorage::default());
}

#[test]
fn rows_namespace_keys_name_the_versions_namespaces() {
    namespace_keys_name_the_versions_namespaces(rows());
}

#[test]
fn mem_namespaces_reencode_to_identical_bytes() {
    namespaces_reencode_to_identical_bytes(MemStorage::default());
}

#[test]
fn rows_namespaces_reencode_to_identical_bytes() {
    namespaces_reencode_to_identical_bytes(rows());
}

#[test]
fn mem_retain_prunes_unkept_versions() {
    retain_prunes_unkept_versions(MemStorage::default());
}

#[test]
fn rows_retain_prunes_unkept_versions() {
    retain_prunes_unkept_versions(rows());
}

#[test]
fn mem_envelopes_store_and_read_back() {
    envelopes_store_and_read_back(MemStorage::default());
}

#[test]
fn rows_envelopes_store_and_read_back() {
    envelopes_store_and_read_back(rows());
}

#[test]
fn mem_envelopes_round_trip_the_verification_status() {
    envelopes_round_trip_the_verification_status(MemStorage::default());
}

#[test]
fn rows_envelopes_round_trip_the_verification_status() {
    envelopes_round_trip_the_verification_status(rows());
}

#[test]
fn mem_envelopes_record_when_they_were_stored() {
    envelopes_record_when_they_were_stored(MemStorage::default());
}

#[test]
fn rows_envelopes_record_when_they_were_stored() {
    envelopes_record_when_they_were_stored(rows());
}

#[test]
fn mem_re_storing_keeps_the_time_first_seen() {
    re_storing_keeps_the_time_first_seen(MemStorage::default());
}

#[test]
fn rows_re_storing_keeps_the_time_first_seen() {
    re_storing_keeps_the_time_first_seen(rows());
}

#[test]
fn mem_children_come_back_in_digest_order() {
    children_come_back_in_digest_order(MemStorage::default());
}

#[test]
fn rows_children_come_back_in_digest_order() {
    children_come_back_in_digest_order(rows());
}

#[test]
fn mem_retain_leaves_the_envelope_log_alone() {
    retain_leaves_the_envelope_log_alone(MemStorage::default());
}

#[test]
fn rows_retain_leaves_the_envelope_log_alone() {
    retain_leaves_the_envelope_log_alone(rows());
}

#[test]
fn mem_remove_envelope_unstores_and_unindexes() {
    remove_envelope_unstores_and_unindexes(MemStorage::default());
}

#[test]
fn rows_remove_envelope_unstores_and_unindexes() {
    remove_envelope_unstores_and_unindexes(rows());
}

#[test]
fn mem_parent_follows_prev() {
    parent_follows_prev(MemStorage::default());
}

#[test]
fn rows_parent_follows_prev() {
    parent_follows_prev(rows());
}
