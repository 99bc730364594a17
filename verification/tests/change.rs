//! What moving the head changed.

use lotus::digest::EnvelopeDigest;
use lotus::envelope::{Envelope, Signatures};
use lotus::msg::{
    AmendNamespaceKey, AmendOp, DeleteNamespace, FullCheckpoint, IncrementDecrement, InitMsg, Msg,
    Namespace, NamespaceKey, Namespaces, SetNamespace, SetNamespaceKey,
};
use lotus::order::{SortedMap, SortedSet};
use lotus::state::chain::Chain;
use lotus::state::change::{Change, ChangeDiffer, ChangeSet, Movement};
use lotus::state::error::Error;
use lotus::storage::mem::MemStorage;
use lotus::subkey::{Subkey, SubkeyPath};
use lotus::value::Value;

/// A digest that differs wherever the text does, as far as these tests go.
fn hashed(text: &str) -> [u8; 32] {
    let mut out: [u8; 32] = [0; 32];
    for lane in 0..4usize {
        let mut h: u64 = 0xcbf2_9ce4_8422_2325 ^ (lane as u64).wrapping_mul(0x9e37_79b9_7f4a_7c15);
        for byte in text.bytes() {
            h = (h ^ u64::from(byte)).wrapping_mul(0x0000_0100_0000_01b3);
            h ^= h >> 29;
        }
        out[lane * 8..lane * 8 + 8].copy_from_slice(&h.to_be_bytes());
    }
    out
}

/// The digest of what an envelope says and who signed it.
fn digest_of(payload: &Msg, signatures: &Signatures) -> EnvelopeDigest {
    EnvelopeDigest::from_bytes(hashed(&format!("{payload:?} {signatures:?}")))
}

fn envelope(payload: Msg) -> Envelope {
    let digest = digest_of(&payload, &Signatures::new());
    Envelope::new(payload, digest)
}

fn namespaces(entries: impl IntoIterator<Item = (NamespaceKey, Namespace)>) -> Namespaces {
    let mut namespaces = Namespaces::new();
    for (key, namespace) in entries {
        namespaces.insert(key, namespace);
    }
    namespaces
}

fn table(entries: impl IntoIterator<Item = (String, Value)>) -> Value {
    let mut fields: SortedMap<String, Value> = SortedMap::new();
    for (name, value) in entries {
        fields.insert(name, value);
    }
    Value::Table(fields)
}

fn key(k: &str) -> NamespaceKey {
    NamespaceKey::try_new(k).unwrap()
}

fn path(segments: impl IntoIterator<Item = Subkey>) -> SubkeyPath {
    SubkeyPath::try_new(segments.into_iter().collect()).unwrap()
}

/// A path of map keys, the common case in these tests.
fn keys(segments: &[&str]) -> SubkeyPath {
    path(segments.iter().map(|k| Subkey::Key((*k).to_string())))
}

fn digest(envelope: &Envelope) -> EnvelopeDigest {
    envelope.digest().unwrap()
}

/// A namespace deep enough for paths to resolve inside it.
fn tree() -> Namespace {
    Namespace {
        value: table([
            ("host".to_string(), Value::String("one".to_string())),
            ("port".to_string(), Value::Int(1)),
            (
                "tags".to_string(),
                Value::Array(vec![Value::String("x".to_string())]),
            ),
        ]),
    }
}

/// A namespace nested two levels deep, so `b.c` and `b` are both
/// writable paths inside it.
fn nested() -> Namespace {
    Namespace {
        value: table([(
            "b".to_string(),
            table([
                ("c".to_string(), Value::Int(1)),
                ("d".to_string(), Value::Int(2)),
            ]),
        )]),
    }
}

fn set_ns(prev: EnvelopeDigest, k: &str, namespace: Namespace) -> Envelope {
    envelope(Msg::SetNamespace(SetNamespace {
        prev,
        key: key(k),
        namespace,
    }))
}

/// A namespace holding one string, for the fork tests where only the
/// key written matters.
fn set_str(prev: EnvelopeDigest, k: &str, v: &str) -> Envelope {
    set_ns(
        prev,
        k,
        Namespace {
            value: Value::String(v.to_string()),
        },
    )
}

fn set_key(prev: EnvelopeDigest, k: &str, path: SubkeyPath, value: Option<Value>) -> Envelope {
    envelope(Msg::SetNamespaceKey(SetNamespaceKey {
        prev,
        key: key(k),
        path,
        value,
    }))
}

fn amend(prev: EnvelopeDigest, k: &str, path: Option<SubkeyPath>, op: AmendOp) -> Envelope {
    envelope(Msg::AmendNamespaceKey(AmendNamespaceKey {
        prev,
        key: key(k),
        path,
        op,
    }))
}

fn delete(prev: EnvelopeDigest, k: &str) -> Envelope {
    envelope(Msg::DeleteNamespace(DeleteNamespace { prev, key: key(k) }))
}

fn genesis(entries: impl IntoIterator<Item = (NamespaceKey, Namespace)>) -> Envelope {
    envelope(Msg::Init(InitMsg {
        state: FullCheckpoint {
            namespaces: namespaces(entries),
        },
    }))
}

fn setup() -> (MemStorage, Chain) {
    let mut store = MemStorage::default();
    let chain = Chain::init(&mut store, genesis([])).unwrap();
    (store, chain)
}

/// Splits two sibling envelopes into (winner, loser) by the fork rule: the
/// lower digest wins.
fn ranked(a: Envelope, b: Envelope) -> (Envelope, Envelope) {
    if digest(&a) < digest(&b) {
        (a, b)
    } else {
        (b, a)
    }
}

/// Ingests a run of envelopes and reports what the head movement
/// changed — the way a caller holds a differ across an insert.
fn ingest(
    store: &mut MemStorage,
    chain: &mut Chain,
    envelopes: impl IntoIterator<Item = Envelope>,
) -> ChangeSet {
    movement(store, chain, envelopes).changes
}

/// The same, kept whole for the tests that weigh what was orphaned.
fn movement(
    store: &mut MemStorage,
    chain: &mut Chain,
    envelopes: impl IntoIterator<Item = Envelope>,
) -> Movement {
    let differ = ChangeDiffer::opened_at(chain.head());
    for envelope in envelopes {
        chain.insert(store, envelope).unwrap();
    }
    differ.diff(store, chain.head()).unwrap()
}

/// The change set for a namespace written whole.
fn whole(k: &str) -> (NamespaceKey, Change) {
    (key(k), Change::Whole)
}

fn paths(k: &str, paths: impl IntoIterator<Item = SubkeyPath>) -> (NamespaceKey, Change) {
    let mut set: SortedSet<SubkeyPath> = SortedSet::new();
    for path in paths {
        set.insert(path);
    }
    (key(k), Change::Paths(set))
}

fn expect(entries: impl IntoIterator<Item = (NamespaceKey, Change)>) -> ChangeSet {
    let mut changes = ChangeSet::new();
    for (key, change) in entries {
        changes.entries.insert(key, change);
    }
    changes
}

fn digests(all: impl IntoIterator<Item = EnvelopeDigest>) -> SortedSet<EnvelopeDigest> {
    let mut set: SortedSet<EnvelopeDigest> = SortedSet::new();
    for digest in all {
        set.insert(digest);
    }
    set
}

#[test]
fn a_head_that_did_not_move_changed_nothing() {
    let (store, chain) = setup();
    let differ = ChangeDiffer::opened_at(chain.head());

    assert_eq!(
        differ.diff(&store, chain.head()).unwrap(),
        Movement::new()
    );
}

#[test]
fn writing_a_namespace_changes_the_whole_of_it() {
    let (mut store, mut chain) = setup();
    let envelope = set_ns(chain.head(), "a", tree());

    let changes = ingest(&mut store, &mut chain, [envelope]);

    assert_eq!(changes, expect([whole("a")]));
    // Written whole, so every path inside it is suspect.
    assert!(changes.touches(&key("a"), None));
    assert!(changes.touches(&key("a"), Some(&keys(&["host"]))));
    assert!(!changes.touches(&key("b"), None));
}

#[test]
fn deleting_a_namespace_changes_the_whole_of_it() {
    let (mut store, mut chain) = setup();
    let write = set_ns(chain.head(), "a", tree());
    chain.insert(&mut store, write).unwrap();
    let envelope = delete(chain.head(), "a");

    assert_eq!(
        ingest(&mut store, &mut chain, [envelope]),
        expect([whole("a")])
    );
}

/// The case that makes paths worth recording at all: a write inside a
/// namespace is not a change to its siblings.
#[test]
fn writing_a_key_changes_only_the_path_it_addresses() {
    let (mut store, mut chain) = setup();
    let write = set_ns(chain.head(), "a", tree());
    chain.insert(&mut store, write).unwrap();
    let envelope = set_key(
        chain.head(),
        "a",
        keys(&["host"]),
        Some(Value::String("two".to_string())),
    );

    let changes = ingest(&mut store, &mut chain, [envelope]);

    assert_eq!(changes, expect([paths("a", [keys(&["host"])])]));
    assert!(changes.touches(&key("a"), Some(&keys(&["host"]))));
    // Same namespace, a sibling path: untouched.
    assert!(!changes.touches(&key("a"), Some(&keys(&["port"]))));
    // Paths match in both directions: above the write, and below it.
    assert!(changes.touches(&key("a"), None));
    assert!(changes.touches(&key("a"), Some(&keys(&["host", "inner"]))));
}

#[test]
fn clearing_a_key_changes_its_path() {
    let (mut store, mut chain) = setup();
    let write = set_ns(chain.head(), "a", tree());
    chain.insert(&mut store, write).unwrap();
    let envelope = set_key(chain.head(), "a", keys(&["host"]), None);

    assert_eq!(
        ingest(&mut store, &mut chain, [envelope]),
        expect([paths("a", [keys(&["host"])])])
    );
}

/// Array indices separate paths the same way map keys do.
#[test]
fn writing_an_index_leaves_its_siblings_untouched() {
    let (mut store, mut chain) = setup();
    let write = set_ns(chain.head(), "a", tree());
    chain.insert(&mut store, write).unwrap();
    let envelope = set_key(
        chain.head(),
        "a",
        path([Subkey::Key("tags".to_string()), Subkey::Index(0)]),
        Some(Value::String("y".to_string())),
    );

    let changes = ingest(&mut store, &mut chain, [envelope]);

    assert!(changes.touches(
        &key("a"),
        Some(&path([Subkey::Key("tags".to_string()), Subkey::Index(0)]))
    ));
    assert!(!changes.touches(
        &key("a"),
        Some(&path([Subkey::Key("tags".to_string()), Subkey::Index(1)]))
    ));
    // The array the write landed in is above it, so it matches.
    assert!(changes.touches(&key("a"), Some(&keys(&["tags"]))));
}

#[test]
fn an_amend_changes_the_path_it_amends() {
    let (mut store, mut chain) = setup();
    let write = set_ns(chain.head(), "a", tree());
    chain.insert(&mut store, write).unwrap();
    let envelope = amend(
        chain.head(),
        "a",
        Some(keys(&["tags"])),
        AmendOp::AppendEntry(Value::String("y".to_string())),
    );

    let changes = ingest(&mut store, &mut chain, [envelope]);

    assert_eq!(changes, expect([paths("a", [keys(&["tags"])])]));
    assert!(!changes.touches(&key("a"), Some(&keys(&["host"]))));
}

/// A pathless amend transforms the namespace's own value, so there is
/// no path to record.
#[test]
fn a_pathless_amend_changes_the_whole_namespace() {
    let (mut store, mut chain) = setup();
    let write = set_ns(
        chain.head(),
        "n",
        Namespace {
            value: Value::Int(1),
        },
    );
    chain.insert(&mut store, write).unwrap();
    let envelope = amend(
        chain.head(),
        "n",
        None,
        AmendOp::IncrementDecrement(IncrementDecrement::new(1)),
    );

    assert_eq!(
        ingest(&mut store, &mut chain, [envelope]),
        expect([whole("n")])
    );
}

#[test]
fn a_batch_unions_what_every_envelope_touched() {
    let (mut store, mut chain) = setup();
    let write = set_ns(chain.head(), "a", tree());
    chain.insert(&mut store, write).unwrap();

    let first = set_key(
        chain.head(),
        "a",
        keys(&["host"]),
        Some(Value::String("two".to_string())),
    );
    let second = set_key(digest(&first), "a", keys(&["port"]), Some(Value::Int(2)));
    let third = set_str(digest(&second), "b", "1");

    assert_eq!(
        ingest(&mut store, &mut chain, [first, second, third]),
        expect([paths("a", [keys(&["host"]), keys(&["port"])]), whole("b"),])
    );
}

/// Two envelopes in one run, each writing a different namespace: both
/// are changes, neither shadows the other.
#[test]
fn two_envelopes_touching_different_namespaces_both_count() {
    let (mut store, mut chain) = setup();
    let first = set_str(chain.head(), "a", "1");
    let second = set_str(digest(&first), "b", "2");

    let changes = ingest(&mut store, &mut chain, [first, second]);

    assert_eq!(changes, expect([whole("a"), whole("b")]));
    assert!(changes.touches(&key("a"), None));
    assert!(changes.touches(&key("b"), None));
}

/// A write over a path already recorded absorbs it: `n.b` covers
/// everything `n.b.c` addresses, so recording both would say nothing
/// the shallower path does not.
#[test]
fn a_shallower_path_absorbs_the_deeper_one_recorded_before_it() {
    let (mut store, mut chain) = setup();
    let write = set_ns(chain.head(), "n", nested());
    chain.insert(&mut store, write).unwrap();

    let first = set_key(chain.head(), "n", keys(&["b", "c"]), Some(Value::Int(9)));
    let second = set_key(
        digest(&first),
        "n",
        keys(&["b"]),
        Some(table([])),
    );

    let changes = ingest(&mut store, &mut chain, [first, second]);

    assert_eq!(changes, expect([paths("n", [keys(&["b"])])]));
    // Absorbing loses nothing: the deeper path still reads as changed.
    assert!(changes.touches(&key("n"), Some(&keys(&["b", "c"]))));
    assert!(changes.touches(&key("n"), Some(&keys(&["b", "d"]))));
}

/// The same, arriving the other way round: a path already covered by a
/// shallower one is not recorded beside it.
#[test]
fn a_deeper_path_recorded_after_a_shallower_one_adds_nothing() {
    let (mut store, mut chain) = setup();
    let write = set_ns(chain.head(), "n", nested());
    chain.insert(&mut store, write).unwrap();

    let first = set_key(
        chain.head(),
        "n",
        keys(&["b"]),
        Some(table([(
            "c".to_string(),
            Value::Int(1),
        )])),
    );
    let second = set_key(digest(&first), "n", keys(&["b", "c"]), Some(Value::Int(9)));

    assert_eq!(
        ingest(&mut store, &mut chain, [first, second]),
        expect([paths("n", [keys(&["b"])])])
    );
}

/// A namespace written whole swallows the paths recorded beside it:
/// nothing under it can be ruled out any more.
#[test]
fn a_whole_write_absorbs_the_paths_recorded_beside_it() {
    let (mut store, mut chain) = setup();
    let write = set_ns(chain.head(), "a", tree());
    chain.insert(&mut store, write).unwrap();

    let first = set_key(
        chain.head(),
        "a",
        keys(&["host"]),
        Some(Value::String("two".to_string())),
    );
    let second = set_ns(digest(&first), "a", tree());

    let changes = ingest(&mut store, &mut chain, [first, second]);

    assert_eq!(changes, expect([whole("a")]));
    assert!(changes.touches(&key("a"), Some(&keys(&["port"]))));
}

/// A fork that loses leaves the head where it stood, so nothing an
/// existing reader holds has changed.
#[test]
fn a_losing_fork_changes_nothing() {
    let (mut store, mut chain) = setup();
    let (winner, loser) = ranked(
        set_str(chain.head(), "a", "1"),
        set_str(chain.head(), "b", "2"),
    );
    chain.insert(&mut store, winner).unwrap();

    assert!(ingest(&mut store, &mut chain, [loser]).is_empty());
}

/// A reorg covers the branch left behind as well as the one taken: the
/// loser's write is rolled back, which is a change to anyone reading it.
#[test]
fn a_reorg_covers_both_the_branch_left_and_the_branch_taken() {
    let (mut store, mut chain) = setup();
    let (winner, loser) = ranked(
        set_str(chain.head(), "a", "1"),
        set_str(chain.head(), "b", "2"),
    );
    chain.insert(&mut store, loser).unwrap();

    assert_eq!(
        ingest(&mut store, &mut chain, [winner]),
        expect([whole("a"), whole("b")])
    );
}

/// A fork below the head undoes every envelope above it. The envelope
/// the branches share is not a change — only what sits above it is.
#[test]
fn a_deep_reorg_undoes_every_envelope_above_the_fork() {
    let (mut store, mut chain) = setup();
    let base = set_str(chain.head(), "base", "0");
    chain.insert(&mut store, base.clone()).unwrap();

    let (winner, loser) = ranked(
        set_str(digest(&base), "a", "1"),
        set_str(digest(&base), "b", "2"),
    );
    let tail = set_str(digest(&loser), "c", "3");
    chain.insert(&mut store, loser).unwrap();
    chain.insert(&mut store, tail).unwrap();

    let changes = ingest(&mut store, &mut chain, [winner.clone()]);

    assert_eq!(chain.head(), digest(&winner));
    assert_eq!(changes, expect([whole("a"), whole("b"), whole("c")]));
    // The fork point is common to both branches, so it never moved.
    assert!(!changes.touches(&key("base"), None));
}

/// A deep fork that loses still moves nothing, however many envelopes
/// hang off it.
#[test]
fn a_deep_losing_fork_changes_nothing() {
    let (mut store, mut chain) = setup();
    let base = set_str(chain.head(), "base", "0");
    chain.insert(&mut store, base.clone()).unwrap();

    let (winner, loser) = ranked(
        set_str(digest(&base), "a", "1"),
        set_str(digest(&base), "b", "2"),
    );
    chain.insert(&mut store, winner).unwrap();
    let tail = set_str(digest(&loser), "c", "3");

    assert!(ingest(&mut store, &mut chain, [loser, tail]).is_empty());
}

/// Moving forward takes nothing off the chain.
#[test]
fn a_fast_forward_orphans_nothing() {
    let (mut store, mut chain) = setup();
    let first = set_str(chain.head(), "a", "1");
    let second = set_str(digest(&first), "b", "2");

    let movement = movement(&mut store, &mut chain, [first, second]);

    assert!(movement.orphaned.is_empty());
    assert!(!movement.changes.is_empty());
}

#[test]
fn a_reorg_orphans_the_branch_left_behind() {
    let (mut store, mut chain) = setup();
    let (winner, loser) = ranked(
        set_str(chain.head(), "a", "1"),
        set_str(chain.head(), "b", "2"),
    );
    chain.insert(&mut store, loser.clone()).unwrap();

    let movement = movement(&mut store, &mut chain, [winner.clone()]);

    assert_eq!(movement.orphaned, digests([digest(&loser)]));
    // The winner joined the chain; it did not leave it.
    assert!(!movement.orphaned.contains(&digest(&winner)));
}

/// Everything above the fork goes, not just the tip that was the head.
#[test]
fn a_deep_reorg_orphans_every_envelope_above_the_fork() {
    let (mut store, mut chain) = setup();
    let base = set_str(chain.head(), "base", "0");
    chain.insert(&mut store, base.clone()).unwrap();

    let (winner, loser) = ranked(
        set_str(digest(&base), "a", "1"),
        set_str(digest(&base), "b", "2"),
    );
    let tail = set_str(digest(&loser), "c", "3");
    chain.insert(&mut store, loser.clone()).unwrap();
    chain.insert(&mut store, tail.clone()).unwrap();

    let movement = movement(&mut store, &mut chain, [winner]);

    assert_eq!(
        movement.orphaned,
        digests([digest(&loser), digest(&tail)])
    );
    // The fork point stayed canonical throughout.
    assert!(!movement.orphaned.contains(&digest(&base)));
}

/// A fork that never won was never on the chain, so it leaves nothing.
#[test]
fn a_losing_fork_orphans_nothing() {
    let (mut store, mut chain) = setup();
    let (winner, loser) = ranked(
        set_str(chain.head(), "a", "1"),
        set_str(chain.head(), "b", "2"),
    );
    chain.insert(&mut store, winner).unwrap();

    assert_eq!(
        movement(&mut store, &mut chain, [loser]),
        Movement::new()
    );
}

/// Two chains sharing a store share no ancestor, so nothing can be said
/// about the distance between their heads.
#[test]
fn heads_of_different_chains_diverge() {
    let mut store = MemStorage::default();
    let one = Chain::init(&mut store, genesis([])).unwrap();
    let two = Chain::init(&mut store, genesis([(key("a"), tree())])).unwrap();

    let err = ChangeDiffer::opened_at(one.head())
        .diff(&store, two.head())
        .unwrap_err();

    assert!(matches!(
        err,
        Error::Diverged { from, to } if from == one.head() && to == two.head()
    ));
}

/// A movement reports the same changes either way round; what it orphans is
/// what the head it leaves has alone.
#[test]
fn a_movement_reads_both_ways() {
    let (mut store, mut chain) = setup();
    let base = set_str(chain.head(), "base", "0");
    let left = set_str(digest(&base), "a", "1");
    let above = set_str(digest(&left), "b", "2");
    let right = set_str(digest(&base), "c", "3");
    for envelope in [&base, &left, &above, &right] {
        chain.insert(&mut store, envelope.clone()).unwrap();
    }
    let (from, to) = (digest(&above), digest(&right));
    let there = ChangeDiffer::opened_at(from).diff(&store, to).unwrap();
    let back = ChangeDiffer::opened_at(to).diff(&store, from).unwrap();
    assert_eq!(there.changes, back.changes);
    assert_eq!(there.changes, expect([whole("a"), whole("b"), whole("c")]));
    assert_eq!(there.orphaned, digests([digest(&left), digest(&above)]));
    assert_eq!(back.orphaned, digests([digest(&right)]));
    assert!(ChangeDiffer::opened_at(to).diff(&store, to).unwrap().is_empty());
}
