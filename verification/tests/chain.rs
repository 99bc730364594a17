//! How a chain resolves forks, and what it reports of an envelope.

use core::cell::Cell;
use core::convert::Infallible;

use lotus::digest::EnvelopeDigest;
use lotus::envelope::{Envelope, Signatures};
use lotus::msg::{
    DeleteNamespace, FullCheckpoint, InitMsg, Msg, Namespace, NamespaceKey, Namespaces,
    SetNamespace,
};
use lotus::state::chain::{Chain, Insert};
use lotus::state::error::{ApplyError, Error};
use lotus::state::rules::MIN_KEEP_MINUTES_KEY;
use lotus::storage::log::LogEntry;
use lotus::storage::mem::MemStorage;
use lotus::storage::{NamespaceOp, Storage, Store};
use lotus::value::Value;

/// A digest that differs wherever the text does, as far as these tests go.
fn hashed(text: &str) -> [u8; 32] {
    let mut out: [u8; 32] = [0; 32];
    for lane in 0..4usize {
        let mut h: u64 = 0xcbf2_9ce4_8422_2325 ^ (lane as u64).wrapping_mul(0x9e37_79b9_7f4a_7c15);
        for byte in text.bytes() {
            h = (h ^ u64::from(byte)).wrapping_mul(0x0000_0100_0000_01b3);
            h ^= h >> 29;
        }
        out[lane * 8..lane * 8 + 8].copy_from_slice(&h.to_be_bytes());
    }
    out
}

/// The digest of what an envelope says and who signed it.
fn digest_of(payload: &Msg, signatures: &Signatures) -> EnvelopeDigest {
    EnvelopeDigest::from_bytes(hashed(&format!("{payload:?} {signatures:?}")))
}

fn envelope(payload: Msg) -> Envelope {
    let digest = digest_of(&payload, &Signatures::new());
    Envelope::new(payload, digest)
}

fn namespaces(entries: impl IntoIterator<Item = (NamespaceKey, Namespace)>) -> Namespaces {
    let mut namespaces = Namespaces::new();
    for (key, namespace) in entries {
        namespaces.insert(key, namespace);
    }
    namespaces
}

fn key(k: &str) -> NamespaceKey {
    NamespaceKey::try_new(k).unwrap()
}

fn ns(v: &str) -> Namespace {
    Namespace {
        value: Value::String(v.to_string()),
    }
}

fn init() -> Envelope {
    envelope(Msg::Init(InitMsg {
        state: FullCheckpoint { namespaces: Namespaces::new() },
    }))
}

fn set(prev: EnvelopeDigest, k: &str, v: &str) -> Envelope {
    envelope(Msg::SetNamespace(SetNamespace {
        prev,
        key: key(k),
        namespace: ns(v),
    }))
}

fn delete(prev: EnvelopeDigest, k: &str) -> Envelope {
    envelope(Msg::DeleteNamespace(DeleteNamespace { prev, key: key(k) }))
}

fn setup() -> (MemStorage, Chain) {
    let mut store = MemStorage::default();
    let chain = Chain::init(&mut store, init()).unwrap();
    (store, chain)
}

fn digest(envelope: &Envelope) -> EnvelopeDigest {
    envelope.digest().unwrap()
}

/// Splits two sibling envelopes into (winner, loser) by the fork rule.
fn ranked(a: Envelope, b: Envelope) -> (Envelope, Envelope) {
    if digest(&a) < digest(&b) {
        (a, b)
    } else {
        (b, a)
    }
}

/// The namespace key a `SetNamespace` envelope writes.
fn key_of(envelope: &Envelope) -> NamespaceKey {
    match envelope.payload() {
        Msg::SetNamespace(set) => set.key.clone(),
        _ => unreachable!("test envelopes are SetNamespace"),
    }
}

fn has(store: &MemStorage, chain: &Chain, k: &NamespaceKey) -> bool {
    chain.ledger().namespace(store, k).unwrap().is_some()
}

/// A store that answers only so many questions about its log.
struct Tiring {
    inner: MemStorage,
    answers: Cell<usize>,
}

#[derive(Debug, PartialEq, Eq)]
struct Tired;

fn sure<T>(answer: Result<T, Infallible>) -> Result<T, Tired> {
    answer.map_err(|never| match never {})
}

impl Storage for Tiring {
    type Error = Tired;

    fn store(&self) -> Store {
        unreachable!("only contracts speak of it")
    }

    fn wf(&self) -> bool {
        unreachable!("only contracts speak of it")
    }

    fn fails() -> bool {
        unreachable!("only contracts speak of it")
    }

    fn contains_version(&self, head: EnvelopeDigest) -> Result<bool, Tired> {
        sure(self.inner.contains_version(head))
    }

    fn namespace(&self, head: EnvelopeDigest, key: &NamespaceKey) -> Result<Option<Namespace>, Tired> {
        sure(self.inner.namespace(head, key))
    }

    fn namespaces(&self, head: EnvelopeDigest) -> Result<Namespaces, Tired> {
        sure(self.inner.namespaces(head))
    }

    fn commit(
        &mut self,
        parent: EnvelopeDigest,
        head: EnvelopeDigest,
        op: NamespaceOp,
    ) -> Result<(), Tired> {
        sure(self.inner.commit(parent, head, op))
    }

    fn install(&mut self, head: EnvelopeDigest, namespaces: Namespaces) -> Result<(), Tired> {
        sure(self.inner.install(head, namespaces))
    }

    fn retain(&mut self, keep: &Vec<EnvelopeDigest>) -> Result<(), Tired> {
        sure(self.inner.retain(keep))
    }

    fn put_envelope(&mut self, digest: EnvelopeDigest, envelope: Envelope) -> Result<(), Tired> {
        sure(self.inner.put_envelope(digest, envelope))
    }

    fn logged_envelope(&self, digest: EnvelopeDigest) -> Result<Option<LogEntry>, Tired> {
        match self.answers.get() {
            0 => Err(Tired),
            left => {
                self.answers.set(left - 1);
                sure(self.inner.logged_envelope(digest))
            }
        }
    }

    fn parent(&self, digest: EnvelopeDigest) -> Result<Option<EnvelopeDigest>, Tired> {
        sure(self.inner.parent(digest))
    }

    fn remove_envelope(&mut self, digest: EnvelopeDigest) -> Result<(), Tired> {
        sure(self.inner.remove_envelope(digest))
    }

    fn children(&self, parent: EnvelopeDigest) -> Result<Vec<EnvelopeDigest>, Tired> {
        sure(self.inner.children(parent))
    }
}

/// Where the store fails before the walk is done the head stays; where it
/// fails after, the head is the settled one.
#[test]
fn a_store_that_fails_leaves_the_old_head_or_the_settled_one() {
    for (answers, moves) in [(0, false), (1, true)] {
        let (store, mut chain) = setup();
        let mut store = Tiring {
            inner: store,
            answers: Cell::new(answers),
        };
        let from = chain.head();
        let next = set(from, "a", "1");
        assert!(matches!(
            chain.insert(&mut store, next.clone()),
            Err(Error::Storage(Tired))
        ));
        assert_eq!(chain.head(), if moves { digest(&next) } else { from });
    }
}

#[test]
fn insert_extends_the_chain() {
    let (mut store, mut chain) = setup();
    let envelope = set(chain.head(), "a", "1");

    assert_eq!(
        chain.insert(&mut store, envelope.clone()).unwrap(),
        Insert::Extended
    );
    assert_eq!(chain.head(), digest(&envelope));
    assert!(has(&store, &chain, &key("a")));
}

/// Of two children contesting one parent, the lower digest wins; the
/// loser arriving second changes nothing.
#[test]
fn a_losing_fork_leaves_the_head_alone() {
    let (mut store, mut chain) = setup();
    let (winner, loser) = ranked(set(chain.head(), "a", "1"), set(chain.head(), "b", "2"));

    chain.insert(&mut store, winner.clone()).unwrap();
    assert_eq!(
        chain.insert(&mut store, loser.clone()).unwrap(),
        Insert::Unchanged
    );

    assert_eq!(chain.head(), digest(&winner));
    assert!(has(&store, &chain, &key_of(&winner)));
    assert!(!has(&store, &chain, &key_of(&loser)));
}

/// The winner arriving second reorgs the head: the loser's write is
/// rolled back, the winner's takes its place.
#[test]
fn a_winning_fork_reorgs_the_head() {
    let (mut store, mut chain) = setup();
    let (winner, loser) = ranked(set(chain.head(), "a", "1"), set(chain.head(), "b", "2"));

    chain.insert(&mut store, loser.clone()).unwrap();
    assert_eq!(
        chain.insert(&mut store, winner.clone()).unwrap(),
        Insert::Reorged {
            from: digest(&loser)
        }
    );

    assert_eq!(chain.head(), digest(&winner));
    assert!(has(&store, &chain, &key_of(&winner)));
    assert!(!has(&store, &chain, &key_of(&loser)));
}

/// One low digest at the fork beats any number of descendants on the
/// other side — there is no notion of chain length or weight.
#[test]
fn a_longer_losing_branch_stays_losing() {
    let (mut store, mut chain) = setup();
    let (winner, loser) = ranked(set(chain.head(), "a", "1"), set(chain.head(), "b", "2"));

    chain.insert(&mut store, loser.clone()).unwrap();
    let tail = set(digest(&loser), "c", "3");
    assert_eq!(
        chain.insert(&mut store, tail.clone()).unwrap(),
        Insert::Extended
    );

    assert_eq!(
        chain.insert(&mut store, winner.clone()).unwrap(),
        Insert::Reorged {
            from: digest(&tail)
        }
    );
    assert_eq!(chain.head(), digest(&winner));

    // Growing the losing branch further changes nothing…
    let more = set(digest(&tail), "d", "4");
    assert_eq!(chain.insert(&mut store, more).unwrap(), Insert::Unchanged);

    // …while the winning branch extends normally.
    let next = set(chain.head(), "e", "5");
    assert_eq!(
        chain.insert(&mut store, next.clone()).unwrap(),
        Insert::Extended
    );
    assert_eq!(chain.head(), digest(&next));
}

/// Sync transmits parent-first from the intersection point, so a
/// parent the log doesn't hold is a protocol breach, not a gap to
/// buffer around.
#[test]
fn an_unknown_parent_is_rejected() {
    let (mut store, mut chain) = setup();
    let parent = set(chain.head(), "a", "1");
    let child = set(digest(&parent), "b", "2");

    let err = chain.insert(&mut store, child.clone()).unwrap_err();
    assert!(matches!(err, Error::UnknownParent(p) if p == digest(&parent)));
    assert_eq!(store.envelope(digest(&child)).unwrap(), None, "never filed");
    assert_eq!(chain.head(), chain.root(), "head must not move");

    // Delivered in order, both land.
    chain.insert(&mut store, parent).unwrap();
    assert_eq!(
        chain.insert(&mut store, child.clone()).unwrap(),
        Insert::Extended
    );
    assert_eq!(chain.head(), digest(&child));
}

/// When the parent's state is at hand, an envelope that fails to apply
/// is refused with the failure itself — and never filed.
#[test]
fn an_invalid_envelope_is_refused_at_the_door() {
    let (mut store, mut chain) = setup();
    // Deleting a namespace that doesn't exist fails validation.
    let bad = delete(chain.head(), "nope");

    let err = chain.insert(&mut store, bad.clone()).unwrap_err();
    assert!(matches!(
        err,
        Error::Apply(ApplyError::UnknownNamespace(k)) if k == key("nope")
    ));

    assert_eq!(store.envelope(digest(&bad)).unwrap(), None, "never filed");
    assert_eq!(chain.head(), chain.root(), "head must not move");
}

/// A parent whose version was pruned can't back a probation, so its
/// children are refused rather than filed unvalidated.
#[test]
fn a_pruned_parent_refuses_new_children() {
    let (mut store, mut chain) = setup();
    let parent = set(chain.head(), "a", "1");
    chain.insert(&mut store, parent.clone()).unwrap();

    // Prune every version but the root; the parent survives only in
    // the log.
    store.retain(&vec![chain.root()]).unwrap();

    let child = set(digest(&parent), "b", "2");
    assert!(matches!(
        chain.insert(&mut store, child.clone()).unwrap_err(),
        Error::UnknownParent(p) if p == digest(&parent)
    ));
    assert_eq!(store.envelope(digest(&child)).unwrap(), None, "never filed");
    assert_eq!(chain.head(), digest(&parent), "head must not move");
}

/// `insert` files only validated envelopes, but the walk stays
/// defensive: an invalid envelope that reached the log some other
/// way is dropped the moment the walk finds it out.
#[test]
fn the_walk_drops_an_invalid_envelope_from_the_log() {
    let (mut store, mut chain) = setup();
    let bad = delete(chain.head(), "nope");
    store.put_envelope(digest(&bad), bad.clone()).unwrap();

    // Grind until the valid sibling loses the digest race, so the
    // walk must adjudicate `bad` before reaching it.
    let good = (0..)
        .map(|i| set(chain.head(), "a", &format!("v{i}")))
        .find(|e| digest(e) > digest(&bad))
        .expect("some value hashes above bad");
    chain.insert(&mut store, good.clone()).unwrap();

    assert_eq!(chain.head(), digest(&good));
    assert_eq!(store.envelope(digest(&bad)).unwrap(), None, "dropped");
}

#[test]
fn a_duplicate_is_reported_and_ignored() {
    let (mut store, mut chain) = setup();
    let envelope = set(chain.head(), "a", "1");

    chain.insert(&mut store, envelope.clone()).unwrap();
    assert_eq!(
        chain.insert(&mut store, envelope.clone()).unwrap(),
        Insert::Duplicate
    );
    assert_eq!(chain.head(), digest(&envelope));

    // Even the chain's own Init is refused rather than deduped —
    // Init envelopes never travel through insert.
    assert!(matches!(
        chain.insert(&mut store, init()),
        Err(Error::Apply(ApplyError::UnexpectedInit))
    ));
}

/// Chains share a store: an envelope filed by one is a duplicate to
/// the other's log, but a lagging cursor must still fold it in
/// rather than staying stale behind [`Insert::Duplicate`].
#[test]
fn a_duplicate_still_advances_a_lagging_chain() {
    let mut store = MemStorage::default();
    let mut leader = Chain::init(&mut store, init()).unwrap();
    let mut follower = Chain::init(&mut store, init()).unwrap();

    let envelope = set(leader.head(), "a", "1");
    leader.insert(&mut store, envelope.clone()).unwrap();
    assert_eq!(follower.head(), follower.root(), "not folded in yet");

    assert_eq!(
        follower.insert(&mut store, envelope.clone()).unwrap(),
        Insert::Extended
    );
    assert_eq!(follower.head(), leader.head());

    // Caught up, the same envelope is a true duplicate.
    assert_eq!(
        follower.insert(&mut store, envelope).unwrap(),
        Insert::Duplicate
    );
}

/// A *different* `Init` starts a different chain; it cannot be folded
/// into this one.
#[test]
fn a_second_init_is_rejected() {
    let (mut store, mut chain) = setup();
    let foreign = envelope(Msg::Init(InitMsg {
        state: FullCheckpoint {
            namespaces: namespaces([(key("x"), ns("1"))]),
        },
    }));

    assert!(matches!(
        chain.insert(&mut store, foreign),
        Err(Error::Apply(ApplyError::UnexpectedInit))
    ));
}

fn set_minutes(prev: EnvelopeDigest, minutes: i64) -> Envelope {
    envelope(Msg::SetNamespace(SetNamespace {
        prev,
        key: key(MIN_KEEP_MINUTES_KEY),
        namespace: Namespace {
            value: Value::Int(minutes),
        },
    }))
}

/// Config is namespace data like any other: it follows the canonical
/// branch, so a reorg can change what's in force.
#[test]
fn config_follows_the_canonical_branch() {
    let (mut store, mut chain) = setup();
    let (winner, loser) = ranked(
        set_minutes(chain.head(), 100),
        set_minutes(chain.head(), 200),
    );
    let minutes = |envelope: &Envelope| match envelope.payload() {
        Msg::SetNamespace(set) => match set.namespace.value {
            Value::Int(minutes) => u32::try_from(minutes).unwrap(),
            _ => unreachable!("both envelopes set an integer"),
        },
        _ => unreachable!("both envelopes are SetNamespace"),
    };

    chain.insert(&mut store, loser.clone()).unwrap();
    assert_eq!(chain.min_keep_minutes(&store).unwrap(), minutes(&loser));

    chain.insert(&mut store, winner.clone()).unwrap();
    assert_eq!(chain.head(), digest(&winner));
    assert_eq!(chain.min_keep_minutes(&store).unwrap(), minutes(&winner));
}

/// Everything durable lives in the store, so a chain reopened from
/// its root digest alone stands exactly where the original did.
#[test]
fn open_rederives_the_canonical_head() {
    let (mut store, mut chain) = setup();
    let (winner, loser) = ranked(set(chain.head(), "a", "1"), set(chain.head(), "b", "2"));
    chain.insert(&mut store, loser).unwrap();
    chain.insert(&mut store, winner).unwrap();
    chain
        .insert(&mut store, set_minutes(chain.head(), 42))
        .unwrap();

    let reopened = Chain::open(&mut store, chain.root()).unwrap();
    assert_eq!(reopened.head(), chain.head());
    assert_eq!(reopened.ledger(), chain.ledger());
    assert_eq!(reopened.min_keep_minutes(&store).unwrap(), 42);
}

/// Reopening survives pruned mid-chain versions: what `retain` drops
/// is re-derived from the envelope log.
#[test]
fn open_rebuilds_pruned_versions_from_the_log() {
    let (mut store, mut chain) = setup();
    let first = set(chain.head(), "a", "1");
    chain.insert(&mut store, first.clone()).unwrap();
    let second = set(chain.head(), "b", "2");
    chain.insert(&mut store, second).unwrap();

    // Keep only the root; the two applied versions are re-derived.
    store.retain(&vec![chain.root()]).unwrap();

    let reopened = Chain::open(&mut store, chain.root()).unwrap();
    assert_eq!(reopened.head(), chain.head());
    assert!(has(&store, &reopened, &key("a")));
    assert!(has(&store, &reopened, &key("b")));
}

/// Convergence: every parent-first arrival order of the same
/// envelopes ends at the same head with the same state — the
/// property sync depends on.
#[test]
fn arrival_order_does_not_matter() {
    let root = digest(&init());
    let a = set(root, "a", "1");
    let b = set(root, "b", "2");
    let c = set(digest(&a), "c", "3");
    let envelopes = [a, b, c];

    // Every order that delivers `a` before its child `c`.
    let outcomes: Vec<_> = [[0, 1, 2], [0, 2, 1], [1, 0, 2]]
        .iter()
        .map(|order| {
            let (mut store, mut chain) = setup();
            order.iter().for_each(|&i| {
                chain.insert(&mut store, envelopes[i].clone()).unwrap();
            });
            (chain.head(), chain.checkpoint(&store).unwrap())
        })
        .collect();

    assert!(outcomes.windows(2).all(|pair| pair[0] == pair[1]));
}

/// A node that takes a peer's canonical path alone ends where it would with
/// every envelope the peer holds, whichever of three siblings is whose.
#[test]
fn the_canonical_path_is_all_a_peer_needs() {
    for ours_at in 0..3usize {
        let (mut pulled, mut pulling) = setup();
        let (mut united, mut uniting) = setup();
        let (mut theirs, mut peer) = setup();
        let root = pulling.head();
        let siblings = [set(root, "a", "1"), set(root, "b", "2"), set(root, "c", "3")];

        // Ours is one branch of two envelopes; theirs are the other two.
        let ours = siblings[ours_at].clone();
        let above = set(digest(&ours), "ours", "x");
        for envelope in [&ours, &above] {
            pulling.insert(&mut pulled, envelope.clone()).unwrap();
            uniting.insert(&mut united, envelope.clone()).unwrap();
        }
        for (at, envelope) in siblings.iter().enumerate() {
            if at == ours_at {
                continue;
            }
            let next = set(digest(envelope), "theirs", "y");
            for sent in [envelope, &next] {
                peer.insert(&mut theirs, sent.clone()).unwrap();
                uniting.insert(&mut united, sent.clone()).unwrap();
            }
        }

        // The peer's path, oldest first.
        let mut path = Vec::new();
        let mut cursor = peer.head();
        while cursor != root {
            let envelope = theirs.envelope(cursor).unwrap().unwrap();
            cursor = envelope.payload().prev_digest().unwrap();
            path.insert(0, envelope);
        }
        assert_eq!(path.len(), 2);
        for envelope in path {
            pulling.insert(&mut pulled, envelope).unwrap();
        }

        assert_eq!(pulling.head(), uniting.head());
        for k in ["a", "b", "c", "ours", "theirs"] {
            assert_eq!(has(&pulled, &pulling, &key(k)), has(&united, &uniting, &key(k)));
        }
    }
}
