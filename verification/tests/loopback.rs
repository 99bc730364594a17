//! Two session machines wired straight to each other over two real chains.
//!
//! Every scenario runs synchronously and deterministically. What crosses
//! between them carries no verification status, so a receiver verifies what
//! it takes in.

use std::cell::RefCell;
use std::collections::VecDeque;

use lotus::digest::{EnvelopeDigest, KeyId};
use lotus::envelope::{Envelope, Signature, Signatures, VerificationStatus};
use lotus::msg::{
    FullCheckpoint, InitMsg, Msg, Namespace, NamespaceKey, Namespaces, SetNamespace,
};
use lotus::order::SortedMap;
use lotus::state::chain::{Chain, Insert};
use lotus::state::ledger::Ledger;
use lotus::state::rules::{MIN_ENVELOPE_WEIGHT_KEY, TRUSTED_KEYS_KEY};
use lotus::storage::mem::MemStorage;
use lotus::storage::Storage;
use lotus::sync::locator::{sample, split};
use lotus::sync::proto::{Envelopes, Message, Split};
use lotus::sync::puller::Puller;
use lotus::sync::server::Server;
use lotus::sync::session::{
    Answer, Breach, Effect, Input, PullOutcome, Query, ServeOutcome,
};
use lotus::sync::MAX_BATCH_ENVELOPES;
use lotus::value::{Key, PublicKey, Value};

/// A digest that differs wherever the text does, as far as these tests go.
fn hashed(text: &str) -> [u8; 32] {
    let mut out: [u8; 32] = [0; 32];
    for lane in 0..4usize {
        let mut h: u64 = 0xcbf2_9ce4_8422_2325 ^ (lane as u64).wrapping_mul(0x9e37_79b9_7f4a_7c15);
        for byte in text.bytes() {
            h = (h ^ u64::from(byte)).wrapping_mul(0x0000_0100_0000_01b3);
            h ^= h >> 29;
        }
        out[lane * 8..lane * 8 + 8].copy_from_slice(&h.to_be_bytes());
    }
    out
}

/// The digest of what an envelope says and who signed it.
fn digest_of(payload: &Msg, signatures: &Signatures) -> EnvelopeDigest {
    EnvelopeDigest::from_bytes(hashed(&format!("{payload:?} {signatures:?}")))
}

fn envelope(payload: Msg) -> Envelope {
    let digest = digest_of(&payload, &Signatures::new());
    Envelope::new(payload, digest)
}

fn namespaces(entries: impl IntoIterator<Item = (NamespaceKey, Namespace)>) -> Namespaces {
    let mut namespaces = Namespaces::new();
    for (key, namespace) in entries {
        namespaces.insert(key, namespace);
    }
    namespaces
}

fn table(entries: impl IntoIterator<Item = (String, Value)>) -> Value {
    let mut fields: SortedMap<String, Value> = SortedMap::new();
    for (name, value) in entries {
        fields.insert(name, value);
    }
    Value::Table(fields)
}

/// A signer, known by the seed its key comes from.
#[derive(Debug, Clone, Copy)]
struct Signer {
    seed: u8,
}

fn signing_key(seed: u8) -> Signer {
    Signer { seed }
}

/// The id a public key derives to.
fn derived(public: &PublicKey) -> KeyId {
    let PublicKey::Ed25519(bytes) = public;
    KeyId::from_bytes(hashed(&format!("key {bytes:?}")))
}

fn public_key(signer: &Signer) -> PublicKey {
    PublicKey::Ed25519([signer.seed; 32])
}

fn key_of_weight(public: PublicKey, weight: u32) -> Key {
    let id = derived(&public);
    Key::new(public, id, weight)
}

/// `envelope` with `signature` filed under `id`; the digest covers it.
fn with_signature(mut envelope: Envelope, id: KeyId, signature: Signature) -> Envelope {
    envelope.signatures.insert(id, signature);
    envelope.digest = Some(digest_of(&envelope.payload, &envelope.signatures));
    envelope
}

fn sign(envelope: Envelope, signer: &Signer) -> Envelope {
    with_signature(envelope, derived(&public_key(signer)), Signature { verifies: true })
}

fn key(k: &str) -> NamespaceKey {
    NamespaceKey::try_new(k).unwrap()
}

fn set_value(prev: EnvelopeDigest, k: &str, value: Value) -> Envelope {
    envelope(Msg::SetNamespace(SetNamespace {
        prev,
        key: key(k),
        namespace: Namespace { value },
    }))
}

fn set(prev: EnvelopeDigest, k: &str, v: &str) -> Envelope {
    set_value(prev, k, Value::String(v.to_string()))
}

fn digest(envelope: &Envelope) -> EnvelopeDigest {
    envelope.digest().unwrap()
}

/// A genesis whose checkpoint already trusts `keys`.
fn genesis_trusting(keys: impl IntoIterator<Item = Key>) -> Envelope {
    let trusted = table(keys.into_iter().map(|key| (key.id().to_hex(), Value::Key(key))));
    envelope(Msg::Init(InitMsg {
        state: FullCheckpoint {
            namespaces: namespaces([(key(TRUSTED_KEYS_KEY), Namespace { value: trusted })]),
        },
    }))
}

fn genesis_plain() -> Envelope {
    envelope(Msg::Init(InitMsg {
        state: FullCheckpoint { namespaces: Namespaces::new() },
    }))
}

/// One node: a real chain over in-memory storage, answering the queries
/// the machines emit — the same semantics the daemon's core will answer
/// with.
struct Node {
    store: MemStorage,
    chain: Chain,
}

impl Node {
    fn new(genesis: Envelope) -> Self {
        let mut store = MemStorage::default();
        let chain = Chain::init(&mut store, genesis).unwrap();
        Self { store, chain }
    }

    /// Verifies `envelope` where it stands, then files it.
    fn try_insert(&mut self, mut envelope: Envelope) -> Result<Insert, String> {
        if let Some(prev) = envelope.payload().prev_digest() {
            if let Ok(parent) = Ledger::open(&self.store, prev) {
                let status = parent
                    .verify_envelope(&self.store, &envelope)
                    .map_err(|error| error.text())?;
                envelope.set_verification_status(status);
            }
        }
        self.chain
            .insert(&mut self.store, envelope)
            .map_err(|error| error.text())
    }

    fn insert(&mut self, envelope: Envelope) -> Insert {
        self.try_insert(envelope).unwrap()
    }

    fn extend(&mut self, envelopes: impl IntoIterator<Item = Envelope>) {
        self.ingest(envelopes.into_iter().collect()).unwrap();
    }

    fn head(&self) -> EnvelopeDigest {
        self.chain.head()
    }

    fn holds(&self, digest: EnvelopeDigest) -> bool {
        self.store.envelope(digest).unwrap().is_some()
    }

    fn checkpoint(&self) -> FullCheckpoint {
        self.chain.checkpoint(&self.store).unwrap()
    }

    /// Walks the canonical path, newest first, down to the root.
    fn canonical(&self) -> Vec<EnvelopeDigest> {
        core::iter::successors(Some(self.chain.head()), |&at| {
            self.store.parent(at).unwrap()
        })
        .collect()
    }

    /// Answers a machine query with the semantics the daemon core will
    /// implement.
    fn answer(&self, query: Query) -> Answer {
        match query {
            Query::ContainsEnvelope(digest) => Answer::Contains(self.holds(digest)),
            Query::Locator => Answer::Locator(sample(&self.canonical())),
            Query::SplitPoint(entries) => Answer::SplitPoint(split(&entries, &self.canonical())),
            Query::Segment { after } => {
                let path = self.canonical();
                let Some(position) = path.iter().position(|&digest| digest == after) else {
                    // The cursor left the canonical path: end the stream.
                    return Answer::Segment(Vec::new());
                };
                let segment: Vec<Envelope> = path[..position]
                    .iter()
                    .rev()
                    .take(MAX_BATCH_ENVELOPES as usize)
                    .map(|&digest| self.store.envelope(digest).unwrap().unwrap())
                    .collect();
                Answer::Segment(segment)
            }
        }
    }

    fn ingest(&mut self, run: Vec<Envelope>) -> Result<Insert, String> {
        let mut last = Insert::Unchanged;
        for envelope in run {
            last = self.try_insert(envelope)?;
        }
        Ok(last)
    }
}

#[derive(Debug)]
enum Fault {
    Puller(Breach),
    // Only read through Debug when a test fails; that's its whole job.
    Server(Breach),
    // Only read through Debug when a test fails; that's its whole job.
    Ingest(String),
}

#[derive(Debug)]
struct Outcomes {
    pull: Option<PullOutcome>,
    serve: Option<ServeOutcome>,
}

/// What crosses the wire: the status an envelope was given here stays
/// here.
fn sent(message: Message) -> Message {
    match message {
        Message::Envelopes(Envelopes { mut batch }) => {
            for envelope in &mut batch {
                envelope.set_verification_status(VerificationStatus::Unchecked);
            }
            Message::Envelopes(Envelopes { batch })
        }
        other => other,
    }
}

fn run_sync(puller_node: &mut Node, server_node: &mut Node) -> Result<Outcomes, Fault> {
    run_sync_tampered(puller_node, server_node, |message| message)
}

/// Pumps one pull session to completion, applying `tamper` to every
/// server→puller frame — identity for honest runs, or a wiretap for
/// observing and corrupting traffic.
fn run_sync_tampered(
    puller_node: &mut Node,
    server_node: &mut Node,
    mut tamper: impl FnMut(Message) -> Message,
) -> Result<Outcomes, Fault> {
    let (mut puller, opening) = Puller::new(puller_node.head());
    let mut server = Server::new(server_node.head());
    let mut pull_effects: VecDeque<Effect<PullOutcome>> = VecDeque::from([opening]);
    let mut serve_effects: VecDeque<Effect<ServeOutcome>> = VecDeque::new();
    let mut outcomes = Outcomes {
        pull: None,
        serve: None,
    };

    loop {
        if let Some(effect) = pull_effects.pop_front() {
            match effect {
                Effect::Send(message) => {
                    serve_effects.extend(server.handle(Input::Message(sent(message))));
                }
                Effect::Ask(query) => {
                    let answer = puller_node.answer(query);
                    pull_effects.extend(puller.handle(Input::Answer(answer)));
                }
                Effect::Ingest(run) => match puller_node.ingest(run) {
                    Ok(_) => pull_effects.extend(puller.handle(Input::Ingested)),
                    Err(error) => return Err(Fault::Ingest(error)),
                },
                Effect::Done(outcome) => outcomes.pull = Some(outcome),
                Effect::Violation(breach) => return Err(Fault::Puller(breach)),
            }
            continue;
        }
        if let Some(effect) = serve_effects.pop_front() {
            match effect {
                Effect::Send(message) => {
                    let message = sent(tamper(message));
                    pull_effects.extend(puller.handle(Input::Message(message)));
                }
                Effect::Ask(query) => {
                    let answer = server_node.answer(query);
                    serve_effects.extend(server.handle(Input::Answer(answer)));
                }
                Effect::Ingest(_) => unreachable!("a server never emits Ingest"),
                Effect::Done(outcome) => outcomes.serve = Some(outcome),
                Effect::Violation(breach) => return Err(Fault::Server(breach)),
            }
            continue;
        }
        return Ok(outcomes);
    }
}

/// A linear run of `n` envelopes chaining onto `prev`.
fn run_of(prev: EnvelopeDigest, label: &str, n: usize) -> Vec<Envelope> {
    let mut cursor = prev;
    (0..n)
        .map(|i| {
            let envelope = set(cursor, &format!("{label}{i}"), "v");
            cursor = digest(&envelope);
            envelope
        })
        .collect()
}

#[test]
fn a_fresh_follower_fast_forwards() {
    let genesis = genesis_plain();
    let mut a = Node::new(genesis.clone());
    let mut b = Node::new(genesis);
    b.extend(run_of(b.head(), "b", 5));

    let outcomes = run_sync(&mut a, &mut b).unwrap();
    assert_eq!(
        outcomes.pull,
        Some(PullOutcome::Synced {
            head: b.head(),
            ingested: 5
        })
    );
    assert_eq!(
        outcomes.serve,
        Some(ServeOutcome::Served {
            head: b.head(),
            sent: 5
        })
    );
    assert_eq!(a.head(), b.head());
    assert_eq!(a.checkpoint(), b.checkpoint());
}

#[test]
fn identical_nodes_are_already_current() {
    let genesis = genesis_plain();
    let common = run_of(digest(&genesis), "c", 3);
    let mut a = Node::new(genesis.clone());
    let mut b = Node::new(genesis);
    a.extend(common.clone());
    b.extend(common);

    let outcomes = run_sync(&mut a, &mut b).unwrap();
    assert_eq!(outcomes.pull, Some(PullOutcome::AlreadyCurrent));
    assert_eq!(outcomes.serve, None, "the server was never asked to serve");
}

/// The puller being *ahead* looks the same: the peer's head is in our
/// log, so there is nothing to pull — the peer's own pull, running the
/// other way, is what moves the data.
#[test]
fn a_node_ahead_of_its_peer_pulls_nothing() {
    let genesis = genesis_plain();
    let mut a = Node::new(genesis.clone());
    let mut b = Node::new(genesis);
    a.extend(run_of(a.head(), "a", 3));
    let ahead = a.head();

    let outcomes = run_sync(&mut a, &mut b).unwrap();
    assert_eq!(outcomes.pull, Some(PullOutcome::AlreadyCurrent));
    assert_eq!(a.head(), ahead, "nothing moved");

    let outcomes = run_sync(&mut b, &mut a).unwrap();
    assert!(matches!(outcomes.pull, Some(PullOutcome::Synced { .. })));
    assert_eq!(b.head(), ahead);
}

/// The fork scenario: both sides extended the same parent while
/// partitioned. After each pulls the other, both hold both branches and
/// the deterministic rules pick the same winner.
#[test]
fn a_fork_on_both_sides_converges() {
    let genesis = genesis_plain();
    let common = run_of(digest(&genesis), "c", 2);
    let mut a = Node::new(genesis.clone());
    let mut b = Node::new(genesis);
    a.extend(common.clone());
    b.extend(common);

    let fork = a.head();
    // Ours is the one that wins: the lower digest does.
    let mut rivals = vec![set(fork, "a", "ours"), set(fork, "b", "theirs")];
    rivals.sort_by_key(digest);
    let theirs = rivals.pop().unwrap();
    let ours = rivals.pop().unwrap();
    let winner = ours.clone();
    a.insert(ours.clone());
    b.insert(theirs.clone());

    run_sync(&mut a, &mut b).unwrap();
    run_sync(&mut b, &mut a).unwrap();

    assert_eq!(a.head(), digest(&winner));
    assert_eq!(b.head(), a.head());
    assert_eq!(a.checkpoint(), b.checkpoint());
    assert!(a.holds(digest(&ours)) && a.holds(digest(&theirs)));
    assert!(b.holds(digest(&ours)) && b.holds(digest(&theirs)));
}

/// The locator's exponential spacing can land the split below the true
/// divergence; the stream then re-sends envelopes the puller has, and
/// the chain folds past them. Wiretap the `Split` to prove it really
/// overshot.
#[test]
fn a_split_past_the_fork_streams_duplicates() {
    let genesis = genesis_plain();
    let common = run_of(digest(&genesis), "c", 10);
    let mut a = Node::new(genesis.clone());
    let mut b = Node::new(genesis);
    a.extend(common.clone());
    b.extend(common);

    let fork = a.head();
    let ours = run_of(fork, "a", 3);
    let ours_first = ours[0].clone();
    a.extend(ours);
    let a_tip = a.head();
    let theirs = set(fork, "b", "theirs");
    b.insert(theirs.clone());

    // A's canonical path is 14 long: 3 own + 10 common + genesis. The
    // locator samples offsets 0,1,2 (own branch), then 4 — one past the
    // fork at offset 3 — so the split overshoots by one.
    let expected_split = a.canonical()[4];

    let observed = RefCell::new(None);
    let outcomes = run_sync_tampered(&mut a, &mut b, |message| {
        if let Message::Split(Split { at }) = &message {
            *observed.borrow_mut() = Some(*at);
        }
        message
    })
    .unwrap();

    assert_eq!(observed.into_inner(), Some(expected_split));
    // One duplicate (the common envelope above the split) plus the
    // peer's branch.
    assert_eq!(
        outcomes.pull,
        Some(PullOutcome::Synced {
            head: b.head(),
            ingested: 2
        })
    );

    run_sync(&mut b, &mut a).unwrap();
    assert_eq!(a.head(), b.head());
    // At the fork the lower child digest wins; A's win puts the head at
    // its three-deep tip.
    let expected = if digest(&ours_first) < digest(&theirs) {
        a_tip
    } else {
        digest(&theirs)
    };
    assert_eq!(a.head(), expected);
}

/// Chains that share nothing — a foreign cluster's peer looks exactly
/// like this — say so cleanly on both sides; nothing is streamed and
/// nothing changes. There is deliberately no in-band cluster identity: a
/// claim would be self-asserted, and the envelopes themselves are the
/// identity.
#[test]
fn disjoint_histories_report_no_common_history() {
    let mut a = Node::new(genesis_plain());
    let mut b = Node::new(genesis_trusting([]));
    b.extend(run_of(b.head(), "b", 2));
    let before = a.head();

    let outcomes = run_sync(&mut a, &mut b).unwrap();
    assert_eq!(outcomes.pull, Some(PullOutcome::NoCommonHistory));
    assert_eq!(outcomes.serve, Some(ServeOutcome::NoCommonHistory));
    assert_eq!(a.head(), before, "nothing moved");
}

/// A tampered stream — here, a batch reordered in flight — is pinned on
/// the peer before anything reaches the chain.
#[test]
fn a_reordered_batch_is_a_breach() {
    let genesis = genesis_plain();
    let mut a = Node::new(genesis.clone());
    let mut b = Node::new(genesis);
    b.extend(run_of(b.head(), "b", 3));

    let fault = run_sync_tampered(&mut a, &mut b, |message| match message {
        Message::Envelopes(Envelopes { mut batch }) => {
            batch.reverse();
            Message::Envelopes(Envelopes { batch })
        }
        other => other,
    })
    .unwrap_err();

    assert!(matches!(fault, Fault::Puller(Breach::BrokenRun { .. })));
    assert_eq!(a.head(), a.canonical()[0]);
    assert_eq!(a.canonical().len(), 1, "nothing was ingested");
}

/// Junk injected below the weight floor chains correctly — the machine
/// cannot fault it — but the chain refuses it at the door: never stored,
/// while the valid prefix it rode in on is kept.
#[test]
fn junk_below_the_weight_floor_is_refused_at_the_door() {
    let alice = signing_key(1);
    let genesis = genesis_trusting([key_of_weight(public_key(&alice), 3)]);
    let mut a = Node::new(genesis.clone());
    let mut b = Node::new(genesis);

    // Common history raises the floor to 3; everything after must carry
    // alice's signature to apply.
    let floor = set_value(a.head(), MIN_ENVELOPE_WEIGHT_KEY, Value::Int(3));
    a.insert(floor.clone());
    b.insert(floor);

    let one = sign(set(b.head(), "a", "1"), &alice);
    let two = sign(set(digest(&one), "b", "2"), &alice);
    b.extend([one, two.clone()]);

    let evil = RefCell::new(None);
    let fault = run_sync_tampered(&mut a, &mut b, |message| match message {
        Message::Envelopes(Envelopes { mut batch }) => {
            let tip = digest(batch.last().unwrap());
            let junk = set(tip, "evil", "1");
            *evil.borrow_mut() = Some(digest(&junk));
            batch.push(junk);
            Message::Envelopes(Envelopes { batch })
        }
        other => other,
    })
    .unwrap_err();

    assert!(matches!(fault, Fault::Ingest(_)));
    let evil = evil.into_inner().expect("the wiretap saw a batch");
    assert!(!a.holds(evil), "junk must never enter the log");
    assert_eq!(a.head(), digest(&two), "the valid prefix is kept");
}

#[test]
fn a_second_pull_is_a_noop() {
    let genesis = genesis_plain();
    let mut a = Node::new(genesis.clone());
    let mut b = Node::new(genesis);
    b.extend(run_of(b.head(), "b", 4));

    run_sync(&mut a, &mut b).unwrap();
    let outcomes = run_sync(&mut a, &mut b).unwrap();
    assert_eq!(outcomes.pull, Some(PullOutcome::AlreadyCurrent));
}

/// A run longer than one batch streams in bounded segments — and the
/// puller counts every envelope of every batch.
#[test]
fn long_streams_arrive_in_bounded_batches() {
    let genesis = genesis_plain();
    let mut a = Node::new(genesis.clone());
    let mut b = Node::new(genesis);
    let n = MAX_BATCH_ENVELOPES as usize + 44;
    b.extend(run_of(b.head(), "b", n));

    let batches = RefCell::new(Vec::new());
    let outcomes = run_sync_tampered(&mut a, &mut b, |message| {
        if let Message::Envelopes(Envelopes { batch }) = &message {
            batches.borrow_mut().push(batch.len());
        }
        message
    })
    .unwrap();

    assert_eq!(
        batches.into_inner(),
        [MAX_BATCH_ENVELOPES as usize, 44]
    );
    assert_eq!(
        outcomes.pull,
        Some(PullOutcome::Synced {
            head: b.head(),
            ingested: n as u64
        })
    );
    assert_eq!(a.head(), b.head());
}

/// Convergence is symmetric under who pulls first.
#[test]
fn pull_order_does_not_matter() {
    let alice = signing_key(1);
    let genesis = genesis_trusting([key_of_weight(public_key(&alice), 3)]);
    let common = run_of(digest(&genesis), "c", 2);

    let build = || {
        let mut a = Node::new(genesis.clone());
        let mut b = Node::new(genesis.clone());
        a.extend(common.clone());
        b.extend(common.clone());
        a.insert(sign(set(a.head(), "a", "ours"), &alice));
        b.extend(run_of(b.head(), "theirs", 2));
        (a, b)
    };

    let (mut a1, mut b1) = build();
    run_sync(&mut a1, &mut b1).unwrap();
    run_sync(&mut b1, &mut a1).unwrap();

    let (mut a2, mut b2) = build();
    run_sync(&mut b2, &mut a2).unwrap();
    run_sync(&mut a2, &mut b2).unwrap();

    assert_eq!(a1.head(), b1.head());
    assert_eq!(a2.head(), b2.head());
    assert_eq!(a1.head(), a2.head());
    assert_eq!(a1.checkpoint(), a2.checkpoint());
}
