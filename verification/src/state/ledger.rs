//! The state a chain of envelopes folds down to.

use vstd::prelude::*;

use crate::digest::{EnvelopeDigest, KeyId};
use crate::envelope::{signatures_view, Envelope, Letter, Status, VerificationStatus, WireError};
use crate::msg::{
    copy_namespaces, copy_path, copy_value, namespaces_view, namespaces_wf, path_view, steps_of,
    value_view, AmendNamespaceKey, AmendOp, Deed, FullCheckpoint, Msg, Namespace, NamespaceKey,
    Namespaces, SetNamespaceKey,
};
use crate::order::{SortedMap, SortedSet};
use crate::state::error::{ApplyError, Error, Fault, Refusal, ValueError};
use crate::state::judge::{
    amend_judged, amend_judged_fits, bad_namespace, committed, failing, fails, judged,
    min_signatures, min_weight, opening_refusal, refused_at_once, replayed, ruled, set_judged,
    set_judged_fits, signature_refusal, threshold_at, trusted_at, unruled_is_lawful, verified, weight_of, write_of,
};
use crate::state::nodes::Address;
use crate::state::rules::{
    addresses_view, addresses_wf, cluster_nodes_of, each_stands, fault_of, first, is_first,
    min_keep_of, parse_cluster_nodes, parse_min_keep, parse_threshold, parse_trusted_keys, rule,
    ClusterNodes, TrustedKeys, CLUSTER_NODES_KEY, DEFAULT_MIN_KEEP_MINUTES, MIN_ENVELOPE_SIGNATURES_KEY,
    MIN_ENVELOPE_WEIGHT_KEY, MIN_KEEP_MINUTES_KEY, TRUSTED_KEYS_KEY,
};
use crate::storage::value::{amend_at, set_at};
use crate::storage::{NamespaceOp, NodeKind, Resolution, Storage, Store, Version, Write};
use crate::subkey::{steps, Subkey, SubkeyPath};
use crate::text::{text_lt, text_lt_irreflexive, text_lt_total, text_lt_transitive};
use crate::value::{Key, Value};

verus! {

/// The ledger, as of some position in the chain.
///
/// A ledger is a cursor: nothing but the head it stands at. State lives in
/// the [`Storage`] each operation is handed, where it is addressed by head,
/// so any number of ledgers can drive one store at once, and copying a
/// ledger is how a chain forks in place.
///
/// A ledger must only be used with the store it was opened from.
#[derive(Debug, Clone, Copy, PartialEq, Eq)]
pub struct Ledger {
    pub head: EnvelopeDigest,
}

/// What an envelope opening a chain comes to: the head it leads to and the
/// state it installs.
pub open spec fn opened(letter: Letter) -> Option<(EnvelopeDigest, Version)> {
    match (letter.payload, letter.digest) {
        (Deed::Init { namespaces }, Some(digest)) => if opening_refusal(namespaces) is None {
            Some((digest, namespaces))
        } else {
            None
        },
        _ => None,
    }
}

/// The store after `version` is installed at `root`.
pub open spec fn installed(store: Store, root: EnvelopeDigest, version: Version) -> Store {
    Store { versions: store.versions.insert(root, version), log: store.log }
}

/// The name of a reserved namespace.
fn reserved(name: &'static str) -> (key: NamespaceKey)
    ensures
        key@ == name@,
{
    NamespaceKey { text: name.to_owned() }
}

/// The letters of `envelopes`.
pub open spec fn letters(envelopes: Seq<Envelope>) -> Seq<Letter> {
    envelopes.map_values(|envelope: Envelope| envelope@)
}

impl Ledger {
    /// Whether `storage` holds the state the ledger stands at.
    pub open spec fn stands<S: Storage>(&self, storage: &S) -> bool {
        storage.wf() && storage.store().versions.contains_key(self.head)
    }

    /// The state the ledger stands at.
    pub open spec fn version<S: Storage>(&self, storage: &S) -> Version {
        storage.store().versions[self.head]
    }

    /// Opens a ledger from the `Init` envelope that starts a chain,
    /// installing its checkpoint's namespaces in `storage`. Chains already
    /// in the store are left alone.
    pub fn init<S: Storage>(storage: &mut S, envelope: &Envelope) -> (ledger: Result<
        Self,
        Error<S::Error>,
    >)
        requires
            old(storage).wf(),
            envelope.wf(),
        ensures
            final(storage).wf(),
            match ledger {
                Ok(ledger) => {
                    &&& opened(envelope@) matches Some((root, version))
                    &&& ledger.head == root
                    &&& final(storage).store() == installed(old(storage).store(), root, version)
                },
                Err(Error::NotInit) => !(envelope@.payload is Init) && final(storage).store()
                    == old(storage).store(),
                Err(Error::Apply(error)) => {
                    &&& envelope@.payload matches Deed::Init { namespaces }
                    &&& opening_refusal(namespaces) is Some
                    &&& error.refusal() == opening_refusal(namespaces)
                    &&& final(storage).store() == old(storage).store()
                },
                Err(Error::Wire(_)) => {
                    &&& envelope@.payload matches Deed::Init { namespaces }
                    &&& opening_refusal(namespaces) is None
                    &&& envelope@.digest is None
                    &&& final(storage).store() == old(storage).store()
                },
                Err(Error::Storage(_)) => opened(envelope@) is Some && S::fails(),
                Err(_) => false,
            },
    {
        match &envelope.payload {
            Msg::Init(init) => {
                // A checkpoint can't smuggle in a value an update would be
                // refused for.
                match Self::validate_all(&init.state.namespaces) {
                    Ok(_) => {},
                    Err(error) => {
                        return Err(Error::Apply(error));
                    },
                }
                let head = match envelope.digest() {
                    Ok(head) => head,
                    Err(error) => {
                        return Err(Error::Wire(error));
                    },
                };
                match storage.install(head, copy_namespaces(&init.state.namespaces)) {
                    Ok(_) => Ok(Ledger { head }),
                    Err(error) => Err(Error::Storage(error)),
                }
            },
            _ => Err(Error::NotInit),
        }
    }

    /// Judges every namespace of a checkpoint, in name order.
    fn validate_all<E>(namespaces: &Namespaces) -> (judged: Result<(), ApplyError<E>>)
        requires
            namespaces_wf(*namespaces),
        ensures
            match judged {
                Ok(_) => opening_refusal(namespaces_view(*namespaces)) is None,
                Err(error) => error.refusal() is Some && opening_refusal(
                    namespaces_view(*namespaces),
                ) == error.refusal(),
            },
    {
        let ghost version = namespaces_view(*namespaces);
        let ghost bad = bad_namespace(version);
        let mut i: usize = 0;
        while i < namespaces.entries.len()
            invariant
                i <= namespaces.entries@.len(),
                namespaces_wf(*namespaces),
                version == namespaces_view(*namespaces),
                bad == bad_namespace(version),
                forall|j: int| 0 <= j < i ==> !bad((#[trigger] namespaces.entries@[j]).0@),
            decreases namespaces.entries@.len() - i,
        {
            let entry = &namespaces.entries[i];
            proof {
                namespaces.filed_once(i as int, entry.0@);
            }
            match Self::validate_value(&entry.0, &entry.1.value) {
                Ok(_) => {},
                Err(error) => {
                    proof {
                        let name = entry.0@;
                        assert(bad(name));
                        assert forall|other: Seq<char>| #[trigger] bad(other) implies !text_lt(
                            other,
                            name,
                        ) by {
                            let j = namespaces.index_of(other);
                            assert(namespaces.filed(j, other));
                            if j < i {
                                assert(!bad(namespaces.entries@[j].0@));
                            } else if j == i {
                                text_lt_irreflexive(name);
                            } else if text_lt(other, name) {
                                text_lt_transitive(name, other, name);
                                text_lt_irreflexive(name);
                            }
                        }
                        assert(is_first(bad, name));
                        assert(is_first(bad, first(bad)));
                        text_lt_total(first(bad), name);
                    }
                    return Err(error);
                },
            }
            i += 1;
        }
        proof {
            assert forall|name: Seq<char>| !(#[trigger] bad(name)) by {
                if namespaces.has(name) {
                    let j = namespaces.index_of(name);
                    assert(namespaces.filed(j, name));
                    assert(!bad(namespaces.entries@[j].0@));
                }
            }
        }
        Ok(())
    }

    /// Reopens a ledger standing at `head`. Any version the store still
    /// holds works, so an old head opens a historical view.
    pub fn open<S: Storage>(storage: &S, head: EnvelopeDigest) -> (ledger: Result<
        Self,
        Error<S::Error>,
    >)
        requires
            storage.wf(),
        ensures
            match ledger {
                Ok(ledger) => ledger.head == head && ledger.stands(storage),
                Err(Error::UnknownHead(found)) => found == head
                    && !storage.store().versions.contains_key(head),
                Err(Error::Storage(_)) => S::fails(),
                Err(_) => false,
            },
    {
        match storage.contains_version(head) {
            Ok(true) => Ok(Ledger { head }),
            Ok(false) => Err(Error::UnknownHead(head)),
            Err(error) => Err(Error::Storage(error)),
        }
    }

    /// Replays a whole chain into `storage`, `Init` envelope first.
    pub fn replay<S: Storage>(storage: &mut S, envelopes: &Vec<Envelope>) -> (ledger: Result<
        Self,
        Error<S::Error>,
    >)
        requires
            old(storage).wf(),
            forall|i: int| 0 <= i < envelopes@.len() ==> (#[trigger] envelopes@[i]).wf(),
        ensures
            ledger matches Err(Error::Apply(error)) ==> error.refusal() is Some || S::fails(),
            final(storage).wf(),
            match ledger {
                Err(Error::Storage(_)) => S::fails(),
                Err(Error::EmptyChain) => envelopes@.len() == 0 && final(storage).store() == old(
                    storage,
                ).store(),
                Err(Error::NotInit) => envelopes@.len() > 0 && !(envelopes@[0]@.payload is Init)
                    && final(storage).store() == old(storage).store(),
                Err(Error::Wire(_)) => {
                    &&& envelopes@.len() > 0
                    &&& envelopes@[0]@.payload matches Deed::Init { namespaces }
                    &&& opening_refusal(namespaces) is None
                    &&& envelopes@[0]@.digest is None
                    &&& final(storage).store() == old(storage).store()
                },
                Err(Error::Apply(error)) => {
                    &&& envelopes@.len() > 0
                    &&& envelopes@[0]@.payload matches Deed::Init { namespaces }
                    &&& match (opening_refusal(namespaces), opened(envelopes@[0]@)) {
                        (Some(refusal), _) => {
                            &&& error.refusal() == Some(refusal)
                            &&& final(storage).store() == old(storage).store()
                        },
                        (None, Some((root, version))) => ({
                            let folded = replayed(
                                installed(old(storage).store(), root, version),
                                root,
                                letters(envelopes@).skip(1),
                            );
                            error.refusal() is None || (folded.1 == Err::<EnvelopeDigest, Refusal>(
                                error.refusal()->0,
                            ) && final(storage).store() == folded.0)
                        }),
                        (None, None) => false,
                    }
                },
                Err(_) => false,
                Ok(ledger) => {
                    &&& envelopes@.len() > 0
                    &&& opened(envelopes@[0]@) matches Some((root, version))
                    &&& replayed(
                        installed(old(storage).store(), root, version),
                        root,
                        letters(envelopes@).skip(1),
                    ) == (final(storage).store(), Ok::<EnvelopeDigest, Refusal>(ledger.head))
                    &&& ledger.stands(final(storage))
                },
            },
    {
        if envelopes.len() == 0 {
            return Err(Error::EmptyChain);
        }
        let mut ledger = match Self::init(storage, &envelopes[0]) {
            Ok(ledger) => ledger,
            Err(error) => {
                return Err(error);
            },
        };
        let ghost root = ledger.head;
        let ghost first = storage.store();
        let ghost all = letters(envelopes@);
        let mut i: usize = 1;
        while i < envelopes.len()
            invariant
                1 <= i <= envelopes@.len(),
                forall|j: int| 0 <= j < envelopes@.len() ==> (#[trigger] envelopes@[j]).wf(),
                all == letters(envelopes@),
                ledger.stands(storage),
                opened(envelopes@[0]@) matches Some((head, version)) && head == root && first
                    == installed(old(storage).store(), root, version),
                replayed(first, root, all.skip(1)) == replayed(
                    storage.store(),
                    ledger.head,
                    all.skip(i as int),
                ),
            decreases envelopes@.len() - i,
        {
            assert(all.skip(i as int)[0] == envelopes@[i as int]@);
            assert(all.skip(i as int).skip(1) =~= all.skip(i + 1));
            let status = match ledger.verify_envelope(storage, &envelopes[i]) {
                Ok(status) => status,
                Err(error) => {
                    return Err(Error::Apply(error));
                },
            };
            let mut envelope = envelopes[i].clone();
            envelope.set_verification_status(status);
            match ledger.apply(storage, &envelope) {
                Ok(_) => {},
                Err(error) => {
                    return Err(Error::Apply(error));
                },
            }
            i += 1;
        }
        Ok(ledger)
    }

    /// Advances the ledger by one envelope, which must chain onto the
    /// current head and carry the status its signatures were verified with.
    ///
    /// Everything is validated before the one commit, so a rejected
    /// envelope changes nothing. The version at the previous head is kept.
    pub fn apply<S: Storage>(&mut self, storage: &mut S, envelope: &Envelope) -> (applied: Result<
        (),
        ApplyError<S::Error>,
    >)
        requires
            old(self).stands(old(storage)),
            envelope.wf(),
        ensures
            applied matches Err(error) ==> error.refusal() is Some || S::fails(),
            refused_at_once(old(self).head, envelope@) is Some ==> applied is Err
                && applied->Err_0.refusal() == refused_at_once(old(self).head, envelope@),
            final(storage).wf(),
            match applied {
                Ok(_) => {
                    &&& judged(old(self).version(old(storage)), old(self).head, envelope@) matches Ok(
                        (to, write),
                    )
                    &&& final(self).head == to
                    &&& final(storage).store() == committed(
                        old(storage).store(),
                        old(self).head,
                        to,
                        write,
                    )
                },
                Err(error) => {
                    &&& *final(self) == *old(self)
                    &&& final(storage).store() == old(storage).store()
                    &&& error.refusal() is Some ==> judged(
                        old(self).version(old(storage)),
                        old(self).head,
                        envelope@,
                    ) == Err::<(EnvelopeDigest, Write), Refusal>(error.refusal()->0)
                },
            },
            final(self).stands(final(storage)),
    {
        let prev = match envelope.payload.prev_digest() {
            Some(prev) => prev,
            None => {
                return Err(ApplyError::UnexpectedInit);
            },
        };
        if prev != self.head {
            return Err(ApplyError::ChainMismatch { expected: self.head, found: prev });
        }
        let head = match envelope.digest() {
            Ok(head) => head,
            Err(error) => {
                return Err(ApplyError::Wire(error));
            },
        };
        match self.check_sig_thresholds(storage, envelope) {
            Ok(_) => {},
            Err(error) => {
                return Err(error);
            },
        }
        let op = match self.validate(storage, &envelope.payload) {
            Ok(op) => op,
            Err(error) => {
                return Err(error);
            },
        };
        match storage.commit(self.head, head, op) {
            Ok(_) => {
                self.head = head;
                Ok(())
            },
            Err(error) => Err(ApplyError::Storage(error)),
        }
    }

    /// Checks a message against the store, yielding the op that commits it.
    /// Nothing is written here.
    fn validate<S: Storage>(&self, storage: &S, msg: &Msg) -> (op: Result<
        NamespaceOp,
        ApplyError<S::Error>,
    >)
        requires
            self.stands(storage),
            msg.wf(),
        ensures
            op matches Err(error) ==> error.refusal() is Some || S::fails(),
            match op {
                Ok(op) => {
                    &&& op.wf()
                    &&& op@.fits(self.version(storage))
                    &&& write_of(self.version(storage), msg@) == Ok::<Write, Refusal>(op@)
                },
                Err(error) => error.refusal() is Some ==> write_of(self.version(storage), msg@)
                    == Err::<Write, Refusal>(error.refusal()->0),
            },
    {
        match msg {
            Msg::Init(_) => Err(ApplyError::UnexpectedInit),
            Msg::SetNamespace(set) => {
                match Self::validate_value(&set.key, &set.namespace.value) {
                    Ok(_) => Ok(NamespaceOp::Put(set.key.clone(), set.namespace.clone())),
                    Err(error) => Err(error),
                }
            },
            Msg::SetNamespaceKey(set) => {
                match self.validate_set_key(storage, set) {
                    Ok(op) => match self.validate_nested(storage, &op) {
                        Ok(_) => Ok(op),
                        Err(error) => Err(error),
                    },
                    Err(error) => Err(error),
                }
            },
            Msg::AmendNamespaceKey(amend) => {
                match self.validate_amend_key(storage, amend) {
                    Ok(op) => match self.validate_nested(storage, &op) {
                        Ok(_) => Ok(op),
                        Err(error) => Err(error),
                    },
                    Err(error) => Err(error),
                }
            },
            Msg::DeleteNamespace(delete) => {
                let none: Vec<Subkey> = Vec::new();
                match storage.resolve(self.head, &delete.key, &none) {
                    Ok(Some(_)) => Ok(NamespaceOp::Delete(delete.key.clone())),
                    Ok(None) => Err(ApplyError::UnknownNamespace(delete.key.clone())),
                    Err(error) => Err(ApplyError::Storage(error)),
                }
            },
        }
    }

    /// Checks a `SetNamespaceKey` against the store.
    ///
    /// Every step of the path must already exist; nothing is created along
    /// the way except a fresh leaf under an existing table.
    fn validate_set_key<S: Storage>(&self, storage: &S, set: &SetNamespaceKey) -> (op: Result<
        NamespaceOp,
        ApplyError<S::Error>,
    >)
        requires
            self.stands(storage),
            set.path.wf(),
            set.value matches Some(v) ==> v.wf(),
        ensures
            op matches Err(error) ==> error.refusal() is Some || S::fails(),
            ({
                let want = set_judged(
                    self.version(storage),
                    set.key@,
                    set.path@,
                    value_view(set.value),
                );
                match op {
                    Ok(op) => {
                        &&& op.wf()
                        &&& op is SetAt
                        &&& op@.fits(self.version(storage))
                        &&& want == Ok::<Write, Refusal>(op@)
                    },
                    Err(error) => error.refusal() is Some ==> want == Err::<Write, Refusal>(
                        error.refusal()->0,
                    ),
                }
            }),
    {
        let last: usize = set.path.segments.len() - 1;
        let resolution = match storage.resolve(self.head, &set.key, &set.path.segments) {
            Ok(Some(resolution)) => resolution,
            Ok(None) => {
                return Err(ApplyError::UnknownNamespace(set.key.clone()));
            },
            Err(error) => {
                return Err(ApplyError::Storage(error));
            },
        };
        match resolution {
            // The path addresses an existing value: a set overwrites it, a
            // clear removes it.
            Resolution::Node(_) => {},
            // The only legal absence: a fresh name set into a table.
            Resolution::Missing { depth, at } => {
                let fresh: bool = at == NodeKind::Table && depth == last && set.value.is_some();
                if !fresh {
                    return Err(
                        ApplyError::UnknownPath { key: set.key.clone(), path: set.path.clone() },
                    );
                }
            },
            Resolution::Mismatch { .. } => {
                return Err(
                    ApplyError::PathTypeMismatch { key: set.key.clone(), path: set.path.clone() },
                );
            },
        }
        proof {
            set_judged_fits(self.version(storage), set.key@, set.path@, value_view(set.value));
        }
        Ok(
            NamespaceOp::SetAt {
                key: set.key.clone(),
                path: set.path.clone(),
                value: copy_value(&set.value),
            },
        )
    }

    /// Checks an `AmendNamespaceKey` against the store.
    ///
    /// An append lands on an existing array, or creates a one-entry array
    /// as a fresh name under an existing table. An increment lands on an
    /// existing integer only, its bounds must not be inverted, and the sum
    /// must clamp or stay inside `i64`. A deletion lands on an existing
    /// table or array. No path at all amends the namespace's value itself.
    fn validate_amend_key<S: Storage>(&self, storage: &S, amend: &AmendNamespaceKey) -> (op: Result<
        NamespaceOp,
        ApplyError<S::Error>,
    >)
        requires
            self.stands(storage),
            amend.op.wf(),
            amend.path matches Some(p) ==> p.wf(),
        ensures
            op matches Err(error) ==> error.refusal() is Some || S::fails(),
            ({
                let want = amend_judged(
                    self.version(storage),
                    amend.key@,
                    path_view(amend.path),
                    amend.op@,
                );
                match op {
                    Ok(op) => {
                        &&& op.wf()
                        &&& op is AmendAt
                        &&& op@.fits(self.version(storage))
                        &&& want == Ok::<Write, Refusal>(op@)
                    },
                    Err(error) => error.refusal() is Some ==> want == Err::<Write, Refusal>(
                        error.refusal()->0,
                    ),
                }
            }),
    {
        let none: Vec<Subkey> = Vec::new();
        let segments = match &amend.path {
            Some(path) => &path.segments,
            None => &none,
        };
        let ghost walkway = steps_of(path_view(amend.path));
        assert(steps(segments@) =~= walkway);
        let count: usize = segments.len();
        assert(walkway.len() == count);
        let resolution = match storage.resolve(self.head, &amend.key, segments) {
            Ok(Some(resolution)) => resolution,
            Ok(None) => {
                return Err(ApplyError::UnknownNamespace(amend.key.clone()));
            },
            Err(error) => {
                return Err(ApplyError::Storage(error));
            },
        };
        proof {
            crate::state::judge::resolution_tells(
                self.version(storage)[amend.key@],
                walkway,
                0,
            );
        }
        match (&amend.op, resolution) {
            (AmendOp::AppendEntry(_), Resolution::Node(NodeKind::Array)) => {},
            (AmendOp::AppendEntry(_), Resolution::Node(_)) => {
                return Err(self.cannot_amend(amend));
            },
            (AmendOp::IncrementDecrement(inc), Resolution::Node(NodeKind::Leaf)) => {
                if let (Some(min), Some(max)) = (inc.min, inc.max) {
                    if min > max {
                        return Err(
                            ApplyError::InvalidBounds {
                                key: amend.key.clone(),
                                path: copy_path(&amend.path),
                            },
                        );
                    }
                }
                // A leaf isn't enough: the resolution can't tell an integer
                // from a string, so read the value itself.
                match storage.value_at(self.head, &amend.key, segments) {
                    Ok(Some(Value::Int(n))) => {
                        if inc.apply(n).is_none() {
                            return Err(
                                ApplyError::Overflow {
                                    key: amend.key.clone(),
                                    path: copy_path(&amend.path),
                                },
                            );
                        }
                    },
                    Ok(Some(value)) => {
                        assert(!(value.tree() is Int));
                        return Err(self.cannot_amend(amend));
                    },
                    Ok(None) => {
                        return Err(self.cannot_amend(amend));
                    },
                    Err(error) => {
                        return Err(ApplyError::Storage(error));
                    },
                }
            },
            (AmendOp::IncrementDecrement(_), Resolution::Node(_)) => {
                return Err(self.cannot_amend(amend));
            },
            (AmendOp::DeleteMatching(_), Resolution::Node(NodeKind::Leaf)) => {
                return Err(self.cannot_amend(amend));
            },
            (AmendOp::DeleteMatching(_), Resolution::Node(_)) => {},
            (op, Resolution::Missing { depth, at }) => {
                let append: bool = matches!(op, AmendOp::AppendEntry(_));
                // The only legal absence: an append creating its array as a
                // fresh name under an existing table.
                let fresh: bool = append && at == NodeKind::Table && count > 0 && depth == count - 1;
                if !fresh {
                    return Err(
                        ApplyError::UnknownPath {
                            key: amend.key.clone(),
                            path: self.amended_path(amend),
                        },
                    );
                }
            },
            (_, Resolution::Mismatch { .. }) => {
                return Err(
                    ApplyError::PathTypeMismatch {
                        key: amend.key.clone(),
                        path: self.amended_path(amend),
                    },
                );
            },
        }
        proof {
            amend_judged_fits(
                self.version(storage),
                amend.key@,
                path_view(amend.path),
                amend.op@,
            );
        }
        Ok(
            NamespaceOp::AmendAt {
                key: amend.key.clone(),
                path: copy_path(&amend.path),
                op: amend.op.clone(),
            },
        )
    }

    /// The refusal of an amend of a value that it cannot transform.
    fn cannot_amend<E>(&self, amend: &AmendNamespaceKey) -> (error: ApplyError<E>)
        ensures
            error.refusal() == Some(
                Refusal::AmendTypeMismatch { key: amend.key@, path: path_view(amend.path) },
            ),
    {
        ApplyError::AmendTypeMismatch { key: amend.key.clone(), path: copy_path(&amend.path) }
    }

    /// The path of an amend that walked at least one segment.
    fn amended_path(&self, amend: &AmendNamespaceKey) -> (path: SubkeyPath)
        requires
            steps_of(path_view(amend.path)).len() > 0,
        ensures
            path@ == steps_of(path_view(amend.path)),
    {
        amend.path.as_ref().unwrap().clone()
    }

    /// The digest of the most recently applied envelope.
    pub fn head(&self) -> (head: EnvelopeDigest)
        ensures
            head == self.head,
    {
        self.head
    }

    /// The compaction floor in force at the ledger's position. Absent, or
    /// holding an invalid value, the default applies: a malformed floor
    /// must not split nodes over an unreadable value.
    pub fn min_keep_minutes<S: Storage>(&self, storage: &S) -> (minutes: Result<u32, S::Error>)
        requires
            self.stands(storage),
        ensures
            minutes is Err ==> S::fails(),
            minutes matches Ok(minutes) ==> minutes == min_keep_at(self.version(storage)),
    {
        match self.namespace(storage, &reserved(MIN_KEEP_MINUTES_KEY)) {
            Ok(Some(namespace)) => match parse_min_keep(&namespace.value) {
                Some(minutes) => Ok(minutes),
                None => Ok(DEFAULT_MIN_KEEP_MINUTES),
            },
            Ok(None) => Ok(DEFAULT_MIN_KEEP_MINUTES),
            Err(error) => Err(error),
        }
    }

    /// The set of trusted keys at this state. Absent, the set is empty; a
    /// set that is present but unreadable is an error, never an empty set.
    pub fn trusted_keys<S: Storage>(&self, storage: &S) -> (keys: Result<
        TrustedKeys,
        ApplyError<S::Error>,
    >)
        requires
            self.stands(storage),
        ensures
            keys matches Err(error) ==> error.refusal() is Some || S::fails(),
            match keys {
                Ok(keys) => keys.wf() && trusted_at(self.version(storage)) == Ok::<
                    Map<KeyId, Key>,
                    Refusal,
                >(keys@),
                Err(error) => error.refusal() is Some ==> trusted_at(self.version(storage))
                    == Err::<Map<KeyId, Key>, Refusal>(error.refusal()->0),
            },
    {
        let key = reserved(TRUSTED_KEYS_KEY);
        match self.namespace(storage, &key) {
            Ok(Some(namespace)) => match parse_trusted_keys(&namespace.value) {
                Ok(keys) => Ok(keys),
                Err(reason) => Err(
                    ApplyError::InvalidValue { key, reason: ValueError::TrustedKeys(reason) },
                ),
            },
            Ok(None) => Ok(SortedMap::new()),
            Err(error) => Err(ApplyError::Storage(error)),
        }
    }

    /// The least verified signature weight an envelope must carry to apply
    /// at this position. Absent, nothing is required.
    pub fn min_envelope_weight<S: Storage>(&self, storage: &S) -> (weight: Result<
        u32,
        ApplyError<S::Error>,
    >)
        requires
            self.stands(storage),
        ensures
            weight matches Err(error) ==> error.refusal() is Some || S::fails(),
            match weight {
                Ok(weight) => min_weight(self.version(storage)) == Ok::<u32, Refusal>(weight),
                Err(error) => error.refusal() is Some ==> min_weight(self.version(storage))
                    == Err::<u32, Refusal>(error.refusal()->0),
            },
    {
        self.threshold(storage, MIN_ENVELOPE_WEIGHT_KEY, ValueError::MinEnvelopeWeight)
    }

    /// The fewest distinct keys that must have verifiably signed an
    /// envelope for it to apply at this position. Absent, nothing is
    /// required.
    pub fn min_envelope_signatures<S: Storage>(&self, storage: &S) -> (signatures: Result<
        u32,
        ApplyError<S::Error>,
    >)
        requires
            self.stands(storage),
        ensures
            signatures matches Err(error) ==> error.refusal() is Some || S::fails(),
            match signatures {
                Ok(signatures) => min_signatures(self.version(storage)) == Ok::<u32, Refusal>(
                    signatures,
                ),
                Err(error) => error.refusal() is Some ==> min_signatures(self.version(storage))
                    == Err::<u32, Refusal>(error.refusal()->0),
            },
    {
        self.threshold(storage, MIN_ENVELOPE_SIGNATURES_KEY, ValueError::MinEnvelopeSignatures)
    }

    /// How to reach each node the cluster knows of. Absent, it knows of
    /// none; a set that is present but unreadable is an error.
    pub fn peer_addresses<S: Storage>(&self, storage: &S) -> (nodes: Result<
        ClusterNodes,
        ApplyError<S::Error>,
    >)
        requires
            self.stands(storage),
        ensures
            nodes matches Err(error) ==> error.refusal() is Some || S::fails(),
            match nodes {
                Ok(nodes) => {
                    &&& nodes.wf()
                    &&& addresses_wf(nodes)
                    &&& nodes_at(self.version(storage)) == Ok::<Map<KeyId, Address>, Refusal>(
                        addresses_view(nodes),
                    )
                    &&& self.version(storage).contains_key(CLUSTER_NODES_KEY@) ==> each_stands(
                        self.version(storage)[CLUSTER_NODES_KEY@],
                        addresses_view(nodes),
                    )
                },
                Err(error) => error.refusal() is Some ==> nodes_at(self.version(storage)) == Err::<
                    Map<KeyId, Address>,
                    Refusal,
                >(error.refusal()->0),
            },
    {
        let key = reserved(CLUSTER_NODES_KEY);
        match self.namespace(storage, &key) {
            Ok(Some(namespace)) => match parse_cluster_nodes(&namespace.value) {
                Ok(nodes) => Ok(nodes),
                Err(reason) => Err(
                    ApplyError::InvalidValue { key, reason: ValueError::ClusterNodes(reason) },
                ),
            },
            Ok(None) => {
                let nodes: ClusterNodes = SortedMap::new();
                assert(addresses_view(nodes) =~= Map::empty());
                Ok(nodes)
            },
            Err(error) => Err(ApplyError::Storage(error)),
        }
    }

    /// Reads a threshold out of a reserved namespace. Absent is no
    /// threshold; present but unreadable is an error, never a silent zero.
    fn threshold<S: Storage>(
        &self,
        storage: &S,
        namespace: &'static str,
        reason: ValueError,
    ) -> (threshold: Result<u32, ApplyError<S::Error>>)
        requires
            self.stands(storage),
        ensures
            threshold matches Err(error) ==> error.refusal() is Some || S::fails(),
            match threshold {
                Ok(threshold) => threshold_at(self.version(storage), namespace@, reason@) == Ok::<
                    u32,
                    Refusal,
                >(threshold),
                Err(error) => error.refusal() is Some ==> threshold_at(
                    self.version(storage),
                    namespace@,
                    reason@,
                ) == Err::<u32, Refusal>(error.refusal()->0),
            },
    {
        let key = reserved(namespace);
        match self.namespace(storage, &key) {
            Ok(Some(namespace)) => match parse_threshold(&namespace.value) {
                Some(threshold) => Ok(threshold),
                None => Err(ApplyError::InvalidValue { key, reason }),
            },
            Ok(None) => Ok(0),
            Err(error) => Err(ApplyError::Storage(error)),
        }
    }

    /// Refuses an envelope whose signatures did not verify, or that clears
    /// not both thresholds in force here.
    fn check_sig_thresholds<S: Storage>(&self, storage: &S, envelope: &Envelope) -> (checked:
        Result<(), ApplyError<S::Error>>)
        requires
            self.stands(storage),
            envelope.wf(),
        ensures
            checked matches Err(error) ==> error.refusal() is Some || S::fails(),
            match checked {
                Ok(_) => signature_refusal(self.version(storage), envelope@) is None,
                Err(error) => error.refusal() is Some ==> signature_refusal(
                    self.version(storage),
                    envelope@,
                ) == error.refusal(),
            },
    {
        if let VerificationStatus::Failed { failing_key_ids } = &envelope.status {
            return Err(
                ApplyError::InvalidSignatures {
                    failing_key_ids: crate::envelope::copy_ids(failing_key_ids),
                },
            );
        }
        let found: u32 = envelope.status.signature_weight();
        let required: u32 = match self.min_envelope_weight(storage) {
            Ok(required) => required,
            Err(error) => {
                return Err(error);
            },
        };
        if found < required {
            return Err(ApplyError::InsufficientWeight { required, found });
        }
        let found: u32 = envelope.verified_signers();
        let required: u32 = match self.min_envelope_signatures(storage) {
            Ok(required) => required,
            Err(error) => {
                return Err(error);
            },
        };
        if found < required {
            return Err(ApplyError::InsufficientSignatures { required, found });
        }
        Ok(())
    }

    /// Verifies `envelope`'s signatures against the trusted key set at its
    /// parent, yielding the status it carries from then on.
    ///
    /// One signature that does not verify, or names a key the set does not
    /// hold, fails the envelope outright. An envelope carrying no
    /// signatures is checked and worth nothing.
    pub fn verify_envelope<S: Storage>(&self, storage: &S, envelope: &Envelope) -> (status: Result<
        VerificationStatus,
        ApplyError<S::Error>,
    >)
        requires
            self.stands(storage),
            envelope.wf(),
        ensures
            status matches Err(error) ==> error.refusal() is Some || S::fails(),
            match status {
                Ok(status) => status.wf() && verified(self.version(storage), self.head, envelope@)
                    == Ok::<Status, Refusal>(status@),
                Err(error) => error.refusal() is Some ==> verified(
                    self.version(storage),
                    self.head,
                    envelope@,
                ) == Err::<Status, Refusal>(error.refusal()->0),
            },
    {
        // The one that opens a chain has no parent: its signatures are
        // verified against the key set it installs itself.
        let parent = match envelope.payload.prev_digest() {
            Some(prev) => prev,
            None => match envelope.digest() {
                Ok(digest) => digest,
                Err(error) => {
                    return Err(ApplyError::Wire(error));
                },
            },
        };
        if parent != self.head {
            return Err(ApplyError::ChainMismatch { expected: self.head, found: parent });
        }
        let signatures = &envelope.signatures;
        let ghost listed = signatures_view(*signatures);
        if signatures.is_empty() {
            return Ok(VerificationStatus::AllMatched { total_weight: 0 });
        }
        let keys = match self.trusted_keys(storage) {
            Ok(keys) => keys,
            Err(error) => {
                return Err(error);
            },
        };
        if !envelope.signable {
            return Err(ApplyError::Wire(WireError));
        }
        let mut failing_key_ids: SortedSet<KeyId> = SortedSet::new();
        let mut i: usize = 0;
        while i < signatures.entries.len()
            invariant
                i <= signatures.entries@.len(),
                keys.wf(),
                listed == signatures_view(*signatures),
                failing_key_ids.wf(),
                failing_key_ids@ == failing(keys@, listed.take(i as int)),
            decreases signatures.entries@.len() - i,
        {
            let key_id = signatures.entries[i].0;
            let verifies: bool = signatures.entries[i].1.verifies;
            let ghost was = failing_key_ids@;
            if !(keys.contains(&key_id) && verifies) {
                failing_key_ids.insert(key_id);
            }
            proof {
                failing_grows(keys@, listed, i as int);
            }
            i += 1;
        }
        assert(listed.take(i as int) =~= listed);
        if !failing_key_ids.is_empty() {
            return Ok(VerificationStatus::Failed { failing_key_ids });
        }
        // One signature per key by construction, so a key cannot pad the
        // total by signing twice. Saturating: a wrapped total would decide
        // otherwise.
        let mut total: u32 = 0;
        let mut n: usize = 0;
        assert(listed.take(0).len() == 0);
        while n < signatures.entries.len()
            invariant
                n <= signatures.entries@.len(),
                keys.wf(),
                listed == signatures_view(*signatures),
                failing(keys@, listed) == Set::<KeyId>::empty(),
                total == (if weight_of(keys@, listed.take(n as int)) <= u32::MAX {
                    weight_of(keys@, listed.take(n as int))
                } else {
                    u32::MAX as nat
                }),
            decreases signatures.entries@.len() - n,
        {
            let key_id = signatures.entries[n].0;
            proof {
                assert(listed.take(n + 1).drop_last() =~= listed.take(n as int));
                assert(listed.take(n + 1).last() == listed[n as int]);
                assert(listed[n as int].0 == key_id);
                if !keys@.contains_key(key_id) {
                    assert(failing(keys@, listed).contains(key_id));
                }
            }
            if let Some(key) = keys.get(&key_id) {
                total = total.saturating_add(key.weight);
            }
            n += 1;
        }
        assert(listed.take(n as int) =~= listed);
        Ok(VerificationStatus::AllMatched { total_weight: total })
    }

    /// Validates the whole value `key` would hold after a write.
    fn validate_value<E>(key: &NamespaceKey, value: &Value) -> (judged: Result<(), ApplyError<E>>)
        requires
            value.wf(),
        ensures
            match judged {
                Ok(_) => fault_of(key@, value.tree()) is None,
                Err(error) => fault_of(key@, value.tree()) is Some && error.refusal() == Some(
                    Refusal::InvalidValue { key: key@, fault: fault_of(key@, value.tree())->0 },
                ),
            },
    {
        match rule(key) {
            Some(rule) => match rule.judge(value) {
                Ok(_) => Ok(()),
                Err(reason) => Err(ApplyError::InvalidValue { key: key.clone(), reason }),
            },
            None => {
                proof {
                    unruled_is_lawful(key@, value.tree());
                }
                Ok(())
            },
        }
    }

    /// Judges what a nested write would leave its namespace holding. Only
    /// namespaces with a rule are read whole.
    fn validate_nested<S: Storage>(&self, storage: &S, op: &NamespaceOp) -> (judged: Result<
        (),
        ApplyError<S::Error>,
    >)
        requires
            self.stands(storage),
            op.wf(),
            op is SetAt || op is AmendAt,
            op@.fits(self.version(storage)),
        ensures
            judged matches Err(error) ==> error.refusal() is Some || S::fails(),
            ({
                let key = nested_key(op@);
                let want = ruled(self.version(storage), key, op@);
                match judged {
                    Ok(_) => want == Ok::<Write, Refusal>(op@),
                    Err(error) => error.refusal() is Some ==> want == Err::<Write, Refusal>(
                        error.refusal()->0,
                    ),
                }
            }),
    {
        match op {
            NamespaceOp::SetAt { key, path, value } => {
                if rule(key).is_none() {
                    proof {
                        unruled_is_lawful(key@, op@.applied(self.version(storage))[key@]);
                    }
                    return Ok(());
                }
                let mut result = match self.ruled_value(storage, key) {
                    Ok(result) => result,
                    Err(error) => {
                        return Err(error);
                    },
                };
                set_at(&mut result, path, copy_value(value));
                Self::validate_value(key, &result)
            },
            NamespaceOp::AmendAt { key, path, op: amendment } => {
                if rule(key).is_none() {
                    proof {
                        unruled_is_lawful(key@, op@.applied(self.version(storage))[key@]);
                    }
                    return Ok(());
                }
                let mut result = match self.ruled_value(storage, key) {
                    Ok(result) => result,
                    Err(error) => {
                        return Err(error);
                    },
                };
                amend_at(&mut result, path, amendment.clone());
                Self::validate_value(key, &result)
            },
            _ => Ok(()),
        }
    }

    /// The value a nested write is about to change.
    fn ruled_value<S: Storage>(&self, storage: &S, key: &NamespaceKey) -> (value: Result<
        Value,
        ApplyError<S::Error>,
    >)
        requires
            self.stands(storage),
            self.version(storage).contains_key(key@),
        ensures
            value matches Err(error) ==> error.refusal() is Some || S::fails(),
            match value {
                Ok(value) => value.wf() && value.tree() == self.version(storage)[key@],
                Err(error) => error.refusal() is None,
            },
    {
        match self.namespace(storage, key) {
            Ok(namespace) => Ok(namespace.unwrap().value),
            Err(error) => Err(ApplyError::Storage(error)),
        }
    }

    /// The namespace stored under `key`, if the ledger holds one.
    pub fn namespace<S: Storage>(&self, storage: &S, key: &NamespaceKey) -> (namespace: Result<
        Option<Namespace>,
        S::Error,
    >)
        requires
            self.stands(storage),
        ensures
            namespace is Err ==> S::fails(),
            namespace matches Ok(namespace) ==> match namespace {
                Some(namespace) => {
                    &&& namespace.wf()
                    &&& self.version(storage).contains_key(key@)
                    &&& namespace@ == self.version(storage)[key@]
                },
                None => !self.version(storage).contains_key(key@),
            },
    {
        storage.namespace(self.head, key)
    }

    /// Every namespace the ledger holds, in name order.
    pub fn namespaces<S: Storage>(&self, storage: &S) -> (namespaces: Result<Namespaces, S::Error>)
        requires
            self.stands(storage),
        ensures
            namespaces is Err ==> S::fails(),
            namespaces matches Ok(namespaces) ==> namespaces_wf(namespaces) && namespaces_view(
                namespaces,
            ) == self.version(storage),
    {
        storage.namespaces(self.head)
    }

    /// The ledger's state as a checkpoint, ready to open a rewritten chain.
    pub fn checkpoint<S: Storage>(&self, storage: &S) -> (checkpoint: Result<
        FullCheckpoint,
        S::Error,
    >)
        requires
            self.stands(storage),
        ensures
            checkpoint is Err ==> S::fails(),
            checkpoint matches Ok(checkpoint) ==> namespaces_wf(checkpoint.namespaces)
                && namespaces_view(checkpoint.namespaces) == self.version(storage),
    {
        match storage.namespaces(self.head) {
            Ok(namespaces) => Ok(FullCheckpoint { namespaces }),
            Err(error) => Err(error),
        }
    }
}

/// The compaction floor in force at `version`.
pub open spec fn min_keep_at(version: Version) -> u32 {
    if version.contains_key(MIN_KEEP_MINUTES_KEY@) {
        match min_keep_of(version[MIN_KEEP_MINUTES_KEY@]) {
            Some(minutes) => minutes,
            None => DEFAULT_MIN_KEEP_MINUTES,
        }
    } else {
        DEFAULT_MIN_KEEP_MINUTES
    }
}

/// How to reach each node the cluster knows of at `version`.
pub open spec fn nodes_at(version: Version) -> Result<Map<KeyId, Address>, Refusal> {
    if version.contains_key(CLUSTER_NODES_KEY@) {
        match cluster_nodes_of(version[CLUSTER_NODES_KEY@]) {
            Ok(nodes) => Ok(nodes),
            Err(reason) => Err(
                Refusal::InvalidValue {
                    key: CLUSTER_NODES_KEY@,
                    fault: Fault::ClusterNodes(reason),
                },
            ),
        }
    } else {
        Ok(Map::empty())
    }
}

/// The namespace a nested write lands in.
pub open spec fn nested_key(write: Write) -> Seq<char> {
    match write {
        Write::Put { key, .. } => key,
        Write::Delete { key } => key,
        Write::SetAt { key, .. } => key,
        Write::AmendAt { key, .. } => key,
    }
}

/// One more signature may add one more failing key.
proof fn failing_grows(keys: Map<KeyId, Key>, signatures: Seq<(KeyId, bool)>, i: int)
    requires
        0 <= i < signatures.len(),
    ensures
        failing(keys, signatures.take(i + 1)) == if fails(keys, signatures[i]) {
            failing(keys, signatures.take(i)).insert(signatures[i].0)
        } else {
            failing(keys, signatures.take(i))
        },
{
    let before = failing(keys, signatures.take(i));
    let after = failing(keys, signatures.take(i + 1));
    assert forall|id: KeyId| after.contains(id) == (before.contains(id) || (id == signatures[i].0
        && fails(keys, signatures[i]))) by {
        if after.contains(id) {
            let j = choose|j: int|
                0 <= j < signatures.take(i + 1).len() && (#[trigger] signatures.take(i + 1)[j]).0
                    == id && fails(keys, signatures.take(i + 1)[j]);
            if j < i {
                assert(signatures.take(i)[j] == signatures.take(i + 1)[j]);
            }
        }
        if before.contains(id) {
            let j = choose|j: int|
                0 <= j < signatures.take(i).len() && (#[trigger] signatures.take(i)[j]).0 == id
                    && fails(keys, signatures.take(i)[j]);
            assert(signatures.take(i + 1)[j] == signatures.take(i)[j]);
        }
        if id == signatures[i].0 && fails(keys, signatures[i]) {
            assert(signatures.take(i + 1)[i] == signatures[i]);
        }
    }
    if fails(keys, signatures[i]) {
        assert(after =~= before.insert(signatures[i].0));
    } else {
        assert(after =~= before);
    }
}

} // verus!
