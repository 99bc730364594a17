//! Which envelopes apply, and what they write.

use vstd::prelude::*;

use crate::digest::{EnvelopeDigest, KeyId};
use crate::envelope::{Letter, Status};
use crate::msg::{steps_of, Amendment, Deed};
use crate::state::error::{Fault, Refusal};
use crate::state::rules::{
    any, fault_of, first, has_rule, threshold_of, trusted_keys_of, MIN_ENVELOPE_SIGNATURES_KEY,
    MIN_ENVELOPE_WEIGHT_KEY, TRUSTED_KEYS_KEY,
};
use crate::storage::value::{kind_of, resolved};
use crate::storage::{NodeKind, Resolution, Store, Version, Write};
use crate::subkey::Step;
use crate::tree::{child, walked, walked_last};
use crate::value::{Key, Tree};

verus! {

/// The threshold the namespace `key` sets in `version`; absent, none.
pub open spec fn threshold_at(version: Version, key: Seq<char>, fault: Fault) -> Result<
    u32,
    Refusal,
> {
    if version.contains_key(key) {
        match threshold_of(version[key]) {
            Some(threshold) => Ok(threshold),
            None => Err(Refusal::InvalidValue { key, fault }),
        }
    } else {
        Ok(0)
    }
}

/// The least signature weight an envelope must carry at `version`.
pub open spec fn min_weight(version: Version) -> Result<u32, Refusal> {
    threshold_at(version, MIN_ENVELOPE_WEIGHT_KEY@, Fault::MinEnvelopeWeight)
}

/// The fewest distinct keys that must have signed an envelope at `version`.
pub open spec fn min_signatures(version: Version) -> Result<u32, Refusal> {
    threshold_at(version, MIN_ENVELOPE_SIGNATURES_KEY@, Fault::MinEnvelopeSignatures)
}

/// Why the signatures of `letter` do not suffice at `version`, if they do
/// not.
pub open spec fn signature_refusal(version: Version, letter: Letter) -> Option<Refusal> {
    match letter.status {
        Status::Failed(failing) => Some(Refusal::InvalidSignatures { failing }),
        _ => match min_weight(version) {
            Err(refusal) => Some(refusal),
            Ok(required) => if letter.status.weight() < required {
                Some(Refusal::InsufficientWeight { required, found: letter.status.weight() })
            } else {
                match min_signatures(version) {
                    Err(refusal) => Some(refusal),
                    Ok(required) => if letter.signers() < required {
                        Some(Refusal::InsufficientSignatures { required, found: letter.signers() })
                    } else {
                        None
                    },
                }
            },
        },
    }
}

/// `write`, unless what it leaves its namespace holding breaks the rule of
/// that namespace. A deletion leaves nothing to judge.
pub open spec fn ruled(version: Version, key: Seq<char>, write: Write) -> Result<Write, Refusal> {
    match fault_of(key, write.applied(version)[key]) {
        Some(fault) => Err(Refusal::InvalidValue { key, fault }),
        None => Ok(write),
    }
}

/// What a write of `value` at `path` in `key` comes to. Every step of the
/// path must be there already; only a fresh field of a table is created.
pub open spec fn set_judged(
    version: Version,
    key: Seq<char>,
    path: Seq<Step>,
    value: Option<Tree>,
) -> Result<Write, Refusal> {
    if !version.contains_key(key) {
        Err(Refusal::UnknownNamespace { key })
    } else {
        match resolved(version[key], path, 0) {
            Resolution::Node(_) => Ok(Write::SetAt { key, path, value }),
            Resolution::Missing { depth, at } => if at == NodeKind::Table && depth == path.len() - 1
                && value is Some {
                Ok(Write::SetAt { key, path, value })
            } else {
                Err(Refusal::UnknownPath { key, path })
            },
            Resolution::Mismatch { .. } => Err(Refusal::PathTypeMismatch { key, path }),
        }
    }
}

/// What a change in place at `path` in `key` comes to. An append lands on
/// an array, or puts one of the single entry under a fresh field of a
/// table; an increment lands on an integer, with bounds that are not
/// inverted, and the sum must fit; a deletion lands on a table or an array.
pub open spec fn amend_judged(
    version: Version,
    key: Seq<char>,
    path: Option<Seq<Step>>,
    op: Amendment,
) -> Result<Write, Refusal> {
    let steps = steps_of(path);
    let write = Write::AmendAt { key, path: steps, op };
    if !version.contains_key(key) {
        Err(Refusal::UnknownNamespace { key })
    } else {
        match (op, resolved(version[key], steps, 0)) {
            (Amendment::Append(_), Resolution::Node(NodeKind::Array)) => Ok(write),
            (Amendment::Append(_), Resolution::Node(_)) => Err(
                Refusal::AmendTypeMismatch { key, path },
            ),
            (Amendment::Increment(inc), Resolution::Node(NodeKind::Leaf)) => if inc.min matches Some(
                min,
            ) && inc.max matches Some(max) && min > max {
                Err(Refusal::InvalidBounds { key, path })
            } else {
                match walked(version[key], steps) {
                    Some(Tree::Int(n)) => if inc.applied(n) is Some {
                        Ok(write)
                    } else {
                        Err(Refusal::Overflow { key, path })
                    },
                    _ => Err(Refusal::AmendTypeMismatch { key, path }),
                }
            },
            (Amendment::Increment(_), Resolution::Node(_)) => Err(
                Refusal::AmendTypeMismatch { key, path },
            ),
            (Amendment::DeleteMatching(_), Resolution::Node(NodeKind::Leaf)) => Err(
                Refusal::AmendTypeMismatch { key, path },
            ),
            (Amendment::DeleteMatching(_), Resolution::Node(_)) => Ok(write),
            (op, Resolution::Missing { depth, at }) => if op is Append && at == NodeKind::Table
                && depth == steps.len() - 1 {
                Ok(write)
            } else {
                Err(Refusal::UnknownPath { key, path: steps })
            },
            (_, Resolution::Mismatch { .. }) => Err(
                Refusal::PathTypeMismatch { key, path: steps },
            ),
        }
    }
}

/// What a message writes at `version`, or why it may not.
pub open spec fn write_of(version: Version, deed: Deed) -> Result<Write, Refusal> {
    match deed {
        Deed::Init { .. } => Err(Refusal::UnexpectedInit),
        Deed::SetNamespace { key, value, .. } => ruled(version, key, Write::Put { key, value }),
        Deed::SetNamespaceKey { key, path, value, .. } => match set_judged(
            version,
            key,
            path,
            value,
        ) {
            Ok(write) => ruled(version, key, write),
            Err(refusal) => Err(refusal),
        },
        Deed::AmendNamespaceKey { key, path, op, .. } => match amend_judged(
            version,
            key,
            path,
            op,
        ) {
            Ok(write) => ruled(version, key, write),
            Err(refusal) => Err(refusal),
        },
        Deed::DeleteNamespace { key, .. } => if version.contains_key(key) {
            Ok(Write::Delete { key })
        } else {
            Err(Refusal::UnknownNamespace { key })
        },
    }
}

/// Why `letter` does not apply at `head`, whatever the state there, if it does
/// not: it starts a chain, follows another envelope, or cannot be digested.
pub open spec fn refused_at_once(head: EnvelopeDigest, letter: Letter) -> Option<Refusal> {
    match letter.payload.prev() {
        None => Some(Refusal::UnexpectedInit),
        Some(prev) => if prev != head {
            Some(Refusal::ChainMismatch { expected: head, found: prev })
        } else if letter.digest is None {
            Some(Refusal::Wire)
        } else {
            None
        },
    }
}

/// Whether `letter` applies at `head`, where the state is `version`: the
/// version it leads to and what it writes, or why it does not apply.
pub open spec fn judged(version: Version, head: EnvelopeDigest, letter: Letter) -> Result<
    (EnvelopeDigest, Write),
    Refusal,
> {
    match refused_at_once(head, letter) {
        Some(refusal) => Err(refusal),
        None => match signature_refusal(version, letter) {
            Some(refusal) => Err(refusal),
            None => match write_of(version, letter.payload) {
                Ok(write) => Ok((letter.digest->0, write)),
                Err(refusal) => Err(refusal),
            },
        },
    }
}

/// The trusted keys at `version`; absent, none.
pub open spec fn trusted_at(version: Version) -> Result<Map<KeyId, Key>, Refusal> {
    if version.contains_key(TRUSTED_KEYS_KEY@) {
        match trusted_keys_of(version[TRUSTED_KEYS_KEY@]) {
            Ok(keys) => Ok(keys),
            Err(fault) => Err(
                Refusal::InvalidValue { key: TRUSTED_KEYS_KEY@, fault: Fault::TrustedKeys(fault) },
            ),
        }
    } else {
        Ok(Map::empty())
    }
}

/// Whether a signature fails: its key is not trusted, or it does not
/// verify.
pub open spec fn fails(keys: Map<KeyId, Key>, signature: (KeyId, bool)) -> bool {
    !(keys.contains_key(signature.0) && signature.1)
}

/// The ids of the keys whose signatures fail.
pub open spec fn failing(keys: Map<KeyId, Key>, signatures: Seq<(KeyId, bool)>) -> Set<KeyId> {
    Set::new(
        |id: KeyId|
            exists|i: int|
                0 <= i < signatures.len() && (#[trigger] signatures[i]).0 == id && fails(
                    keys,
                    signatures[i],
                ),
    )
}

/// What the signatures are worth together.
pub open spec fn weight_of(keys: Map<KeyId, Key>, signatures: Seq<(KeyId, bool)>) -> nat
    decreases signatures.len(),
{
    if signatures.len() == 0 {
        0
    } else {
        weight_of(keys, signatures.drop_last()) + keys[signatures.last().0].weight as nat
    }
}

/// How the signatures of `letter` score at `version`.
pub open spec fn scored(version: Version, letter: Letter) -> Result<Status, Refusal> {
    if letter.signatures.len() == 0 {
        Ok(Status::AllMatched(0))
    } else {
        match trusted_at(version) {
            Err(refusal) => Err(refusal),
            Ok(keys) => if !letter.signable {
                Err(Refusal::Wire)
            } else if failing(keys, letter.signatures) != Set::<KeyId>::empty() {
                Ok(Status::Failed(failing(keys, letter.signatures)))
            } else if weight_of(keys, letter.signatures) <= u32::MAX {
                Ok(Status::AllMatched(weight_of(keys, letter.signatures) as u32))
            } else {
                Ok(Status::AllMatched(u32::MAX))
            },
        }
    }
}

/// How `letter` verifies at `head`, where the state is `version`. The one
/// that opens a chain is verified against what it installs itself.
pub open spec fn verified(version: Version, head: EnvelopeDigest, letter: Letter) -> Result<
    Status,
    Refusal,
> {
    match (letter.payload.prev(), letter.digest) {
        (None, None) => Err(Refusal::Wire),
        (Some(found), _) | (None, Some(found)) => if found != head {
            Err(Refusal::ChainMismatch { expected: head, found })
        } else {
            scored(version, letter)
        },
    }
}

/// The store after `letter` is applied at `head`, where it does apply.
pub open spec fn committed(store: Store, head: EnvelopeDigest, to: EnvelopeDigest, write: Write) -> Store {
    Store {
        versions: store.versions.insert(to, write.applied(store.versions[head])),
        log: store.log,
    }
}

/// Verifies and applies `letters` one after the other, starting at `head`,
/// up to the first that does not apply.
pub open spec fn replayed(store: Store, head: EnvelopeDigest, letters: Seq<Letter>) -> (
    Store,
    Result<EnvelopeDigest, Refusal>,
)
    decreases letters.len(),
{
    if letters.len() == 0 {
        (store, Ok(head))
    } else {
        match verified(store.versions[head], head, letters[0]) {
            Err(refusal) => (store, Err(refusal)),
            Ok(status) => match judged(
                store.versions[head],
                head,
                Letter { status, ..letters[0] },
            ) {
                Err(refusal) => (store, Err(refusal)),
                Ok((to, write)) => replayed(
                    committed(store, head, to, write),
                    to,
                    letters.skip(1),
                ),
            },
        }
    }
}

/// Whether what the namespace `name` of a checkpoint holds breaks its rule.
pub open spec fn bad_namespace(version: Version) -> spec_fn(Seq<char>) -> bool {
    |name: Seq<char>| version.contains_key(name) && fault_of(name, version[name]) is Some
}

/// Whether every namespace keeps its rule.
pub open spec fn lawful(version: Version) -> bool {
    forall|name: Seq<char>| #[trigger]
        version.contains_key(name) ==> fault_of(name, version[name]) is None
}

/// Why a chain cannot open on `version`, if it cannot: the first namespace
/// by name that breaks its rule.
pub open spec fn opening_refusal(version: Version) -> Option<Refusal> {
    let bad = bad_namespace(version);
    if any(bad) {
        Some(
            Refusal::InvalidValue {
                key: first(bad),
                fault: fault_of(first(bad), version[first(bad)])->0,
            },
        )
    } else {
        None
    }
}

/// A walk that resolves reaches something of the kind it reports; one that
/// misses on its last step stopped in a container of the kind it reports,
/// whose shape the step fits.
pub proof fn resolution_tells(tree: Tree, path: Seq<Step>, depth: int)
    requires
        0 <= depth,
        depth + path.len() <= usize::MAX,
    ensures
        match resolved(tree, path, depth) {
            Resolution::Node(kind) => walked(tree, path) is Some && kind_of(walked(tree, path)->0)
                == kind,
            Resolution::Missing { depth: stopped, at } => {
                &&& path.len() > 0
                &&& walked(tree, path) is None
                &&& stopped == depth + path.len() - 1 ==> {
                    &&& walked(tree, path.drop_last()) is Some
                    &&& kind_of(walked(tree, path.drop_last())->0) == at
                    &&& at == NodeKind::Table ==> path.last() is Key
                }
            },
            Resolution::Mismatch { .. } => path.len() > 0 && walked(tree, path) is None,
        },
    decreases path.len(),
{
    if path.len() > 0 {
        match child(tree, path[0]) {
            Some(below) => {
                resolution_tells(below, path.skip(1), depth + 1);
                if path.len() > 1 {
                    assert(path.drop_last()[0] == path[0]);
                    assert(path.drop_last().skip(1) =~= path.skip(1).drop_last());
                    assert(path.skip(1).last() == path.last());
                }
            },
            None => {
                if path.len() == 1 {
                    assert(path.drop_last().len() == 0);
                    assert(path.last() == path[0]);
                }
            },
        }
    }
}

/// A write that resolves, or misses on a fresh field being set, is legal.
pub proof fn set_judged_fits(version: Version, key: Seq<char>, path: Seq<Step>, value: Option<Tree>)
    requires
        0 < path.len() <= usize::MAX,
        set_judged(version, key, path, value) is Ok,
    ensures
        (Write::SetAt { key, path, value }).fits(version),
{
    resolution_tells(version[key], path, 0);
    walked_last(version[key], path);
}

/// A change that is let through is legal.
pub proof fn amend_judged_fits(
    version: Version,
    key: Seq<char>,
    path: Option<Seq<Step>>,
    op: Amendment,
)
    requires
        steps_of(path).len() <= usize::MAX,
        amend_judged(version, key, path, op) is Ok,
    ensures
        (Write::AmendAt { key, path: steps_of(path), op }).fits(version),
{
    resolution_tells(version[key], steps_of(path), 0);
}

/// A namespace without a rule may hold anything.
pub proof fn unruled_is_lawful(key: Seq<char>, tree: Tree)
    requires
        !has_rule(key),
    ensures
        fault_of(key, tree) is None,
{
}

} // verus!
