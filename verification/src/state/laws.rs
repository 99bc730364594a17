//! What holds of every state a chain leads to.

use vstd::prelude::*;

use crate::digest::EnvelopeDigest;
use crate::envelope::Letter;
use crate::msg::Deed;
use crate::state::error::Refusal;
use crate::state::judge::{bad_namespace, committed, judged, lawful, opening_refusal, refused_at_once};
use crate::state::ledger::{installed, opened};
use crate::state::rules::{any, fault_of};
use crate::storage::{Store, Version, Write};

verus! {

/// The reserved namespaces stay valid: an envelope that applies to a lawful
/// state leads to a lawful state.
pub proof fn applying_keeps_lawful(version: Version, head: EnvelopeDigest, letter: Letter)
    requires
        lawful(version),
        judged(version, head, letter) is Ok,
    ensures
        ({
            let (_, write) = judged(version, head, letter)->Ok_0;
            lawful(write.applied(version))
        }),
{
    let (_, write) = judged(version, head, letter)->Ok_0;
    let after = write.applied(version);
    assert forall|name: Seq<char>| #[trigger] after.contains_key(name) implies fault_of(
        name,
        after[name],
    ) is None by {
        match write {
            Write::Delete { key } => {
                assert(version.contains_key(name));
            },
            Write::Put { key, .. } => {
                if name != key {
                    assert(version.contains_key(name));
                }
            },
            Write::SetAt { key, .. } => {
                if name != key {
                    assert(version.contains_key(name));
                }
            },
            Write::AmendAt { key, .. } => {
                if name != key {
                    assert(version.contains_key(name));
                }
            },
        }
    }
}

/// An envelope writes one namespace; every other is left as it was.
pub proof fn applying_writes_one_namespace(
    version: Version,
    head: EnvelopeDigest,
    letter: Letter,
    name: Seq<char>,
)
    requires
        judged(version, head, letter) is Ok,
        match letter.payload {
            Deed::Init { .. } => true,
            Deed::SetNamespace { key, .. } => name != key,
            Deed::SetNamespaceKey { key, .. } => name != key,
            Deed::AmendNamespaceKey { key, .. } => name != key,
            Deed::DeleteNamespace { key, .. } => name != key,
        },
    ensures
        ({
            let (_, write) = judged(version, head, letter)->Ok_0;
            let after = write.applied(version);
            &&& after.contains_key(name) == version.contains_key(name)
            &&& version.contains_key(name) ==> after[name] == version[name]
        }),
{
}

/// An envelope applies once: where it has moved the head, it is refused for
/// not following it, whatever the state there. A digest covers the parent it
/// names, so no real envelope is its own.
pub proof fn applying_again_is_refused(
    version: Version,
    head: EnvelopeDigest,
    letter: Letter,
    after: Version,
)
    requires
        judged(version, head, letter) is Ok,
        judged(version, head, letter)->Ok_0.0 != head,
    ensures
        ({
            let (to, _) = judged(version, head, letter)->Ok_0;
            let refusal = Refusal::ChainMismatch { expected: to, found: head };
            &&& letter.payload.prev() == Some(head)
            &&& letter.digest == Some(to)
            &&& refused_at_once(to, letter) == Some(refusal)
            &&& judged(after, to, letter) == Err::<(EnvelopeDigest, Write), Refusal>(refusal)
        }),
{
}

/// A commit writes one version. Every other, the one it was derived from
/// among them, is left as it was for whoever stands on it, and so is the log.
pub proof fn committing_spares_others(
    store: Store,
    head: EnvelopeDigest,
    to: EnvelopeDigest,
    write: Write,
    other: EnvelopeDigest,
)
    requires
        other != to,
    ensures
        ({
            let after = committed(store, head, to, write);
            &&& after.versions.contains_key(other) == store.versions.contains_key(other)
            &&& store.versions.contains_key(other) ==> after.versions[other]
                == store.versions[other]
            &&& after.log == store.log
        }),
{
}

/// Backends cannot disagree about what a commit does: where two read alike at
/// every version, they do so after the same commit, and every version but the
/// one that was written reads as it did.
pub proof fn backends_agree(
    one: Store,
    other: Store,
    parent: EnvelopeDigest,
    head: EnvelopeDigest,
    write: Write,
)
    requires
        one.versions == other.versions,
    ensures
        ({
            let one_after = committed(one, parent, head, write);
            let other_after = committed(other, parent, head, write);
            &&& one_after.versions == other_after.versions
            &&& one_after.versions[head] == write.applied(one.versions[parent])
            &&& one_after.versions.remove(head) == one.versions.remove(head)
            &&& other_after.versions.remove(head) == other.versions.remove(head)
        }),
{
    let after = committed(one, parent, head, write);
    assert(after.versions.remove(head) =~= one.versions.remove(head));
}

/// A chain opens on the lawful states, and on no other.
pub proof fn opens_if_lawful(version: Version)
    ensures
        opening_refusal(version) is None <==> lawful(version),
{
    let bad = bad_namespace(version);
    if any(bad) {
        let name = choose|name: Seq<char>| #[trigger] bad(name);
        assert(version.contains_key(name));
    } else {
        assert forall|name: Seq<char>| #[trigger] version.contains_key(name) implies fault_of(
            name,
            version[name],
        ) is None by {
            assert(!bad(name));
        }
    }
}

/// A state taken as a checkpoint opens a chain that stands at that state.
pub proof fn a_checkpoint_reopens(version: Version, letter: Letter, digest: EnvelopeDigest)
    requires
        lawful(version),
        letter.payload == (Deed::Init { namespaces: version }),
        letter.digest == Some(digest),
    ensures
        opened(letter) == Some((digest, version)),
{
    opens_if_lawful(version);
}

/// A chain opens exactly on an envelope that has a digest and carries a
/// checkpoint that keeps every rule; it stands at that digest, at what the
/// checkpoint holds.
pub proof fn a_chain_opens_on_a_lawful_checkpoint(letter: Letter)
    ensures
        opened(letter) is Some <==> letter.payload is Init && letter.digest is Some && lawful(
            letter.payload->namespaces,
        ),
        opened(letter) matches Some((root, version)) ==> letter.digest == Some(root)
            && letter.payload == (Deed::Init { namespaces: version }),
{
    if letter.payload is Init {
        opens_if_lawful(letter.payload->namespaces);
    }
}

/// Opening a chain installs one version, and leaves every other and the log
/// as they were.
pub proof fn installing_spares_others(
    store: Store,
    root: EnvelopeDigest,
    version: Version,
    other: EnvelopeDigest,
)
    ensures
        installed(store, root, version).versions.contains_key(root),
        installed(store, root, version).versions[root] == version,
        other != root ==> installed(store, root, version).versions.contains_key(other)
            == store.versions.contains_key(other),
        other != root && store.versions.contains_key(other) ==> installed(
            store,
            root,
            version,
        ).versions[other] == store.versions[other],
        installed(store, root, version).log == store.log,
{
}

} // verus!
