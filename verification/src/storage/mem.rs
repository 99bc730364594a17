//! The all-in-memory backend.

use vstd::prelude::*;

use core::convert::Infallible;

use crate::digest::EnvelopeDigest;
use crate::envelope::Envelope;
use crate::msg::{
    copy_namespaces, namespace_inserted, namespace_removed, namespace_replaced, namespaces_view,
    namespaces_wf, Namespace, NamespaceKey, Namespaces,
};
use crate::order::{Ordered, SortedMap, SortedSet};
use crate::storage::log::{LogEntry, Logged, StoredAt};
use crate::storage::value::{amend_at, set_at};
use crate::storage::{NamespaceOp, Storage, Store, Version};

verus! {

/// The children of each parent.
pub type Children = SortedMap<EnvelopeDigest, SortedSet<EnvelopeDigest>>;

/// Whether parents and children alike stand in order, and no parent is
/// listed without a child.
pub open spec fn children_wf(children: Children) -> bool {
    &&& children.wf()
    &&& forall|parent: EnvelopeDigest| #[trigger]
        children@.contains_key(parent) ==> children@[parent].wf() && children@[parent]@
            != Set::<EnvelopeDigest>::empty()
}

/// Whether `digest` is listed as a child of `parent`.
pub open spec fn indexed(
    children: Children,
    parent: EnvelopeDigest,
    digest: EnvelopeDigest,
) -> bool {
    children@.contains_key(parent) && children@[parent]@.contains(digest)
}

/// Lists `digest` as a child of `parent`.
fn index(children: &mut Children, parent: EnvelopeDigest, digest: EnvelopeDigest)
    requires
        children_wf(*old(children)),
    ensures
        children_wf(*final(children)),
        forall|p: EnvelopeDigest, d: EnvelopeDigest| #[trigger]
            indexed(*final(children), p, d) == (indexed(*old(children), p, d) || (p == parent && d
                == digest)),
{
    let ghost was = *children;
    match children.find(&parent) {
        Ok(i) => {
            proof {
                was.filed_once(i as int, parent);
            }
            children.entries[i].1.insert(digest);
            proof {
                let entry = children.entries@[i as int];
                was.replaced_is_inserted(children, i as int, entry);
                assert(entry.1@.contains(digest));
            }
        },
        Err(_) => {
            let mut siblings: SortedSet<EnvelopeDigest> = SortedSet::new();
            siblings.insert(digest);
            assert(siblings@.contains(digest));
            children.insert(parent, siblings);
        },
    }
}

/// No longer lists `digest` as a child of `parent`.
fn unindex(children: &mut Children, parent: EnvelopeDigest, digest: EnvelopeDigest)
    requires
        children_wf(*old(children)),
    ensures
        children_wf(*final(children)),
        forall|p: EnvelopeDigest, d: EnvelopeDigest| #[trigger]
            indexed(*final(children), p, d) == (indexed(*old(children), p, d) && !(p == parent && d
                == digest)),
{
    let ghost was = *children;
    if let Ok(i) = children.find(&parent) {
        proof {
            was.filed_once(i as int, parent);
        }
        children.entries[i].1.remove(&digest);
        let ghost entry = children.entries@[i as int];
        proof {
            was.replaced_is_inserted(children, i as int, entry);
            children.filed_once(i as int, parent);
            assert forall|d: EnvelopeDigest| #[trigger] entry.1@.contains(d) == (indexed(
                was,
                parent,
                d,
            ) && d != digest) by {}
        }
        if children.entries[i].1.is_empty() {
            let _ = children.remove_at(i);
        }
        assert forall|p: EnvelopeDigest, d: EnvelopeDigest| #[trigger]
            indexed(*children, p, d) == (indexed(was, p, d) && !(p == parent && d == digest)) by {
            assert(entry.1@.contains(d) == (indexed(was, parent, d) && d != digest));
        }
    }
}

/// A [`Storage`] held entirely in memory. Nothing it does can fail.
#[derive(Debug, PartialEq, Eq)]
pub struct MemStorage {
    versions: SortedMap<EnvelopeDigest, Namespaces>,
    envelopes: SortedMap<EnvelopeDigest, LogEntry>,
    /// The children of each filed envelope, in digest order.
    children: Children,
}

impl MemStorage {
    /// What each version holds.
    pub closed spec fn versions_view(&self) -> Map<EnvelopeDigest, Version> {
        Map::new(
            |head: EnvelopeDigest| self.versions@.contains_key(head),
            |head: EnvelopeDigest| namespaces_view(self.versions@[head]),
        )
    }

    /// What is filed in the log.
    pub closed spec fn log_view(&self) -> Map<EnvelopeDigest, Logged> {
        Map::new(
            |digest: EnvelopeDigest| self.envelopes@.contains_key(digest),
            |digest: EnvelopeDigest| self.envelopes@[digest]@,
        )
    }

    spec fn sound(&self) -> bool {
        &&& self.versions.wf()
        &&& forall|head: EnvelopeDigest| #[trigger]
            self.versions@.contains_key(head) ==> namespaces_wf(self.versions@[head])
        &&& self.envelopes.wf()
        &&& forall|digest: EnvelopeDigest| #[trigger]
            self.envelopes@.contains_key(digest) ==> self.envelopes@[digest].wf()
        &&& children_wf(self.children)
        &&& forall|parent: EnvelopeDigest, digest: EnvelopeDigest| #[trigger]
            indexed(self.children, parent, digest) == (self.envelopes@.contains_key(digest)
                && self.envelopes@[digest]@.envelope.payload.prev() == Some(parent))
    }

    /// An empty store.
    pub fn new() -> (store: Self)
        ensures
            store.wf(),
            store.store() == (Store { versions: Map::empty(), log: Map::empty() }),
    {
        let store = MemStorage {
            versions: SortedMap::new(),
            envelopes: SortedMap::new(),
            children: SortedMap::new(),
        };
        assert(store.versions_view() =~= Map::empty());
        assert(store.log_view() =~= Map::empty());
        store
    }

    /// The version at `head`.
    fn version(&self, head: EnvelopeDigest) -> (version: &Namespaces)
        requires
            self.wf(),
            self.store().versions.contains_key(head),
        ensures
            namespaces_wf(*version),
            namespaces_view(*version) == self.store().versions[head],
    {
        self.versions.get(&head).unwrap()
    }
}

impl Default for MemStorage {
    fn default() -> (store: Self)
        ensures
            store.wf(),
            store.store() == (Store { versions: Map::empty(), log: Map::empty() }),
    {
        MemStorage::new()
    }
}

/// Applies a legal write to the namespaces of one version.
fn apply_op(version: &mut Namespaces, op: NamespaceOp)
    requires
        namespaces_wf(*old(version)),
        op.wf(),
        op@.fits(namespaces_view(*old(version))),
    ensures
        namespaces_wf(*final(version)),
        namespaces_view(*final(version)) == op@.applied(namespaces_view(*old(version))),
{
    let ghost was = *version;
    match op {
        NamespaceOp::Put(key, namespace) => {
            version.insert(key, namespace);
            proof {
                namespace_inserted(was, *version, key@, namespace);
            }
        },
        NamespaceOp::Delete(key) => {
            let _ = version.remove(&key);
            proof {
                namespace_removed(was, *version, key@);
            }
        },
        NamespaceOp::SetAt { key, path, value } => {
            match version.find(&key) {
                Ok(i) => {
                    proof {
                        was.filed_once(i as int, key@);
                    }
                    set_at(&mut version.entries[i].1.value, &path, value);
                    proof {
                        namespace_replaced(was, *version, i as int, version.entries@[i as int].1);
                    }
                },
                Err(_) => {
                    assert(false);
                },
            }
        },
        NamespaceOp::AmendAt { key, path, op } => {
            match version.find(&key) {
                Ok(i) => {
                    proof {
                        was.filed_once(i as int, key@);
                    }
                    amend_at(&mut version.entries[i].1.value, &path, op);
                    proof {
                        namespace_replaced(was, *version, i as int, version.entries@[i as int].1);
                    }
                },
                Err(_) => {
                    assert(false);
                },
            }
        },
    }
}

impl Storage for MemStorage {
    type Error = Infallible;

    open spec fn fails() -> bool {
        false
    }

    closed spec fn store(&self) -> Store {
        Store { versions: self.versions_view(), log: self.log_view() }
    }

    closed spec fn wf(&self) -> bool {
        self.sound()
    }

    fn contains_version(&self, head: EnvelopeDigest) -> (held: Result<bool, Infallible>) {
        Ok(self.versions.contains(&head))
    }

    fn namespace(&self, head: EnvelopeDigest, key: &NamespaceKey) -> (namespace: Result<
        Option<Namespace>,
        Infallible,
    >) {
        let version = self.version(head);
        match version.find(key) {
            Ok(i) => {
                proof {
                    version.filed_once(i as int, key@);
                }
                Ok(Some(version.entries[i].1.clone()))
            },
            Err(_) => Ok(None),
        }
    }

    fn namespaces(&self, head: EnvelopeDigest) -> (namespaces: Result<Namespaces, Infallible>) {
        Ok(copy_namespaces(self.version(head)))
    }

    fn commit(&mut self, parent: EnvelopeDigest, head: EnvelopeDigest, op: NamespaceOp) -> (done:
        Result<(), Infallible>) {
        let ghost was = *self;
        let mut version = copy_namespaces(self.version(parent));
        apply_op(&mut version, op);
        self.versions.insert(head, version);
        proof {
            assert(self.versions_view() =~= was.versions_view().insert(
                head,
                namespaces_view(version),
            ));
            assert(self.log_view() =~= was.log_view());
        }
        Ok(())
    }

    fn install(&mut self, head: EnvelopeDigest, namespaces: Namespaces) -> (done: Result<
        (),
        Infallible,
    >) {
        let ghost was = *self;
        self.versions.insert(head, namespaces);
        proof {
            assert(self.versions_view() =~= was.versions_view().insert(
                head,
                namespaces_view(namespaces),
            ));
            assert(self.log_view() =~= was.log_view());
        }
        Ok(())
    }

    fn retain(&mut self, keep: &Vec<EnvelopeDigest>) -> (done: Result<(), Infallible>) {
        let ghost was = *self;
        let ghost kept = keep@.to_set();
        let mut i: usize = 0;
        while i < self.versions.entries.len()
            invariant
                i <= self.versions.entries@.len(),
                self.sound(),
                kept == keep@.to_set(),
                self.envelopes == was.envelopes,
                self.children == was.children,
                forall|j: int|
                    0 <= j < i ==> kept.contains((#[trigger] self.versions.entries@[j]).0),
                forall|head: EnvelopeDigest| #[trigger]
                    self.versions@.contains_key(head) ==> was.versions@.contains_key(head)
                        && self.versions@[head] == was.versions@[head],
                forall|head: EnvelopeDigest| #[trigger]
                    was.versions@.contains_key(head) && kept.contains(head)
                        ==> self.versions@.contains_key(head),
            decreases self.versions.entries@.len() - i,
        {
            let head = self.versions.entries[i].0;
            let ghost listed = self.versions.entries@;
            if holds(keep, head) {
                i += 1;
            } else {
                let _ = self.versions.remove_at(i);
                assert forall|j: int| 0 <= j < i implies kept.contains(
                    (#[trigger] self.versions.entries@[j]).0,
                ) by {
                    assert(self.versions.entries@[j] == listed[j]);
                }
            }
        }
        proof {
            let left = self.versions_view();
            let right = was.versions_view().restrict(kept);
            assert forall|head: EnvelopeDigest|
                #![trigger left.dom().contains(head)]
                #![trigger right.dom().contains(head)]
                #![trigger left[head]]
                #![trigger right[head]]
                left.dom().contains(head) == right.dom().contains(head) && (left.dom().contains(
                    head,
                ) ==> left[head] == right[head]) by {
                if self.versions@.contains_key(head) {
                    self.versions.filed_somewhere(head);
                    let j = self.versions.index_of(head);
                    assert(kept.contains(self.versions.entries@[j].0));
                    assert(was.versions@.contains_key(head));
                }
                if was.versions@.contains_key(head) && kept.contains(head) {
                    assert(self.versions@.contains_key(head));
                }
            }
            assert(left =~= right);
            assert(self.log_view() =~= was.log_view());
        }
        Ok(())
    }

    fn put_envelope(&mut self, digest: EnvelopeDigest, envelope: Envelope) -> (done: Result<
        (),
        Infallible,
    >) {
        let ghost was = *self;
        let ghost letter = envelope@;
        let prev = envelope.payload.prev_digest();
        // Kept from the record being replaced: the stamp says when this
        // node first saw the envelope, not when it last wrote it down.
        let stored_at = match self.envelopes.get(&digest) {
            Some(entry) => {
                let stored_at = entry.stored_at;
                let before = entry.envelope.payload.prev_digest();
                if let Some(parent) = before {
                    unindex(&mut self.children, parent, digest);
                }
                stored_at
            },
            None => StoredAt::now(),
        };
        let ghost between = self.children;
        assert forall|p: EnvelopeDigest, d: EnvelopeDigest| #[trigger]
            indexed(between, p, d) == (indexed(was.children, p, d) && d != digest) by {
            assert(indexed(was.children, p, digest) == (was.envelopes@.contains_key(digest)
                && was.envelopes@[digest]@.envelope.payload.prev() == Some(p)));
        }
        if let Some(parent) = prev {
            index(&mut self.children, parent, digest);
        }
        self.envelopes.insert(digest, LogEntry { envelope, stored_at });
        proof {
            assert(self.versions_view() =~= was.versions_view());
            assert(self.log_view().remove(digest) =~= was.log_view().remove(digest));
            assert forall|p: EnvelopeDigest, d: EnvelopeDigest| #[trigger]
                indexed(self.children, p, d) == (self.envelopes@.contains_key(d)
                    && self.envelopes@[d]@.envelope.payload.prev() == Some(p)) by {
                assert(indexed(between, p, d) == (indexed(was.children, p, d) && d != digest));
            }
        }
        Ok(())
    }

    fn logged_envelope(&self, digest: EnvelopeDigest) -> (entry: Result<
        Option<LogEntry>,
        Infallible,
    >) {
        match self.envelopes.get(&digest) {
            Some(entry) => Ok(Some(entry.clone())),
            None => Ok(None),
        }
    }

    fn parent(&self, digest: EnvelopeDigest) -> (parent: Result<
        Option<EnvelopeDigest>,
        Infallible,
    >) {
        match self.envelopes.get(&digest) {
            Some(entry) => Ok(entry.envelope.payload.prev_digest()),
            None => Ok(None),
        }
    }

    fn remove_envelope(&mut self, digest: EnvelopeDigest) -> (done: Result<(), Infallible>) {
        let ghost was = *self;
        if let Some(entry) = self.envelopes.remove(&digest) {
            if let Some(parent) = entry.envelope.payload.prev_digest() {
                unindex(&mut self.children, parent, digest);
            }
        }
        proof {
            assert(self.versions_view() =~= was.versions_view());
            assert(self.log_view() =~= was.log_view().remove(digest));
            assert forall|p: EnvelopeDigest, d: EnvelopeDigest| #[trigger]
                indexed(self.children, p, d) == (self.envelopes@.contains_key(d)
                    && self.envelopes@[d]@.envelope.payload.prev() == Some(p)) by {
                assert(indexed(was.children, p, d) == (was.envelopes@.contains_key(d)
                    && was.envelopes@[d]@.envelope.payload.prev() == Some(p)));
            }
        }
        Ok(())
    }

    fn children(&self, parent: EnvelopeDigest) -> (children: Result<
        Vec<EnvelopeDigest>,
        Infallible,
    >) {
        let mut children: Vec<EnvelopeDigest> = Vec::new();
        if let Some(siblings) = self.children.get(&parent) {
            let mut i: usize = 0;
            while i < siblings.len()
                invariant
                    i <= siblings.map.entries@.len(),
                    siblings.wf(),
                    children@.len() == i,
                    forall|j: int|
                        0 <= j < i ==> #[trigger] children@[j] == siblings.map.entries@[j].0,
                decreases siblings.map.entries@.len() - i,
            {
                children.push(*siblings.at(i));
                i += 1;
            }
            proof {
                assert forall|a: int, b: int| 0 <= a < b < children@.len() implies <EnvelopeDigest as Ordered>::lt(
                    #[trigger] children@[a],
                    #[trigger] children@[b],
                ) by {
                    assert(children@[a] == siblings.map.entries@[a].0);
                    assert(children@[b] == siblings.map.entries@[b].0);
                }
                assert forall|digest: EnvelopeDigest| #[trigger]
                    children@.contains(digest) <==> indexed(self.children, parent, digest) by {
                    if siblings.map.has(digest) {
                        let j = siblings.map.index_of(digest);
                        assert(siblings.map.filed(j, digest));
                        assert(children@[j] == digest);
                    }
                    if children@.contains(digest) {
                        let j = choose|j: int| 0 <= j < children@.len() && children@[j] == digest;
                        assert(children@[j] == siblings.map.entries@[j].0);
                        assert(siblings.map.filed(j, digest));
                    }
                }
            }
        }
        proof {
            assert forall|digest: EnvelopeDigest| #[trigger]
                children@.contains(digest) <==> self.store().follows(digest, parent) by {
                assert(children@.contains(digest) <==> indexed(self.children, parent, digest));
            }
        }
        Ok(children)
    }
}

/// Whether `digests` holds `digest`.
pub fn holds(digests: &Vec<EnvelopeDigest>, digest: EnvelopeDigest) -> (held: bool)
    ensures
        held == digests@.contains(digest),
{
    let mut i: usize = 0;
    while i < digests.len()
        invariant
            i <= digests@.len(),
            forall|j: int| 0 <= j < i ==> digests@[j] != digest,
        decreases digests@.len() - i,
    {
        if digests[i] == digest {
            return true;
        }
        i += 1;
    }
    false
}

} // verus!
