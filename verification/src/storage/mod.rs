//! Where ledger state lives.
//!
//! A [`Storage`] is a content-addressed version store: every version of the
//! state is filed under the digest of the envelope that produced it, and
//! the store has no notion of a current head. Beside the versions sits the
//! envelope log: the envelopes themselves, filed by digest and indexed by
//! parent. Versions are what the log folds down to.
//!
//! Validation lives above the store: an op arrives already known to fit the
//! version it is applied to, so every backend applies it alike.

use vstd::prelude::*;

use crate::digest::EnvelopeDigest;
use crate::envelope::Envelope;
use crate::msg::{
    namespaces_view, namespaces_wf, path_view, steps_of, value_view, AmendOp, Amendment, Namespace,
    NamespaceKey, Namespaces,
};
use crate::order::Ordered;
use crate::storage::log::{LogEntry, Logged};
use crate::storage::value::{amend_fits, amended, kind_of, resolved, set_fits, walk, written};
use crate::subkey::{steps, Step, Subkey, SubkeyPath};
use crate::tree::walked;
use crate::value::{Tree, Value};

pub mod audit;
pub mod columns;
pub mod graph;
pub mod laws;
pub mod log;
pub mod mem;
pub mod rows;
pub mod sqlite;
pub mod tables;
pub mod value;

verus! {

/// What a node in a namespace's value tree holds, without its contents.
#[derive(Debug, Clone, Copy, PartialEq, Eq, Structural)]
pub enum NodeKind {
    /// Named fields.
    Table,
    /// Items by place.
    Array,
    /// Any other value; nothing can be walked through it.
    Leaf,
}

/// How far a walk down a namespace's value tree got.
#[derive(Debug, Clone, Copy, PartialEq, Eq, Structural)]
pub enum Resolution {
    /// Every segment resolved; the terminal node's kind.
    Node(NodeKind),
    /// The segment at `depth` addressed nothing. `at` is the kind of the
    /// container the walk stopped in, whose shape the segment matched.
    Missing { depth: usize, at: NodeKind },
    /// The segment at `depth` does not fit the node it reached: a name into
    /// what is no table, an index into what is no array, or a step through
    /// a leaf.
    Mismatch { depth: usize },
}

/// What a node is, and what lies right below it.
#[derive(Debug, PartialEq, Eq)]
pub enum ValueMeta {
    /// A table, and the names of its fields in order.
    Table { keys: Vec<String> },
    /// An array, and how many items it has.
    Array { len: usize },
    /// Anything else.
    Leaf,
}

impl ValueMeta {
    /// Whether this describes `tree`.
    pub open spec fn describes(&self, tree: Tree) -> bool {
        match (self, tree) {
            (ValueMeta::Table { keys }, Tree::Table(fields)) => {
                &&& ascending(keys@.map_values(|key: String| key@))
                &&& forall|name: Seq<char>|
                    #[trigger] fields.contains_key(name) <==> keys@.map_values(
                        |key: String| key@,
                    ).contains(name)
            },
            (ValueMeta::Array { len }, Tree::Array(items)) => *len == items.len(),
            (ValueMeta::Leaf, tree) => kind_of(tree) == NodeKind::Leaf,
            _ => false,
        }
    }
}

/// Whether names come in strictly ascending order.
pub open spec fn ascending(names: Seq<Seq<char>>) -> bool {
    forall|i: int, j: int|
        0 <= i < j < names.len() ==> crate::text::text_lt(
            #[trigger] names[i],
            #[trigger] names[j],
        )
}

/// Whether digests come in strictly ascending order.
pub open spec fn digests_ascend(digests: Seq<EnvelopeDigest>) -> bool {
    forall|i: int, j: int|
        0 <= i < j < digests.len() ==> <EnvelopeDigest as Ordered>::lt(
            #[trigger] digests[i],
            #[trigger] digests[j],
        )
}

/// The single namespace write a commit carries.
#[derive(Debug, PartialEq, Eq)]
#[allow(inconsistent_fields)]
pub enum NamespaceOp {
    /// Writes a whole namespace, creating or overwriting it.
    Put(NamespaceKey, Namespace),
    /// Removes a namespace, which the parent version holds.
    Delete(NamespaceKey),
    /// Sets or clears one value nested inside a namespace.
    SetAt {
        key: NamespaceKey,
        path: SubkeyPath,
        /// What to write, or `None` to remove what `path` addresses.
        value: Option<Value>,
    },
    /// Changes a value inside a namespace in place.
    AmendAt {
        key: NamespaceKey,
        /// Where, or `None` for the namespace's value itself.
        path: Option<SubkeyPath>,
        op: AmendOp,
    },
}

/// What a commit writes.
#[allow(inconsistent_fields)]
pub enum Write {
    Put { key: Seq<char>, value: Tree },
    Delete { key: Seq<char> },
    SetAt { key: Seq<char>, path: Seq<Step>, value: Option<Tree> },
    AmendAt { key: Seq<char>, path: Seq<Step>, op: Amendment },
}

impl View for NamespaceOp {
    type V = Write;

    open spec fn view(&self) -> Write {
        match self {
            NamespaceOp::Put(key, namespace) => Write::Put { key: key@, value: namespace@ },
            NamespaceOp::Delete(key) => Write::Delete { key: key@ },
            NamespaceOp::SetAt { key, path, value } => Write::SetAt {
                key: key@,
                path: path@,
                value: value_view(*value),
            },
            NamespaceOp::AmendAt { key, path, op } => Write::AmendAt {
                key: key@,
                path: steps_of(path_view(*path)),
                op: op@,
            },
        }
    }
}

impl NamespaceOp {
    pub open spec fn wf(&self) -> bool {
        match self {
            NamespaceOp::Put(_, namespace) => namespace.wf(),
            NamespaceOp::Delete(_) => true,
            NamespaceOp::SetAt { value, .. } => value matches Some(v) ==> v.wf(),
            NamespaceOp::AmendAt { op, .. } => op.wf(),
        }
    }
}

/// One version of the state: what each namespace holds.
pub type Version = Map<Seq<char>, Tree>;

impl Write {
    /// Whether the write is legal on `version`.
    pub open spec fn fits(self, version: Version) -> bool {
        match self {
            Write::Put { .. } => true,
            Write::Delete { key } => version.contains_key(key),
            Write::SetAt { key, path, value } => version.contains_key(key) && set_fits(
                version[key],
                path,
                value is Some,
            ),
            Write::AmendAt { key, path, op } => version.contains_key(key) && amend_fits(
                version[key],
                path,
                op,
            ),
        }
    }

    /// `version` after the write.
    pub open spec fn applied(self, version: Version) -> Version {
        match self {
            Write::Put { key, value } => version.insert(key, value),
            Write::Delete { key } => version.remove(key),
            Write::SetAt { key, path, value } => version.insert(
                key,
                written(version[key], path, value),
            ),
            Write::AmendAt { key, path, op } => version.insert(key, amended(version[key], path, op)),
        }
    }
}

/// What a store holds: the state after each envelope it has applied, and
/// the envelopes filed in its log.
pub struct Store {
    pub versions: Map<EnvelopeDigest, Version>,
    pub log: Map<EnvelopeDigest, Logged>,
}

impl Store {
    /// Whether the envelope filed under `digest` follows `parent`.
    pub open spec fn follows(self, digest: EnvelopeDigest, parent: EnvelopeDigest) -> bool {
        self.log.contains_key(digest) && self.log[digest].envelope.payload.prev() == Some(parent)
    }

    /// The envelope that the one filed under `digest` follows.
    pub open spec fn parent(self, digest: EnvelopeDigest) -> Option<EnvelopeDigest> {
        if self.log.contains_key(digest) {
            self.log[digest].envelope.payload.prev()
        } else {
            None
        }
    }
}

/// A storage backend for the log of envelopes and the state at each of
/// their digests.
///
/// Implementations only store; deciding whether an envelope may apply is
/// the caller's job. Except through [`Storage::contains_version`],
/// addressing a head the store does not hold is a broken invariant.
pub trait Storage: Sized {
    type Error;

    /// What the store holds.
    spec fn store(&self) -> Store;

    /// Whether the backend's own structure is sound.
    spec fn wf(&self) -> bool;

    /// Whether the backend can fail at all.
    spec fn fails() -> bool;

    /// Whether the store holds a version at `head`.
    fn contains_version(&self, head: EnvelopeDigest) -> (held: Result<bool, Self::Error>)
        requires
            self.wf(),
        ensures
            held is Err ==> Self::fails(),
            held matches Ok(held) ==> held == self.store().versions.contains_key(head),
    ;

    /// Walks `path` from the root of the namespace filed under `key` in the
    /// version at `head`; `None` when that version holds no such namespace.
    fn resolve(&self, head: EnvelopeDigest, key: &NamespaceKey, path: &Vec<Subkey>) -> (resolution:
        Result<Option<Resolution>, Self::Error>)
        requires
            self.wf(),
            self.store().versions.contains_key(head),
        ensures
            resolution is Err ==> Self::fails(),
            resolution matches Ok(resolution) ==> resolution == (
            if self.store().versions[head].contains_key(key@) {
                Some(resolved(self.store().versions[head][key@], steps(path@), 0))
            } else {
                None
            }),
    {
        match self.namespace(head, key) {
            Ok(Some(namespace)) => Ok(Some(value::resolve(&namespace.value, path))),
            Ok(None) => Ok(None),
            Err(error) => Err(error),
        }
    }

    /// The value `path` addresses in the namespace filed under `key` in the
    /// version at `head`, if there is one.
    fn value_at(&self, head: EnvelopeDigest, key: &NamespaceKey, path: &Vec<Subkey>) -> (found:
        Result<Option<Value>, Self::Error>)
        requires
            self.wf(),
            self.store().versions.contains_key(head),
        ensures
            found is Err ==> Self::fails(),
            found matches Ok(found) ==> {
                &&& found matches Some(value) ==> value.wf()
                &&& value_view(found) == if self.store().versions[head].contains_key(key@) {
                    walked(self.store().versions[head][key@], steps(path@))
                } else {
                    None
                }
            },
    {
        match self.namespace(head, key) {
            Ok(Some(namespace)) => match walk(&namespace.value, path) {
                Some(value) => Ok(Some(value.clone())),
                None => Ok(None),
            },
            Ok(None) => Ok(None),
            Err(error) => Err(error),
        }
    }

    /// What the node `path` addresses is and what lies right below it, if
    /// there is one.
    fn meta_at(&self, head: EnvelopeDigest, key: &NamespaceKey, path: &Vec<Subkey>) -> (found:
        Result<Option<ValueMeta>, Self::Error>)
        requires
            self.wf(),
            self.store().versions.contains_key(head),
        ensures
            found is Err ==> Self::fails(),
            found matches Ok(found) ==> ({
                let at = if self.store().versions[head].contains_key(key@) {
                    walked(self.store().versions[head][key@], steps(path@))
                } else {
                    None
                };
                match found {
                    Some(meta) => at is Some && meta.describes(at->0),
                    None => at is None,
                }
            }),
    {
        match self.namespace(head, key) {
            Ok(Some(namespace)) => match walk(&namespace.value, path) {
                Some(value) => Ok(Some(value::meta(value))),
                None => Ok(None),
            },
            Ok(None) => Ok(None),
            Err(error) => Err(error),
        }
    }

    /// The whole namespace filed under `key` in the version at `head`.
    fn namespace(&self, head: EnvelopeDigest, key: &NamespaceKey) -> (namespace: Result<
        Option<Namespace>,
        Self::Error,
    >)
        requires
            self.wf(),
            self.store().versions.contains_key(head),
        ensures
            namespace is Err ==> Self::fails(),
            namespace matches Ok(namespace) ==> match namespace {
                Some(namespace) => {
                    &&& namespace.wf()
                    &&& self.store().versions[head].contains_key(key@)
                    &&& namespace@ == self.store().versions[head][key@]
                },
                None => !self.store().versions[head].contains_key(key@),
            },
    ;

    /// The names of the namespaces in the version at `head`, in order.
    fn namespace_keys(&self, head: EnvelopeDigest) -> (keys: Result<Vec<NamespaceKey>, Self::Error>)
        requires
            self.wf(),
            self.store().versions.contains_key(head),
        ensures
            keys is Err ==> Self::fails(),
            keys matches Ok(keys) ==> {
                &&& ascending(keys@.map_values(|key: NamespaceKey| key@))
                &&& forall|name: Seq<char>|
                    #[trigger] self.store().versions[head].contains_key(name)
                        <==> keys@.map_values(|key: NamespaceKey| key@).contains(name)
            },
    {
        match self.namespaces(head) {
            Ok(namespaces) => Ok(crate::msg::namespace_names(&namespaces)),
            Err(error) => Err(error),
        }
    }

    /// Every namespace in the version at `head`, in order.
    fn namespaces(&self, head: EnvelopeDigest) -> (namespaces: Result<Namespaces, Self::Error>)
        requires
            self.wf(),
            self.store().versions.contains_key(head),
        ensures
            namespaces is Err ==> Self::fails(),
            namespaces matches Ok(namespaces) ==> namespaces_wf(namespaces) && namespaces_view(
                namespaces,
            ) == self.store().versions[head],
    ;

    /// Derives the version at `head` by applying `op` to the version at
    /// `parent`, which is left as it was. A failed commit leaves nothing
    /// behind.
    fn commit(&mut self, parent: EnvelopeDigest, head: EnvelopeDigest, op: NamespaceOp) -> (done:
        Result<(), Self::Error>)
        requires
            old(self).wf(),
            old(self).store().versions.contains_key(parent),
            op.wf(),
            op@.fits(old(self).store().versions[parent]),
        ensures
            done is Err ==> Self::fails(),
            final(self).wf(),
            match done {
                Ok(_) => final(self).store() == (Store {
                    versions: old(self).store().versions.insert(
                        head,
                        op@.applied(old(self).store().versions[parent]),
                    ),
                    log: old(self).store().log,
                }),
                Err(_) => final(self).store() == old(self).store(),
            },
    ;

    /// Installs `namespaces` as the version at `head`.
    fn install(&mut self, head: EnvelopeDigest, namespaces: Namespaces) -> (done: Result<
        (),
        Self::Error,
    >)
        requires
            old(self).wf(),
            namespaces_wf(namespaces),
        ensures
            done is Err ==> Self::fails(),
            final(self).wf(),
            done is Ok ==> final(self).store() == (Store {
                versions: old(self).store().versions.insert(head, namespaces_view(namespaces)),
                log: old(self).store().log,
            }),
    ;

    /// Drops every version whose head is not in `keep`; the log is left
    /// alone.
    fn retain(&mut self, keep: &Vec<EnvelopeDigest>) -> (done: Result<(), Self::Error>)
        requires
            old(self).wf(),
        ensures
            done is Err ==> Self::fails(),
            final(self).wf(),
            done is Ok ==> final(self).store() == (Store {
                versions: old(self).store().versions.restrict(keep@.to_set()),
                log: old(self).store().log,
            }),
    ;

    /// Files `envelope` in the log under `digest`. What was filed there
    /// before is replaced, except for when it was first stored; what is new
    /// is stamped with a reading of the clock.
    fn put_envelope(&mut self, digest: EnvelopeDigest, envelope: Envelope) -> (done: Result<
        (),
        Self::Error,
    >)
        requires
            old(self).wf(),
            envelope.wf(),
        ensures
            done is Err ==> Self::fails(),
            final(self).wf(),
            done is Ok ==> {
                &&& final(self).store().versions == old(self).store().versions
                &&& final(self).store().log.contains_key(digest)
                &&& final(self).store().log[digest].envelope == envelope@
                &&& old(self).store().log.contains_key(digest)
                    ==> final(self).store().log[digest].stored_at
                        == old(self).store().log[digest].stored_at
                &&& !old(self).store().log.contains_key(digest)
                    ==> final(self).store().log[digest].stored_at.wf()
                &&& final(self).store().log.remove(digest) == old(self).store().log.remove(digest)
            },
    ;

    /// The log's record of the envelope filed under `digest`.
    fn logged_envelope(&self, digest: EnvelopeDigest) -> (entry: Result<
        Option<LogEntry>,
        Self::Error,
    >)
        requires
            self.wf(),
        ensures
            entry is Err ==> Self::fails(),
            entry matches Ok(entry) ==> match entry {
                Some(entry) => {
                    &&& entry.wf()
                    &&& self.store().log.contains_key(digest)
                    &&& entry@ == self.store().log[digest]
                },
                None => !self.store().log.contains_key(digest),
            },
    ;

    /// The envelope filed under `digest`.
    fn envelope(&self, digest: EnvelopeDigest) -> (envelope: Result<Option<Envelope>, Self::Error>)
        requires
            self.wf(),
        ensures
            envelope is Err ==> Self::fails(),
            envelope matches Ok(envelope) ==> match envelope {
                Some(envelope) => {
                    &&& envelope.wf()
                    &&& self.store().log.contains_key(digest)
                    &&& envelope@ == self.store().log[digest].envelope
                },
                None => !self.store().log.contains_key(digest),
            },
    {
        match self.logged_envelope(digest) {
            Ok(Some(entry)) => Ok(Some(entry.envelope)),
            Ok(None) => Ok(None),
            Err(error) => Err(error),
        }
    }

    /// The envelope that the one filed under `digest` follows; `None` when
    /// it opens a chain, or is not filed.
    fn parent(&self, digest: EnvelopeDigest) -> (parent: Result<
        Option<EnvelopeDigest>,
        Self::Error,
    >)
        requires
            self.wf(),
        ensures
            parent is Err ==> Self::fails(),
            parent matches Ok(parent) ==> parent == self.store().parent(digest),
    {
        match self.envelope(digest) {
            Ok(Some(envelope)) => Ok(envelope.payload.prev_digest()),
            Ok(None) => Ok(None),
            Err(error) => Err(error),
        }
    }

    /// Removes the envelope filed under `digest` from the log; nothing
    /// happens when none is.
    fn remove_envelope(&mut self, digest: EnvelopeDigest) -> (done: Result<(), Self::Error>)
        requires
            old(self).wf(),
        ensures
            done is Err ==> Self::fails(),
            final(self).wf(),
            done is Ok ==> final(self).store() == (Store {
                versions: old(self).store().versions,
                log: old(self).store().log.remove(digest),
            }),
    ;

    /// The digests of every filed envelope that follows `parent`, in
    /// ascending order.
    fn children(&self, parent: EnvelopeDigest) -> (children: Result<
        Vec<EnvelopeDigest>,
        Self::Error,
    >)
        requires
            self.wf(),
        ensures
            children is Err ==> Self::fails(),
            children matches Ok(children) ==> {
                &&& digests_ascend(children@)
                &&& forall|digest: EnvelopeDigest|
                    #[trigger] children@.contains(digest) <==> self.store().follows(digest, parent)
            },
    ;
}

} // verus!
