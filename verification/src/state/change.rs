//! What a head movement changed.
//!
//! A [`ChangeSet`] summarises the namespaces and paths a run of envelopes
//! touched; a [`ChangeDiffer`] derives one from the log, reorgs included.
//! Callers use the summary to decide what to go and re-read. It is not a
//! diff of values.

use vstd::prelude::*;

use crate::digest::EnvelopeDigest;
use crate::envelope::Envelope;
use crate::msg::{Deed, Msg, NamespaceKey};
use crate::order::{Ordered, SortedMap, SortedSet};
use crate::state::chain::{ancestor, ancestors_end, layered, layered_by};
use crate::state::error::Error;
use crate::storage::{Storage, Store};
use crate::subkey::{Step, SubkeyPath};

verus! {

/// What changed inside one namespace.
#[derive(Debug, PartialEq, Eq)]
pub enum Change {
    /// The namespace was written, removed, or amended at its root, so
    /// anything under it may differ.
    Whole,
    /// Only these paths were touched. Never empty: a namespace nothing
    /// touched is absent from the [`ChangeSet`] instead. No path here is a
    /// prefix of another: the shallowest description of the change is kept
    /// and the deeper paths it covers are dropped.
    Paths(SortedSet<SubkeyPath>),
}

/// What changed inside one namespace.
pub enum Changed {
    Whole,
    Paths(Set<Seq<Step>>),
}

impl View for Change {
    type V = Changed;

    open spec fn view(&self) -> Changed {
        match self {
            Change::Whole => Changed::Whole,
            Change::Paths(paths) => Changed::Paths(paths@),
        }
    }
}

impl Change {
    pub open spec fn wf(&self) -> bool {
        self@.sound() && (self matches Change::Paths(paths) ==> paths.wf())
    }
}

impl Changed {
    /// Whether the paths, if any, are some, and none covers another.
    pub open spec fn sound(self) -> bool {
        self matches Changed::Paths(paths) ==> {
            &&& exists|path: Seq<Step>| paths.contains(path)
            &&& scattered(paths)
        }
    }
}

/// Whether `a` covers `b`: everything `b` addresses lies under `a`, equal
/// paths included.
pub open spec fn covered(a: Seq<Step>, b: Seq<Step>) -> bool {
    a.len() <= b.len() && b.take(a.len() as int) == a
}

/// Whether two paths address overlapping state: one covers the other.
pub open spec fn overlapping(a: Seq<Step>, b: Seq<Step>) -> bool {
    covered(a, b) || covered(b, a)
}

/// Whether none of `paths` covers another.
pub open spec fn scattered(paths: Set<Seq<Step>>) -> bool {
    forall|a: Seq<Step>, b: Seq<Step>|
        paths.contains(a) && paths.contains(b) && #[trigger] covered(a, b) ==> a == b
}

/// Those of `paths` that no other covers.
pub open spec fn shallowest(paths: Set<Seq<Step>>) -> Set<Seq<Step>> {
    Set::new(
        |path: Seq<Step>|
            paths.contains(path) && forall|other: Seq<Step>|
                paths.contains(other) && #[trigger] covered(other, path) ==> other == path,
    )
}

/// Two changes to one namespace, as one.
pub open spec fn both(a: Option<Changed>, b: Option<Changed>) -> Option<Changed> {
    match (a, b) {
        (None, _) => b,
        (_, None) => a,
        (Some(Changed::Paths(x)), Some(Changed::Paths(y))) => Some(
            Changed::Paths(shallowest(x.union(y))),
        ),
        _ => Some(Changed::Whole),
    }
}

/// What changed in each namespace.
pub type Changes = Map<Seq<char>, Changed>;

/// What changed in `key`, if anything.
pub open spec fn changed_in(changes: Changes, key: Seq<char>) -> Option<Changed> {
    if changes.contains_key(key) {
        Some(changes[key])
    } else {
        None
    }
}

/// `changes` and a change to `path` in `key`; without a path, to the whole
/// of it.
pub open spec fn touched(changes: Changes, key: Seq<char>, path: Option<Seq<Step>>) -> Changes {
    let change = match path {
        None => Changed::Whole,
        Some(path) => Changed::Paths(Set::empty().insert(path)),
    };
    changes.insert(key, both(changed_in(changes, key), Some(change))->0)
}

/// Two sets of changes as one.
pub open spec fn merged(a: Changes, b: Changes) -> Changes {
    Map::new(
        |key: Seq<char>| a.contains_key(key) || b.contains_key(key),
        |key: Seq<char>| both(changed_in(a, key), changed_in(b, key))->0,
    )
}

/// `changes` and everything that `deed` touches.
pub open spec fn recorded(changes: Changes, deed: Deed) -> Changes {
    match deed {
        Deed::Init { namespaces } => Map::new(
            |key: Seq<char>| changes.contains_key(key) || namespaces.contains_key(key),
            |key: Seq<char>|
                if namespaces.contains_key(key) {
                    Changed::Whole
                } else {
                    changes[key]
                },
        ),
        Deed::SetNamespace { key, .. } => touched(changes, key, None),
        Deed::DeleteNamespace { key, .. } => touched(changes, key, None),
        Deed::SetNamespaceKey { key, path, .. } => touched(changes, key, Some(path)),
        Deed::AmendNamespaceKey { key, path, .. } => touched(changes, key, path),
    }
}

/// Whether what `path` addresses in `key` may have changed; without a path,
/// whether anything in it may have.
pub open spec fn may_differ(changes: Changes, key: Seq<char>, path: Option<Seq<Step>>) -> bool {
    match (changed_in(changes, key), path) {
        (None, _) => false,
        (Some(Changed::Paths(paths)), Some(path)) => meets(paths, path),
        _ => true,
    }
}

/// Whether one of `paths` overlaps `path`.
pub open spec fn meets(paths: Set<Seq<Step>>, path: Seq<Step>) -> bool {
    exists|other: Seq<Step>| paths.contains(other) && #[trigger] overlapping(other, path)
}

/// The namespaces and paths a run of envelopes touched.
///
/// An over-approximation: a value written back to what it already was still
/// appears here, and an append records the array it landed in rather than
/// the index it created. Reorgs are summarised the same way: the branch
/// left behind contributes its changes alongside the branch taken, since
/// both are things a reader must look at again.
#[derive(Debug, PartialEq, Eq)]
pub struct ChangeSet {
    pub entries: SortedMap<NamespaceKey, Change>,
}

impl View for ChangeSet {
    type V = Changes;

    open spec fn view(&self) -> Changes {
        Map::new(
            |key: Seq<char>| self.entries@.contains_key(key),
            |key: Seq<char>| self.entries@[key]@,
        )
    }
}

/// A path covers itself.
proof fn covering_is_reflexive(a: Seq<Step>)
    ensures
        covered(a, a),
{
    assert(a.take(a.len() as int) =~= a);
}

/// What covers a path that covers another, covers the other.
pub proof fn covering_is_transitive(a: Seq<Step>, b: Seq<Step>, c: Seq<Step>)
    requires
        covered(a, b),
        covered(b, c),
    ensures
        covered(a, c),
{
    assert(c.take(a.len() as int) =~= c.take(b.len() as int).take(a.len() as int));
}

/// Paths that cover each other are the same.
proof fn covering_is_antisymmetric(a: Seq<Step>, b: Seq<Step>)
    requires
        covered(a, b),
        covered(b, a),
    ensures
        a == b,
{
    assert(b.take(b.len() as int) =~= b);
}

/// Every path is covered by one of the shallowest.
pub proof fn a_shallower_one(paths: Set<Seq<Step>>, path: Seq<Step>) -> (found: Seq<Step>)
    requires
        paths.contains(path),
    ensures
        shallowest(paths).contains(found),
        covered(found, path),
    decreases path.len(),
{
    covering_is_reflexive(path);
    if shallowest(paths).contains(path) {
        path
    } else {
        let other = choose|other: Seq<Step>|
            paths.contains(other) && #[trigger] covered(other, path) && other != path;
        if other.len() == path.len() {
            assert(path.take(path.len() as int) =~= path);
        }
        let found = a_shallower_one(paths, other);
        covering_is_transitive(found, other, path);
        found
    }
}

/// Of paths none of which covers another, each is among the shallowest.
proof fn scattered_is_shallowest(paths: Set<Seq<Step>>)
    requires
        scattered(paths),
    ensures
        shallowest(paths) == paths,
{
    assert(shallowest(paths) =~= paths);
}

/// The shallowest paths cover one another only where they are the same.
proof fn shallowest_is_scattered(paths: Set<Seq<Step>>)
    ensures
        scattered(shallowest(paths)),
{
}

/// Dropping covered paths first changes nothing.
pub proof fn shallowest_again(a: Set<Seq<Step>>, b: Set<Seq<Step>>)
    ensures
        shallowest(shallowest(a).union(b)) == shallowest(a.union(b)),
{
    let left = shallowest(shallowest(a).union(b));
    let right = shallowest(a.union(b));
    assert forall|path: Seq<Step>| left.contains(path) implies right.contains(path) by {
        assert forall|other: Seq<Step>|
            a.union(b).contains(other) && #[trigger] covered(other, path) implies other == path by {
            if !b.contains(other) {
                let found = a_shallower_one(a, other);
                covering_is_transitive(found, other, path);
                assert(shallowest(a).union(b).contains(found));
                assert(found == path);
                covering_is_antisymmetric(path, other);
            } else {
                assert(shallowest(a).union(b).contains(other));
            }
        }
    }
    assert forall|path: Seq<Step>| right.contains(path) implies left.contains(path) by {
        if a.contains(path) {
            assert forall|other: Seq<Step>|
                a.contains(other) && #[trigger] covered(other, path) implies other == path by {
                assert(a.union(b).contains(other));
            }
        }
        assert forall|other: Seq<Step>|
            shallowest(a).union(b).contains(other) && #[trigger] covered(other, path) implies other
            == path by {
            assert(a.union(b).contains(other));
        }
    }
    assert(left =~= right);
}

/// Whether two paths address overlapping state.
fn overlaps(a: &SubkeyPath, b: &SubkeyPath) -> (overlaps: bool)
    ensures
        overlaps == overlapping(a@, b@),
{
    let mut i: usize = 0;
    while i < a.segments.len() && i < b.segments.len()
        invariant
            i <= a.segments@.len(),
            i <= b.segments@.len(),
            a@.take(i as int) == b@.take(i as int),
        decreases a.segments@.len() - i,
    {
        if !a.segments[i].same(&b.segments[i]) {
            proof {
                if covered(a@, b@) {
                    assert(b@.take(a@.len() as int)[i as int] == b@[i as int]);
                }
                if covered(b@, a@) {
                    assert(a@.take(b@.len() as int)[i as int] == a@[i as int]);
                }
            }
            return false;
        }
        assert(a@.take(i + 1) =~= a@.take(i as int).push(a@[i as int]));
        assert(b@.take(i + 1) =~= b@.take(i as int).push(b@[i as int]));
        i += 1;
    }
    proof {
        if i == a@.len() {
            assert(a@.take(i as int) =~= a@);
        } else {
            assert(b@.take(i as int) =~= b@);
        }
    }
    true
}

/// Whether `a` covers `b`. Recording `b` beside `a` would add nothing.
fn covers(a: &SubkeyPath, b: &SubkeyPath) -> (covers: bool)
    ensures
        covers == covered(a@, b@),
{
    let covers = a.segments.len() <= b.segments.len() && overlaps(a, b);
    proof {
        if a@.len() <= b@.len() && covered(b@, a@) {
            assert(a@.take(b@.len() as int) =~= a@);
            assert(b@.take(a@.len() as int) =~= b@);
        }
    }
    covers
}

/// `paths` with `path`, and without those it covers; `None` where one of
/// them covers it already.
fn with_path(paths: &SortedSet<SubkeyPath>, path: &SubkeyPath) -> (after: Option<
    SortedSet<SubkeyPath>,
>)
    requires
        paths.wf(),
        scattered(paths@),
    ensures
        match after {
            Some(after) => after.wf() && after@ == shallowest(
                paths@.union(Set::empty().insert(path@)),
            ),
            None => shallowest(paths@.union(Set::empty().insert(path@))) == paths@,
        },
{
    let ghost all = paths@.union(Set::empty().insert(path@));
    let mut kept: SortedSet<SubkeyPath> = SortedSet::new();
    let mut i: usize = 0;
    while i < paths.len()
        invariant
            i <= paths.map.entries@.len(),
            paths.wf(),
            scattered(paths@),
            all == paths@.union(Set::empty().insert(path@)),
            kept.wf(),
            forall|other: Seq<Step>| #[trigger]
                kept@.contains(other) ==> paths@.contains(other) && !covered(path@, other),
            forall|j: int|
                0 <= j < i && !covered(path@, (#[trigger] paths.map.entries@[j]).0@)
                    ==> kept@.contains(paths.map.entries@[j].0@),
            forall|j: int| 0 <= j < i ==> !covered((#[trigger] paths.map.entries@[j]).0@, path@),
        decreases paths.map.entries@.len() - i,
    {
        let touched = paths.at(i);
        proof {
            paths.map.filed_once(i as int, touched@);
            assert(paths@.contains(touched@));
        }
        if covers(touched, path) {
            proof {
                assert forall|other: Seq<Step>| #[trigger]
                    shallowest(all).contains(other) == paths@.contains(other) by {
                    if paths@.contains(other) {
                        if covered(path@, other) {
                            covering_is_transitive(touched@, path@, other);
                            assert(touched@ == other);
                            covering_is_antisymmetric(touched@, path@);
                        }
                    } else if other == path@ {
                        assert(all.contains(touched@));
                    }
                }
                assert(shallowest(all) =~= paths@);
            }
            return None;
        }
        if !covers(path, touched) {
            kept.insert(touched.clone());
        }
        i += 1;
    }
    let ghost spared = kept@;
    kept.insert(path.clone());
    proof {
        assert forall|other: Seq<Step>| #[trigger] paths@.contains(other) implies !covered(
            other,
            path@,
        ) && (covered(path@, other) || spared.contains(other)) by {
            let j = paths.map.index_of(other);
            assert(paths.map.filed(j, other));
            assert(paths.map.entries@[j].0@ == other);
        }
        assert forall|other: Seq<Step>| #[trigger]
            shallowest(all).contains(other) == kept@.contains(other) by {
            if other == path@ {
            } else if paths@.contains(other) {
                if covered(path@, other) {
                    assert(all.contains(path@));
                }
            }
        }
        assert(shallowest(all) =~= kept@);
    }
    Some(kept)
}

impl ChangeSet {
    pub open spec fn wf(&self) -> bool {
        &&& self.entries.wf()
        &&& forall|i: int|
            0 <= i < self.entries.entries@.len() ==> (#[trigger] self.entries.entries@[i]).1.wf()
    }

    /// What an entry says is what changed in its namespace.
    proof fn says(&self, i: int)
        requires
            self.wf(),
            0 <= i < self.entries.entries@.len(),
        ensures
            self@.contains_key(self.entries.entries@[i].0@),
            self@[self.entries.entries@[i].0@] == self.entries.entries@[i].1@,
    {
        self.entries.filed_once(i, self.entries.entries@[i].0@);
    }

    /// Nothing touched.
    pub fn new() -> (changes: Self)
        ensures
            changes.wf(),
            changes@ == Map::<Seq<char>, Changed>::empty(),
    {
        let changes = ChangeSet { entries: SortedMap::new() };
        assert(changes@ =~= Map::<Seq<char>, Changed>::empty());
        changes
    }

    /// Whether nothing was touched.
    pub fn is_empty(&self) -> (empty: bool)
        requires
            self.wf(),
        ensures
            empty == (self@ == Map::<Seq<char>, Changed>::empty()),
    {
        proof {
            if self.entries.entries@.len() > 0 {
                self.says(0);
            } else {
                assert(self@ =~= Map::<Seq<char>, Changed>::empty());
            }
        }
        self.entries.len() == 0
    }

    /// What changed in `key`, if anything.
    pub fn get(&self, key: &NamespaceKey) -> (change: Option<&Change>)
        requires
            self.wf(),
        ensures
            match change {
                Some(change) => change.wf() && changed_in(self@, key@) == Some(change@),
                None => changed_in(self@, key@) is None,
            },
    {
        let change = self.entries.get(key);
        proof {
            if self.entries.has(key@) {
                let i = self.entries.index_of(key@);
                assert(self.entries.filed(i, key@));
                self.entries.filed_once(i, key@);
            }
        }
        change
    }

    /// Every namespace touched and what changed in it, in key order.
    pub fn iter(&self) -> (entries: &Vec<(NamespaceKey, Change)>)
        ensures
            *entries == self.entries.entries,
    {
        &self.entries.entries
    }

    /// Whether what `path` addresses in `key` may have changed; `None` asks
    /// about the namespace as a whole.
    ///
    /// Paths match in both directions: writing `servers[0].host` is a
    /// change to a watcher of `servers`, and replacing the whole of
    /// `servers` is a change to a watcher of `servers[0].host`. Only a
    /// path that diverges from every recorded one is left out.
    pub fn touches(&self, key: &NamespaceKey, path: Option<&SubkeyPath>) -> (touches: bool)
        requires
            self.wf(),
        ensures
            touches == may_differ(
                self@,
                key@,
                match path {
                    Some(path) => Some(path@),
                    None => None,
                },
            ),
    {
        match (self.get(key), path) {
            (None, _) => false,
            (Some(Change::Whole), _) | (Some(Change::Paths(_)), None) => true,
            (Some(Change::Paths(paths)), Some(wanted)) => {
                let mut i: usize = 0;
                while i < paths.len()
                    invariant
                        i <= paths.map.entries@.len(),
                        paths.wf(),
                        path == Some(wanted),
                        forall|j: int|
                            0 <= j < i ==> !overlapping(
                                (#[trigger] paths.map.entries@[j]).0@,
                                wanted@,
                            ),
                        changed_in(self@, key@) == Some(Changed::Paths(paths@)),
                    decreases paths.map.entries@.len() - i,
                {
                    if overlaps(paths.at(i), wanted) {
                        proof {
                            let other = paths.map.entries@[i as int].0@;
                            paths.map.filed_once(i as int, other);
                            assert(paths@.contains(other));
                            assert(overlapping(other, wanted@));
                            assert(meets(paths@, wanted@));
                        }
                        return true;
                    }
                    i += 1;
                }
                proof {
                    assert forall|other: Seq<Step>| paths@.contains(other) implies !(
                    #[trigger] overlapping(other, wanted@)) by {
                        let j = paths.map.index_of(other);
                        assert(paths.map.filed(j, other));
                        assert(paths.map.entries@[j].0@ == other);
                    }
                }
                false
            },
        }
    }

    /// Records a change to `path` in `key`; `None` for the whole namespace,
    /// which absorbs any paths already recorded under it.
    fn touch(&mut self, key: &NamespaceKey, path: Option<&SubkeyPath>)
        requires
            old(self).wf(),
        ensures
            final(self).wf(),
            final(self)@ == touched(
                old(self)@,
                key@,
                match path {
                    Some(path) => Some(path@),
                    None => None,
                },
            ),
    {
        let ghost before = self@;
        match path {
            None => {
                self.put(key, Change::Whole);
            },
            Some(path) => {
                let ghost alone = Set::<Seq<Step>>::empty().insert(path@);
                let change = match self.get(key) {
                    None => {
                        let mut paths: SortedSet<SubkeyPath> = SortedSet::new();
                        paths.insert(path.clone());
                        assert(paths@.contains(path@));
                        Change::Paths(paths)
                    },
                    Some(Change::Whole) => {
                        assert(touched(before, key@, Some(path@)) =~= before);
                        return;
                    },
                    Some(Change::Paths(paths)) => match with_path(paths, path) {
                        None => {
                            assert(touched(before, key@, Some(path@)) =~= before);
                            return;
                        },
                        Some(after) => {
                            proof {
                                shallowest_is_scattered(paths@.union(alone));
                                let found = a_shallower_one(paths@.union(alone), path@);
                                assert(after@.contains(found));
                            }
                            Change::Paths(after)
                        },
                    },
                };
                self.put(key, change);
            },
        }
    }

    /// Puts `change` in place of what `key` has.
    fn put(&mut self, key: &NamespaceKey, change: Change)
        requires
            old(self).wf(),
            change.wf(),
        ensures
            final(self).wf(),
            final(self)@ == old(self)@.insert(key@, change@),
    {
        let ghost before = *self;
        self.entries.insert(key.duplicate(), change);
        proof {
            assert forall|i: int| 0 <= i < self.entries.entries@.len() implies (
            #[trigger] self.entries.entries@[i]).1.wf() by {
                let k = self.entries.entries@[i].0@;
                self.entries.filed_once(i, k);
                if k != key@ {
                    assert(before.entries@.contains_key(k));
                    let j = before.entries.index_of(k);
                    assert(before.entries.filed(j, k));
                    before.entries.filed_once(j, k);
                }
            }
            assert(self@ =~= before@.insert(key@, change@));
        }
    }

    /// Records everything `msg` touches.
    pub fn record(&mut self, msg: &Msg)
        requires
            old(self).wf(),
            msg.wf(),
        ensures
            final(self).wf(),
            final(self)@ == recorded(old(self)@, msg@),
    {
        match msg {
            Msg::Init(init) => {
                let namespaces = &init.state.namespaces;
                let ghost before = self@;
                let ghost version = crate::msg::namespaces_view(*namespaces);
                let mut i: usize = 0;
                while i < namespaces.entries.len()
                    invariant
                        i <= namespaces.entries@.len(),
                        namespaces.wf(),
                        self.wf(),
                        forall|key: Seq<char>| #[trigger]
                            self@.contains_key(key) ==> before.contains_key(key)
                                || namespaces.has(key),
                        forall|key: Seq<char>| #[trigger]
                            before.contains_key(key) ==> self@.contains_key(key),
                        forall|key: Seq<char>| #[trigger]
                            self@.contains_key(key) && !namespaces.has(key) ==> self@[key]
                                == before[key],
                        forall|j: int|
                            0 <= j < i ==> self@.contains_key(
                                (#[trigger] namespaces.entries@[j]).0@,
                            ) && self@[namespaces.entries@[j].0@] == Changed::Whole,
                    decreases namespaces.entries@.len() - i,
                {
                    let ghost last = self@;
                    assert(namespaces.filed(i as int, namespaces.entries@[i as int].0@));
                    self.touch(&namespaces.entries[i].0, None);
                    i += 1;
                }
                proof {
                    assert forall|key: Seq<char>| #[trigger] namespaces.has(key) implies self@.contains_key(
                        key,
                    ) && self@[key] == Changed::Whole by {
                        let j = namespaces.index_of(key);
                        assert(namespaces.filed(j, key));
                        assert(namespaces.entries@[j].0@ == key);
                    }
                    assert forall|key: Seq<char>| #[trigger] version.contains_key(key)
                        == namespaces.has(key) by {}
                    assert(self@ =~= recorded(before, msg@));
                }
            },
            Msg::SetNamespace(set) => {
                self.touch(&set.key, None);
            },
            Msg::DeleteNamespace(del) => {
                self.touch(&del.key, None);
            },
            Msg::SetNamespaceKey(set) => {
                self.touch(&set.key, Some(&set.path));
            },
            // Without a path, what is amended is all the namespace holds.
            Msg::AmendNamespaceKey(amend) => match &amend.path {
                Some(path) => {
                    self.touch(&amend.key, Some(path));
                },
                None => {
                    self.touch(&amend.key, None);
                },
            },
        }
    }

    /// Folds `other` into this set.
    pub fn merge(&mut self, other: &ChangeSet)
        requires
            old(self).wf(),
            other.wf(),
        ensures
            final(self).wf(),
            final(self)@ == merged(old(self)@, other@),
    {
        let ghost before = self@;
        let mut i: usize = 0;
        while i < other.entries.entries.len()
            invariant
                i <= other.entries.entries@.len(),
                self.wf(),
                other.wf(),
                before == old(self)@,
                forall|key: Seq<char>| #[trigger]
                    self@.contains_key(key) <==> before.contains_key(key) || (other.entries.has(key)
                        && other.entries.index_of(key) < i),
                forall|key: Seq<char>| #[trigger]
                    self@.contains_key(key) ==> self@[key] == (if other.entries.has(key)
                        && other.entries.index_of(key) < i {
                        both(changed_in(before, key), changed_in(other@, key))->0
                    } else {
                        before[key]
                    }),
            decreases other.entries.entries@.len() - i,
        {
            let entry = &other.entries.entries[i];
            let ghost start = self@;
            let ghost key = entry.0@;
            proof {
                assert(other.entries.filed(i as int, key));
                other.entries.filed_once(i as int, key);
                other.says(i as int);
                assert(changed_in(start, key) == changed_in(before, key));
            }
            match &entry.1 {
                Change::Whole => {
                    self.touch(&entry.0, None);
                },
                Change::Paths(paths) => {
                    self.touch_all(&entry.0, paths);
                },
            }
            proof {
                assert forall|k: Seq<char>| #[trigger] self@.contains_key(k) <==> before.contains_key(k)
                    || (other.entries.has(k) && other.entries.index_of(k) < i + 1) by {
                    if other.entries.has(k) {
                        let j = other.entries.index_of(k);
                        assert(other.entries.filed(j, k));
                    }
                    assert(start.contains_key(k) <==> before.contains_key(k) || (
                    other.entries.has(k) && other.entries.index_of(k) < i));
                }
                assert forall|k: Seq<char>| #[trigger] self@.contains_key(k) implies self@[k] == (
                if other.entries.has(k) && other.entries.index_of(k) < i + 1 {
                    both(changed_in(before, k), changed_in(other@, k))->0
                } else {
                    before[k]
                }) by {
                    if k != key {
                        assert(start.contains_key(k));
                        if other.entries.has(k) {
                            let j = other.entries.index_of(k);
                            assert(other.entries.filed(j, k));
                        }
                    }
                }
            }
            i += 1;
        }
        proof {
            assert forall|key: Seq<char>| #[trigger] other@.contains_key(key) == (other.entries.has(key)
                && other.entries.index_of(key) < i) by {
                if other.entries.has(key) {
                    assert(other.entries.filed(other.entries.index_of(key), key));
                }
            }
            let want = merged(before, other@);
            assert forall|key: Seq<char>|
                #![trigger self@.dom().contains(key)]
                #![trigger want.dom().contains(key)]
                #![trigger self@[key]]
                #![trigger want[key]]
                self@.dom().contains(key) == want.dom().contains(key) && (self@.dom().contains(key)
                    ==> self@[key] == want[key]) by {
                assert(self@.contains_key(key) <==> before.contains_key(key) || other@.contains_key(
                    key,
                ));
            }
            assert(self@ =~= want);
        }
    }

    /// Records a change to each of `paths` in `key`.
    fn touch_all(&mut self, key: &NamespaceKey, paths: &SortedSet<SubkeyPath>)
        requires
            old(self).wf(),
            paths.wf(),
            Changed::Paths(paths@).sound(),
        ensures
            final(self).wf(),
            final(self)@ == old(self)@.insert(
                key@,
                both(changed_in(old(self)@, key@), Some(Changed::Paths(paths@)))->0,
            ),
    {
        let ghost before = self@;
        let ghost had = changed_in(before, key@);
        let ghost mut done = Set::<Seq<Step>>::empty();
        let mut i: usize = 0;
        while i < paths.len()
            invariant
                i <= paths.map.entries@.len(),
                self.wf(),
                paths.wf(),
                scattered(paths@),
                had == changed_in(before, key@),
                had matches Some(Changed::Paths(x)) ==> scattered(x),
                forall|path: Seq<Step>| #[trigger]
                    done.contains(path) ==> paths@.contains(path),
                forall|j: int| 0 <= j < i ==> done.contains((#[trigger] paths.map.entries@[j]).0@),
                i == 0 ==> self@ == before && done == Set::<Seq<Step>>::empty(),
                i > 0 ==> self@ == before.insert(key@, both(had, Some(Changed::Paths(done)))->0),
            decreases paths.map.entries@.len() - i,
        {
            let path = paths.at(i);
            let ghost last = self@;
            self.touch(key, Some(path));
            proof {
                let alone = Set::<Seq<Step>>::empty().insert(path@);
                let more = done.insert(path@);
                paths.map.filed_once(i as int, path@);
                assert(paths@.contains(path@));
                assert(scattered(done));
                assert(scattered(more));
                scattered_is_shallowest(done);
                scattered_is_shallowest(more);
                assert(done.union(alone) =~= more);
                assert(i == 0 ==> more =~= alone);
                match had {
                    Some(Changed::Paths(x)) => {
                        shallowest_again(x.union(done), alone);
                        assert(x.union(done).union(alone) =~= x.union(more));
                    },
                    _ => {},
                }
                assert(self@ =~= before.insert(key@, both(had, Some(Changed::Paths(more)))->0));
                done = more;
            }
            i += 1;
        }
        proof {
            assert forall|path: Seq<Step>| #[trigger] paths@.contains(path) implies done.contains(
                path,
            ) by {
                let j = paths.map.index_of(path);
                assert(paths.map.filed(j, path));
                assert(paths.map.entries@[j].0@ == path);
            }
            assert(done =~= paths@);
            if i == 0 {
                let path = choose|path: Seq<Step>| paths@.contains(path);
                assert(done.contains(path));
            }
        }
    }
}

/// What one movement of the canonical head did.
#[derive(Debug, PartialEq, Eq)]
pub struct Movement {
    /// The envelopes that were on the canonical path and are not any more,
    /// left there by a reorg. Empty when the head merely moved forward.
    pub orphaned: SortedSet<EnvelopeDigest>,
    /// What the movement changed, counting the branch left behind as much
    /// as the one taken.
    pub changes: ChangeSet,
}

impl Movement {
    pub open spec fn wf(&self) -> bool {
        self.orphaned.wf() && self.changes.wf()
    }

    /// A movement that did nothing.
    pub fn new() -> (movement: Self)
        ensures
            movement.wf(),
            movement.orphaned@ == Set::<EnvelopeDigest>::empty(),
            movement.changes@ == Map::<Seq<char>, Changed>::empty(),
    {
        Movement { orphaned: SortedSet::new(), changes: ChangeSet::new() }
    }

    /// Folds a movement that followed this one into it, describing both as
    /// one. Orphans accumulate.
    pub fn merge(&mut self, next: &Movement)
        requires
            old(self).wf(),
            next.wf(),
        ensures
            final(self).wf(),
            final(self).orphaned@ == old(self).orphaned@.union(next.orphaned@),
            final(self).changes@ == merged(old(self).changes@, next.changes@),
    {
        self.changes.merge(&next.changes);
        let ghost before = self.orphaned@;
        let mut i: usize = 0;
        while i < next.orphaned.len()
            invariant
                i <= next.orphaned.map.entries@.len(),
                self.orphaned.wf(),
                next.orphaned.wf(),
                self.changes.wf(),
                before == old(self).orphaned@,
                self.changes@ == merged(old(self).changes@, next.changes@),
                forall|digest: EnvelopeDigest| #[trigger]
                    before.contains(digest) ==> self.orphaned@.contains(digest),
                forall|digest: EnvelopeDigest| #[trigger]
                    self.orphaned@.contains(digest) ==> before.contains(digest)
                        || next.orphaned@.contains(digest),
                forall|j: int|
                    0 <= j < i ==> self.orphaned@.contains(
                        (#[trigger] next.orphaned.map.entries@[j]).0@,
                    ),
            decreases next.orphaned.map.entries@.len() - i,
        {
            let digest = *next.orphaned.at(i);
            proof {
                next.orphaned.map.filed_once(i as int, digest@);
                assert(next.orphaned@.contains(digest@));
            }
            self.orphaned.insert(digest);
            i += 1;
        }
        proof {
            assert forall|digest: EnvelopeDigest| #[trigger]
                next.orphaned@.contains(digest) implies self.orphaned@.contains(digest) by {
                let j = next.orphaned.map.index_of(digest);
                assert(next.orphaned.map.filed(j, digest));
                assert(next.orphaned.map.entries@[j].0@ == digest);
            }
            assert(self.orphaned@ =~= before.union(next.orphaned@));
        }
    }

    /// Whether the movement neither changed nor orphaned anything.
    pub fn is_empty(&self) -> (empty: bool)
        requires
            self.wf(),
        ensures
            empty == (self.changes@ == Map::<Seq<char>, Changed>::empty() && self.orphaned@
                == Set::<EnvelopeDigest>::empty()),
    {
        self.changes.is_empty() && self.orphaned.is_empty()
    }
}

/// Whether the lines of `from` and `to` share the ancestor that is `i`
/// generations up the one and `j` up the other.
pub open spec fn shared(
    store: Store,
    from: EnvelopeDigest,
    to: EnvelopeDigest,
    i: nat,
    j: nat,
) -> bool {
    ancestor(store, from, i) is Some && ancestor(store, from, i) == ancestor(store, to, j)
}

/// Whether the ancestor there is the nearest the two lines share.
pub open spec fn parted(
    store: Store,
    from: EnvelopeDigest,
    to: EnvelopeDigest,
    i: nat,
    j: nat,
) -> bool {
    shared(store, from, to, i, j) && forall|x: nat, y: nat| #[trigger]
        shared(store, from, to, x, y) ==> i <= x && j <= y
}

/// What the first `n` envelopes of the line of `head` say, head first.
pub open spec fn line(store: Store, head: EnvelopeDigest, n: nat) -> Seq<Deed> {
    Seq::new(n, |x: int| store.log[ancestor(store, head, x as nat)->0].envelope.payload)
}

/// The digests of the first `n` envelopes of the line of `head`.
pub open spec fn line_digests(store: Store, head: EnvelopeDigest, n: nat) -> Set<EnvelopeDigest> {
    Set::new(
        |digest: EnvelopeDigest|
            exists|x: nat| x < n && #[trigger] ancestor(store, head, x) == Some(digest),
    )
}

/// `changes` and everything that `deeds` touch.
pub open spec fn recorded_all(changes: Changes, deeds: Seq<Deed>) -> Changes
    decreases deeds.len(),
{
    if deeds.len() == 0 {
        changes
    } else {
        recorded(recorded_all(changes, deeds.drop_last()), deeds.last())
    }
}

/// What leaving `i` envelopes of the line of `from` for `j` of that of `to`
/// changes.
pub open spec fn crossed(
    store: Store,
    from: EnvelopeDigest,
    to: EnvelopeDigest,
    i: nat,
    j: nat,
) -> Changes {
    recorded_all(
        recorded_all(Map::<Seq<char>, Changed>::empty(), line(store, from, i)),
        line(store, to, j),
    )
}

/// Derives the [`Movement`] between two canonical heads.
///
/// Opened at the head standing before a run of envelopes is ingested, then
/// asked to diff against the head that run left behind. The two heads are
/// walked back through the log in step until they reach the envelope they
/// last agreed on, and everything above it on either side is recorded.
#[derive(Debug, Clone, Copy, PartialEq, Eq)]
pub struct ChangeDiffer {
    pub from: EnvelopeDigest,
}

/// Where a branch's walk down the log has got to.
#[derive(Debug, Clone, Copy)]
enum Cursor {
    /// The digest to read next.
    At(EnvelopeDigest),
    /// The walk can go no further, holding where it stopped: `None` at the
    /// root, or the digest the log turned out not to hold.
    End(Option<EnvelopeDigest>),
}

/// One side of the walk: the envelopes from a head down to wherever the
/// walk has reached, head first.
struct Branch {
    walked: Vec<(EnvelopeDigest, Envelope)>,
    cursor: Cursor,
    reached: SortedSet<EnvelopeDigest>,
}

impl Branch {
    /// Whether the branch is the line of `head`, as far as it has got.
    spec fn follows(&self, store: Store, head: EnvelopeDigest) -> bool {
        let n = self.walked@.len();
        &&& forall|x: int|
            0 <= x < n ==> {
                let (digest, envelope) = #[trigger] self.walked@[x];
                &&& ancestor(store, head, x as nat) == Some(digest)
                &&& store.log.contains_key(digest)
                &&& envelope.wf()
                &&& envelope@ == store.log[digest].envelope
            }
        &&& self.standing() == ancestor(store, head, n)
        &&& self.cursor matches Cursor::End(Some(digest)) ==> !store.log.contains_key(digest)
        &&& self.reached.wf()
        &&& forall|digest: EnvelopeDigest| #[trigger]
            self.reached@.contains(digest) <==> exists|x: nat|
                x <= n && #[trigger] ancestor(store, head, x) == Some(digest)
    }

    /// The digest the walk stands at.
    spec fn standing(&self) -> Option<EnvelopeDigest> {
        match self.cursor {
            Cursor::At(digest) => Some(digest),
            Cursor::End(digest) => digest,
        }
    }

    /// How far the walk has to go at most.
    spec fn ahead(&self, depth: spec_fn(EnvelopeDigest) -> nat) -> nat {
        match self.cursor {
            Cursor::At(digest) => depth(digest) + 1,
            Cursor::End(_) => 0,
        }
    }

    fn opened(head: EnvelopeDigest, Ghost(store): Ghost<Store>) -> (branch: Self)
        ensures
            branch.follows(store, head),
            branch.walked@.len() == 0,
            branch.cursor == Cursor::At(head),
    {
        let mut reached: SortedSet<EnvelopeDigest> = SortedSet::new();
        reached.insert(head);
        let branch = Branch { walked: Vec::new(), cursor: Cursor::At(head), reached };
        proof {
            assert(ancestor(store, head, 0) == Some(head));
            assert forall|digest: EnvelopeDigest| #[trigger]
                branch.reached@.contains(digest) <==> exists|x: nat|
                x <= 0 && #[trigger] ancestor(store, head, x) == Some(digest) by {}
        }
        branch
    }

    /// The nearest digest both branches have reached, once they have met.
    fn meet(
        &self,
        other: &Self,
        Ghost(store): Ghost<Store>,
        Ghost(from): Ghost<EnvelopeDigest>,
        Ghost(to): Ghost<EnvelopeDigest>,
    ) -> (met: Option<EnvelopeDigest>)
        requires
            self.follows(store, from),
            other.follows(store, to),
        ensures
            match met {
                Some(digest) => exists|i: nat|
                    {
                        &&& i <= self.walked@.len()
                        &&& #[trigger] ancestor(store, from, i) == Some(digest)
                        &&& other.reached@.contains(digest)
                        &&& forall|x: nat|
                            x < i ==> !other.reached@.contains(
                                (#[trigger] ancestor(store, from, x))->0,
                            )
                    },
                None => forall|x: nat, y: nat|
                    x <= self.walked@.len() && y <= other.walked@.len() ==> !(#[trigger] shared(
                        store,
                        from,
                        to,
                        x,
                        y,
                    )),
            },
    {
        let mut i: usize = 0;
        while i < self.walked.len()
            invariant
                i <= self.walked@.len(),
                self.follows(store, from),
                other.follows(store, to),
                forall|x: int|
                    0 <= x < i ==> !other.reached@.contains((#[trigger] self.walked@[x]).0),
            decreases self.walked@.len() - i,
        {
            let digest = self.walked[i].0;
            if other.reached.contains(&digest) {
                proof {
                    assert(ancestor(store, from, i as nat) == Some(digest));
                    assert forall|x: nat| x < i implies !other.reached@.contains(
                        (#[trigger] ancestor(store, from, x))->0,
                    ) by {
                        let entry = self.walked@[x as int];
                    }
                }
                return Some(digest);
            }
            i += 1;
        }
        assert forall|x: nat| x < self.walked@.len() implies ancestor(store, from, x) is Some
            && !other.reached@.contains((#[trigger] ancestor(store, from, x))->0) by {
            let entry = self.walked@[x as int];
        }
        let ghost n = self.walked@.len();
        let standing = match self.cursor {
            Cursor::At(digest) => Some(digest),
            Cursor::End(digest) => digest,
        };
        match standing {
            Some(digest) => {
                if other.reached.contains(&digest) {
                    assert(ancestor(store, from, n) == Some(digest));
                    return Some(digest);
                }
            },
            None => {},
        }
        proof {
            assert forall|x: nat, y: nat| x <= n && y <= other.walked@.len() implies !(
            #[trigger] shared(store, from, to, x, y)) by {
                if shared(store, from, to, x, y) {
                    let digest = ancestor(store, from, x)->0;
                    assert(ancestor(store, to, y) == Some(digest));
                    assert(other.reached@.contains(digest));
                }
            }
        }
        None
    }

    /// Reads the envelope at the cursor and moves to its parent. `false`
    /// once the walk can go no further.
    fn step<S: Storage>(
        &mut self,
        storage: &S,
        Ghost(head): Ghost<EnvelopeDigest>,
        Ghost(depth): Ghost<spec_fn(EnvelopeDigest) -> nat>,
        Ghost(height): Ghost<spec_fn(EnvelopeDigest) -> nat>,
    ) -> (moved: Result<bool, Error<S::Error>>)
        requires
            storage.wf(),
            layered_by(storage.store(), depth, height),
            old(self).follows(storage.store(), head),
        ensures
            moved is Err ==> S::fails(),
            match moved {
                Ok(moved) => {
                    &&& final(self).follows(storage.store(), head)
                    &&& moved == (final(self).cursor is At)
                    &&& old(self).cursor is At ==> final(self).ahead(depth) < old(self).ahead(
                        depth,
                    )
                    &&& old(self).cursor is End ==> final(self).cursor is End
                    &&& !moved ==> final(self).reached@ == old(self).reached@
                },
                Err(error) => error is Storage,
            },
    {
        let ghost store = storage.store();
        let ghost n = self.walked@.len();
        let ghost before = *self;
        let digest = match self.cursor {
            Cursor::At(digest) => digest,
            Cursor::End(_) => {
                return Ok(false);
            },
        };
        // A digest the log no longer holds ends the walk where it stands,
        // rather than dropping it: the other branch may yet reach the same
        // envelope and make it the meeting point.
        let envelope = match storage.envelope(digest) {
            Ok(Some(envelope)) => envelope,
            Ok(None) => {
                self.cursor = Cursor::End(Some(digest));
                return Ok(false);
            },
            Err(error) => {
                return Err(Error::Storage(error));
            },
        };
        let prev = envelope.payload.prev_digest();
        self.walked.push((digest, envelope));
        proof {
            assert(ancestor(store, head, n + 1) == store.parent(digest));
            assert(store.parent(digest) == prev);
            if prev is Some {
                assert(store.follows(digest, prev->0));
            }
            assert forall|x: int| 0 <= x < n + 1 implies {
                let (digest, envelope) = #[trigger] self.walked@[x];
                &&& ancestor(store, head, x as nat) == Some(digest)
                &&& store.log.contains_key(digest)
                &&& envelope.wf()
                &&& envelope@ == store.log[digest].envelope
            } by {
                if x < n {
                    assert(self.walked@[x] == before.walked@[x]);
                }
            }
        }
        match prev {
            Some(prev) => {
                self.reached.insert(prev);
                self.cursor = Cursor::At(prev);
                proof {
                    assert forall|d: EnvelopeDigest| #[trigger]
                        self.reached@.contains(d) <==> exists|x: nat|
                        x <= n + 1 && #[trigger] ancestor(store, head, x) == Some(d) by {
                        if before.reached@.contains(d) {
                            let x = choose|x: nat|
                                x <= n && #[trigger] ancestor(store, head, x) == Some(d);
                            assert(x <= n + 1);
                        }
                        if exists|x: nat|
                            x <= n + 1 && #[trigger] ancestor(store, head, x) == Some(d) {
                            let x = choose|x: nat|
                                x <= n + 1 && #[trigger] ancestor(store, head, x) == Some(d);
                            if x <= n {
                                assert(before.reached@.contains(d));
                            }
                        }
                    }
                }
                Ok(true)
            },
            None => {
                self.cursor = Cursor::End(None);
                proof {
                    assert forall|d: EnvelopeDigest| #[trigger]
                        self.reached@.contains(d) <==> exists|x: nat|
                        x <= n + 1 && #[trigger] ancestor(store, head, x) == Some(d) by {
                        if before.reached@.contains(d) {
                            let x = choose|x: nat|
                                x <= n && #[trigger] ancestor(store, head, x) == Some(d);
                            assert(x <= n + 1);
                        }
                        if exists|x: nat|
                            x <= n + 1 && #[trigger] ancestor(store, head, x) == Some(d) {
                            let x = choose|x: nat|
                                x <= n + 1 && #[trigger] ancestor(store, head, x) == Some(d);
                            assert(before.reached@.contains(d));
                        }
                    }
                }
                Ok(false)
            },
        }
    }

    /// How many envelopes the branch walked above `meet`.
    fn above(
        &self,
        meet: EnvelopeDigest,
        Ghost(store): Ghost<Store>,
        Ghost(head): Ghost<EnvelopeDigest>,
        Ghost(i): Ghost<nat>,
    ) -> (n: usize)
        requires
            self.follows(store, head),
            layered(store),
            i <= self.walked@.len(),
            ancestor(store, head, i) == Some(meet),
        ensures
            n == i,
    {
        let mut n: usize = 0;
        while n < self.walked.len() && self.walked[n].0 != meet
            invariant
                n <= i <= self.walked@.len(),
                self.follows(store, head),
                ancestor(store, head, i) == Some(meet),
            decreases self.walked@.len() - n,
        {
            proof {
                let entry = self.walked@[n as int];
                assert(ancestor(store, head, n as nat) == Some(entry.0));
            }
            n += 1;
        }
        proof {
            if n < self.walked@.len() {
                let entry = self.walked@[n as int];
                assert(ancestor(store, head, n as nat) == Some(meet));
                one_generation(store, head, n as nat, i);
            }
        }
        n
    }
}

/// Generations add up.
pub proof fn generations_add(store: Store, digest: EnvelopeDigest, a: nat, b: nat)
    requires
        ancestor(store, digest, a) is Some,
    ensures
        ancestor(store, digest, a + b) == ancestor(store, ancestor(store, digest, a)->0, b),
    decreases b,
{
    if b > 0 {
        generations_add(store, digest, a, (b - 1) as nat);
    }
}

/// An ancestor stands higher than its descendants.
proof fn ancestors_stand_higher(
    store: Store,
    digest: EnvelopeDigest,
    n: nat,
    depth: spec_fn(EnvelopeDigest) -> nat,
    height: spec_fn(EnvelopeDigest) -> nat,
)
    requires
        layered_by(store, depth, height),
        n > 0,
        ancestor(store, digest, n) is Some,
    ensures
        depth(ancestor(store, digest, n)->0) < depth(digest),
    decreases n,
{
    let at = ancestor(store, digest, (n - 1) as nat)->0;
    assert(store.follows(at, ancestor(store, digest, n)->0));
    if n > 1 {
        ancestors_stand_higher(store, digest, (n - 1) as nat, depth, height);
    }
}

/// An ancestor is one generation's only.
pub proof fn one_generation(store: Store, digest: EnvelopeDigest, a: nat, b: nat)
    requires
        layered(store),
        ancestor(store, digest, a) is Some,
        ancestor(store, digest, a) == ancestor(store, digest, b),
    ensures
        a == b,
{
    let (depth, height) = choose|
        depth: spec_fn(EnvelopeDigest) -> nat,
        height: spec_fn(EnvelopeDigest) -> nat,
    | #[trigger]
        layered_by(store, depth, height);
    let at = ancestor(store, digest, a)->0;
    if a < b {
        generations_add(store, digest, a, (b - a) as nat);
        ancestors_stand_higher(store, at, (b - a) as nat, depth, height);
    } else if b < a {
        generations_add(store, digest, b, (a - b) as nat);
        ancestors_stand_higher(store, at, (a - b) as nat, depth, height);
    }
}

/// The first digest of one line that the other reaches is the nearest they
/// share.
proof fn first_is_nearest(
    store: Store,
    from: EnvelopeDigest,
    to: EnvelopeDigest,
    i: nat,
    j: nat,
    reach: nat,
)
    requires
        layered(store),
        shared(store, from, to, i, j),
        j <= reach,
        forall|x: nat, y: nat| x < i && y <= reach ==> !(#[trigger] shared(store, from, to, x, y)),
    ensures
        parted(store, from, to, i, j),
{
    assert forall|x: nat, y: nat| #[trigger] shared(store, from, to, x, y) implies i <= x && j
        <= y by {
        if x < i {
            generations_add(store, from, x, (i - x) as nat);
            generations_add(store, to, y, (i - x) as nat);
            one_generation(store, to, j, (y + (i - x)) as nat);
            assert(shared(store, from, to, x, y));
        } else {
            generations_add(store, from, i, (x - i) as nat);
            generations_add(store, to, j, (x - i) as nat);
            one_generation(store, to, y, (j + (x - i)) as nat);
        }
    }
}

impl ChangeDiffer {
    /// Opens a differ at `from`, the head standing before the ingest.
    pub fn opened_at(from: EnvelopeDigest) -> (differ: Self)
        ensures
            differ.from == from,
    {
        ChangeDiffer { from }
    }

    /// The head this differ opened at.
    pub fn from(&self) -> (from: EnvelopeDigest)
        ensures
            from == self.from,
    {
        self.from
    }

    /// What moving from the head this differ opened at to `to` did.
    ///
    /// Both heads must sit on the same chain: two heads whose branches
    /// share no ancestor the log still holds are [`Error::Diverged`],
    /// since nothing can be said about what lies between them.
    pub fn diff<S: Storage>(&self, storage: &S, to: EnvelopeDigest) -> (movement: Result<
        Movement,
        Error<S::Error>,
    >)
        requires
            storage.wf(),
            layered(storage.store()),
        ensures
            match movement {
                Ok(movement) => {
                    &&& movement.wf()
                    &&& exists|i: nat, j: nat|
                        {
                            &&& #[trigger] parted(storage.store(), self.from, to, i, j)
                            &&& movement.orphaned@ == line_digests(storage.store(), self.from, i)
                            &&& movement.changes@ == crossed(storage.store(), self.from, to, i, j)
                        }
                },
                Err(Error::Diverged { from, to: other }) => {
                    &&& from == self.from
                    &&& other == to
                    &&& forall|i: nat, j: nat|
                        !(#[trigger] shared(storage.store(), self.from, to, i, j))
                },
                Err(Error::Storage(_)) => S::fails(),
                Err(_) => false,
            },
    {
        let ghost store = storage.store();
        let ghost from = self.from;
        let ghost (depth, height) = choose|
            depth: spec_fn(EnvelopeDigest) -> nat,
            height: spec_fn(EnvelopeDigest) -> nat,
        | #[trigger]
            layered_by(store, depth, height);
        let mut undone = Branch::opened(self.from, Ghost(store));
        let mut made = Branch::opened(to, Ghost(store));
        let meet;
        loop
            invariant
                storage.wf(),
                store == storage.store(),
                from == self.from,
                layered(store),
                layered_by(store, depth, height),
                undone.follows(store, from),
                made.follows(store, to),
            ensures
                undone.follows(store, from),
                made.follows(store, to),
                exists|i: nat|
                    {
                        &&& i <= undone.walked@.len()
                        &&& #[trigger] ancestor(store, from, i) == Some(meet)
                        &&& made.reached@.contains(meet)
                        &&& forall|x: nat|
                            x < i ==> !made.reached@.contains(
                                (#[trigger] ancestor(store, from, x))->0,
                            )
                    },
            decreases undone.ahead(depth) + made.ahead(depth),
        {
            match undone.meet(&made, Ghost(store), Ghost(from), Ghost(to)) {
                Some(found) => {
                    meet = found;
                    break;
                },
                None => {},
            }
            // Both sides step every round; neither able to is the end of
            // the log on both branches with nothing in common found.
            let ghost (undone_before, made_before) = (undone, made);
            let undone_moved = match undone.step(storage, Ghost(from), Ghost(depth), Ghost(height)) {
                Ok(moved) => moved,
                Err(error) => {
                    return Err(error);
                },
            };
            let made_moved = match made.step(storage, Ghost(to), Ghost(depth), Ghost(height)) {
                Ok(moved) => moved,
                Err(error) => {
                    return Err(error);
                },
            };
            if !undone_moved && !made_moved {
                proof {
                    nothing_shared(store, from, to, undone_before, made_before, undone, made);
                }
                return Err(Error::Diverged { from: self.from, to });
            }
        }
        let ghost i = choose|i: nat|
            {
                &&& i <= undone.walked@.len()
                &&& #[trigger] ancestor(store, from, i) == Some(meet)
                &&& made.reached@.contains(meet)
                &&& forall|x: nat|
                    x < i ==> !made.reached@.contains((#[trigger] ancestor(store, from, x))->0)
            };
        let ghost j = choose|j: nat|
            j <= made.walked@.len() && #[trigger] ancestor(store, to, j) == Some(meet);
        proof {
            assert(made.reached@.contains(meet));
            assert(shared(store, from, to, i, j));
            let reach = made.walked@.len();
            assert forall|x: nat, y: nat| x < i && y <= reach implies !(#[trigger] shared(
                store,
                from,
                to,
                x,
                y,
            )) by {
                if shared(store, from, to, x, y) {
                    let digest = ancestor(store, from, x)->0;
                    assert(ancestor(store, to, y) == Some(digest));
                    assert(made.reached@.contains(digest));
                }
            }
            first_is_nearest(store, from, to, i, j, reach);
        }
        // The undone walk is the orphan list: those envelopes were on the
        // canonical path and the new one does not pass through them.
        let mut movement = Movement::new();
        let left = undone.above(meet, Ghost(store), Ghost(from), Ghost(i));
        let taken = made.above(meet, Ghost(store), Ghost(to), Ghost(j));
        let ghost nothing = Map::<Seq<char>, Changed>::empty();
        let ghost lost = line(store, from, i);
        let ghost won = line(store, to, j);
        let mut x: usize = 0;
        assert(lost.take(0).len() == 0);
        while x < left
            invariant
                x <= left,
                left == i,
                left <= undone.walked@.len(),
                undone.follows(store, from),
                movement.wf(),
                lost == line(store, from, i),
                forall|digest: EnvelopeDigest| #[trigger]
                    movement.orphaned@.contains(digest) <==> exists|y: nat|
                        y < x && #[trigger] ancestor(store, from, y) == Some(digest),
                movement.changes@ == recorded_all(nothing, lost.take(x as int)),
            decreases left - x,
        {
            let ghost before = movement.orphaned@;
            let entry = &undone.walked[x];
            movement.orphaned.insert(entry.0);
            movement.changes.record(&entry.1.payload);
            proof {
                let now = undone.walked@[x as int];
                assert(lost.take(x + 1).drop_last() =~= lost.take(x as int));
                assert(lost.take(x + 1).last() == lost[x as int]);
                assert forall|digest: EnvelopeDigest| #[trigger]
                    movement.orphaned@.contains(digest) <==> exists|y: nat|
                    y < x + 1 && #[trigger] ancestor(store, from, y) == Some(digest) by {
                    if before.contains(digest) {
                        let y = choose|y: nat|
                            y < x && #[trigger] ancestor(store, from, y) == Some(digest);
                        assert(y < x + 1);
                    }
                    if digest == now.0 {
                        assert(ancestor(store, from, x as nat) == Some(digest));
                    }
                    if exists|y: nat|
                        y < x + 1 && #[trigger] ancestor(store, from, y) == Some(digest) {
                        let y = choose|y: nat|
                            y < x + 1 && #[trigger] ancestor(store, from, y) == Some(digest);
                        if y < x {
                            assert(before.contains(digest));
                        }
                    }
                }
            }
            x += 1;
        }
        assert(lost.take(x as int) =~= lost);
        assert(movement.orphaned@ =~= line_digests(store, from, i));
        let ghost first = movement.changes@;
        let mut y: usize = 0;
        assert(won.take(0).len() == 0);
        while y < taken
            invariant
                y <= taken,
                taken == j,
                taken <= made.walked@.len(),
                made.follows(store, to),
                movement.wf(),
                won == line(store, to, j),
                movement.orphaned@ == line_digests(store, from, i),
                movement.changes@ == recorded_all(first, won.take(y as int)),
            decreases taken - y,
        {
            let entry = &made.walked[y];
            movement.changes.record(&entry.1.payload);
            proof {
                let now = made.walked@[y as int];
                assert(won.take(y + 1).drop_last() =~= won.take(y as int));
                assert(won.take(y + 1).last() == won[y as int]);
            }
            y += 1;
        }
        assert(won.take(y as int) =~= won);
        assert(parted(store, from, to, i, j));
        Ok(movement)
    }
}

/// Two lines walked to their ends without meeting share nothing.
proof fn nothing_shared(
    store: Store,
    from: EnvelopeDigest,
    to: EnvelopeDigest,
    undone_before: Branch,
    made_before: Branch,
    undone: Branch,
    made: Branch,
)
    requires
        undone_before.follows(store, from),
        made_before.follows(store, to),
        undone.follows(store, from),
        made.follows(store, to),
        undone.cursor is End,
        made.cursor is End,
        undone.reached@ == undone_before.reached@,
        made.reached@ == made_before.reached@,
        forall|x: nat, y: nat|
            x <= undone_before.walked@.len() && y <= made_before.walked@.len() ==> !(
            #[trigger] shared(store, from, to, x, y)),
    ensures
        forall|x: nat, y: nat| !(#[trigger] shared(store, from, to, x, y)),
{
    assert forall|x: nat, y: nat| !(#[trigger] shared(store, from, to, x, y)) by {
        if shared(store, from, to, x, y) {
            let digest = ancestor(store, from, x)->0;
            line_is_reached(store, from, undone, x);
            line_is_reached(store, to, made, y);
            assert(undone_before.reached@.contains(digest));
            assert(made_before.reached@.contains(digest));
            let a = choose|a: nat|
                a <= undone_before.walked@.len() && #[trigger] ancestor(store, from, a) == Some(
                    digest,
                );
            let b = choose|b: nat|
                b <= made_before.walked@.len() && #[trigger] ancestor(store, to, b) == Some(
                    digest,
                );
            assert(shared(store, from, to, a, b));
        }
    }
}

/// A line walked to its end is reached all along.
proof fn line_is_reached(store: Store, head: EnvelopeDigest, branch: Branch, x: nat)
    requires
        branch.follows(store, head),
        branch.cursor is End,
        ancestor(store, head, x) is Some,
    ensures
        branch.reached@.contains(ancestor(store, head, x)->0),
{
    let n = branch.walked@.len();
    if x > n {
        if branch.standing() is None {
            ancestors_end(store, head, n, x);
        } else {
            assert(ancestor(store, head, n + 1) is None);
            ancestors_end(store, head, n + 1, x);
        }
    }
}

} // verus!
