//! Fork resolution over the envelopes a node has seen.

use vstd::prelude::*;

use crate::digest::EnvelopeDigest;
use crate::envelope::{Envelope, Letter};
use crate::msg::{namespaces_view, namespaces_wf, Deed, FullCheckpoint, Msg};
use crate::order::Ordered;
use crate::state::error::{ApplyError, Error, Refusal};
use crate::state::judge::{committed, judged, opening_refusal};
use crate::state::ledger::{installed, min_keep_at, opened, Ledger};
use crate::storage::log::{Logged, StoredAt};
use crate::storage::{digests_ascend, Storage, Store, Write};

verus! {

/// The canonical path through the envelopes to the latest state.
///
/// Where a [`Ledger`] follows one sequence of envelopes, a chain handles
/// forks: envelopes that follow the same parent. At each fork the child
/// with the lowest digest wins, of those that apply; one that does not
/// apply is discarded, and what follows it is never reached.
///
/// Everything durable lives in the store; the chain itself is a cursor.
#[derive(Debug, Clone, Copy, PartialEq, Eq)]
pub struct Chain {
    pub root: EnvelopeDigest,
    pub ledger: Ledger,
}

/// What [`Chain::insert`] did to the canonical head.
#[derive(Debug, Clone, Copy, PartialEq, Eq)]
pub enum Insert {
    /// The head moved forward; the old head is an ancestor of the new.
    Extended,
    /// The canonical chain switched branches, abandoning `from`.
    Reorged {
        /// The head that was abandoned.
        from: EnvelopeDigest,
    },
    /// The head did not move: a losing fork.
    Unchanged,
    /// The envelope was already in the store's log and the head did not
    /// move.
    Duplicate,
}

/// Whether every envelope is filed under its own digest.
pub open spec fn filed_soundly(store: Store) -> bool {
    forall|digest: EnvelopeDigest| #[trigger]
        store.log.contains_key(digest) ==> store.log[digest].envelope.digest == Some(digest)
}

/// Whether `depth` grows from parent to child, and `height` shrinks.
pub open spec fn layered_by(
    store: Store,
    depth: spec_fn(EnvelopeDigest) -> nat,
    height: spec_fn(EnvelopeDigest) -> nat,
) -> bool {
    forall|digest: EnvelopeDigest, parent: EnvelopeDigest| #[trigger]
        store.follows(digest, parent) ==> depth(parent) < depth(digest) && height(digest)
            < height(parent)
}

/// Whether no envelope is its own ancestor, however far one looks. A digest
/// covers the parent it names, so no log of real envelopes is otherwise.
pub open spec fn layered(store: Store) -> bool {
    exists|depth: spec_fn(EnvelopeDigest) -> nat, height: spec_fn(EnvelopeDigest) -> nat| #[trigger]
        layered_by(store, depth, height)
}

/// The children of `parent` in ascending order.
pub open spec fn is_children(
    store: Store,
    parent: EnvelopeDigest,
    children: Seq<EnvelopeDigest>,
) -> bool {
    &&& digests_ascend(children)
    &&& forall|digest: EnvelopeDigest| #[trigger]
        children.contains(digest) <==> store.follows(digest, parent)
}

/// The children of `parent` in ascending order.
pub open spec fn children_of(store: Store, parent: EnvelopeDigest) -> Seq<EnvelopeDigest> {
    choose|children: Seq<EnvelopeDigest>| is_children(store, parent, children)
}

/// `store` without the envelope filed under `digest`.
pub open spec fn dropped(store: Store, digest: EnvelopeDigest) -> Store {
    Store { versions: store.versions, log: store.log.remove(digest) }
}

/// The first of `children` that stands on `head`: one whose version the
/// store holds, or that applies. Those that do not are dropped from the
/// log.
pub open spec fn chosen(
    store: Store,
    head: EnvelopeDigest,
    children: Seq<EnvelopeDigest>,
) -> (Store, Option<EnvelopeDigest>)
    decreases children.len(),
{
    if children.len() == 0 {
        (store, None)
    } else if store.versions.contains_key(children[0]) {
        (store, Some(children[0]))
    } else {
        match judged(store.versions[head], head, store.log[children[0]].envelope) {
            Ok((to, write)) => (committed(store, head, to, write), Some(to)),
            Err(_) => chosen(dropped(store, children[0]), head, children.skip(1)),
        }
    }
}

/// One canonical step down from `head`.
pub open spec fn step_from(store: Store, head: EnvelopeDigest) -> (Store, Option<EnvelopeDigest>) {
    chosen(store, head, children_of(store, head))
}

/// `n` canonical steps down from `head`, as far as they lead.
pub open spec fn stepped(store: Store, head: EnvelopeDigest, n: nat) -> (Store, EnvelopeDigest)
    decreases n,
{
    if n == 0 {
        (store, head)
    } else {
        let (before, at) = stepped(store, head, (n - 1) as nat);
        let (after, next) = step_from(before, at);
        match next {
            Some(next) => (after, next),
            None => (after, at),
        }
    }
}

/// Whether canonical steps from `root` lead to `head` and no further,
/// leaving `after`.
pub open spec fn settles(
    store: Store,
    root: EnvelopeDigest,
    after: Store,
    head: EnvelopeDigest,
) -> bool {
    exists|n: nat|
        (#[trigger] stepped(store, root, n)).1 == head && step_from(
            stepped(store, root, n).0,
            head,
        ) == (after, None::<EnvelopeDigest>)
}

/// The ancestor `n` generations up.
pub open spec fn ancestor(store: Store, digest: EnvelopeDigest, n: nat) -> Option<EnvelopeDigest>
    decreases n,
{
    if n == 0 {
        Some(digest)
    } else {
        match ancestor(store, digest, (n - 1) as nat) {
            Some(at) => store.parent(at),
            None => None,
        }
    }
}

/// Whether `elder` lies on the path from `digest` back to the root.
pub open spec fn descends_from(store: Store, digest: EnvelopeDigest, elder: EnvelopeDigest) -> bool {
    exists|n: nat| #[trigger] ancestor(store, digest, n) == Some(elder)
}

/// `store` with `letter` filed under `digest`, first stored at `at`.
pub open spec fn filed(store: Store, digest: EnvelopeDigest, letter: Letter, at: StoredAt) -> Store {
    Store {
        versions: store.versions,
        log: store.log.insert(digest, Logged { envelope: letter, stored_at: at }),
    }
}

/// Whether the arrival of `letter` leaves `after`, and the chain at `head`:
/// filed if it is new and applies to the version of its parent, with the
/// canonical head derived anew either way.
pub open spec fn arrives(
    before: Store,
    root: EnvelopeDigest,
    letter: Letter,
    after: Store,
    head: EnvelopeDigest,
) -> bool {
    match (letter.payload.prev(), letter.digest) {
        (Some(prev), Some(digest)) => if before.log.contains_key(digest) {
            settles(before, root, after, head)
        } else {
            &&& before.versions.contains_key(prev)
            &&& judged(before.versions[prev], prev, letter) matches Ok((to, write))
            &&& exists|at: StoredAt|
                settles(
                    #[trigger] filed(committed(before, prev, to, write), digest, letter, at),
                    root,
                    after,
                    head,
                )
        },
        _ => false,
    }
}

/// Whether no envelope is its own ancestor once `letter` is filed.
pub open spec fn layers_with(store: Store, letter: Letter) -> bool {
    letter.digest matches Some(digest) ==> !store.log.contains_key(digest) ==> forall|at: StoredAt|
        layered(#[trigger] filed(store, digest, letter, at))
}

/// An envelope that nothing filed follows yet, and that does not follow
/// itself, makes no envelope its own ancestor.
pub proof fn a_leaf_layers(store: Store, letter: Letter)
    requires
        layered(store),
        letter.digest matches Some(digest) ==> letter.payload.prev() != Some(digest) && forall|
            other: EnvelopeDigest,
        |
            !(#[trigger] store.follows(other, digest)),
    ensures
        layers_with(store, letter),
{
    if letter.digest is Some {
        let digest = letter.digest->0;
        let (depth, height) = choose|
            depth: spec_fn(EnvelopeDigest) -> nat,
            height: spec_fn(EnvelopeDigest) -> nat,
        | #[trigger]
            layered_by(store, depth, height);
        let below = |d: EnvelopeDigest|
            if d == digest && letter.payload.prev() is Some {
                depth(letter.payload.prev()->0) + 1
            } else {
                depth(d)
            };
        let above = |d: EnvelopeDigest|
            if d == digest {
                0
            } else {
                height(d) + 1
            };
        assert forall|at: StoredAt| layered(#[trigger] filed(store, digest, letter, at)) by {
            let after = filed(store, digest, letter, at);
            assert forall|d: EnvelopeDigest, p: EnvelopeDigest| #[trigger]
                after.follows(d, p) implies below(p) < below(d) && above(d) < above(p) by {
                if d != digest {
                    assert(store.follows(d, p));
                    assert(p != digest);
                }
            }
            assert(layered_by(after, below, above));
        }
    }
}

/// Two ascending lists of the same digests are the same list.
pub proof fn ascending_lists_agree(a: Seq<EnvelopeDigest>, b: Seq<EnvelopeDigest>)
    requires
        digests_ascend(a),
        digests_ascend(b),
        forall|digest: EnvelopeDigest| #[trigger] a.contains(digest) <==> b.contains(digest),
    ensures
        a == b,
    decreases a.len(),
{
    if a.len() == 0 {
        if b.len() > 0 {
            assert(b.contains(b[0]));
            assert(a.contains(b[0]));
        }
        assert(a =~= b);
    } else if b.len() == 0 {
        assert(a.contains(a[0]));
        assert(b.contains(a[0]));
    } else {
        assert(a.contains(a[0]));
        assert(b.contains(a[0]));
        assert(b.contains(b[0]));
        assert(a.contains(b[0]));
        let i = choose|i: int| 0 <= i < b.len() && b[i] == a[0];
        let j = choose|j: int| 0 <= j < a.len() && a[j] == b[0];
        if i > 0 && j > 0 {
            <EnvelopeDigest as Ordered>::lt_transitive(a[0], b[0], a[0]);
            <EnvelopeDigest as Ordered>::lt_irreflexive(a[0]);
        }
        assert(a[0] == b[0]);
        let c = a.skip(1);
        let d = b.skip(1);
        assert forall|x: int, y: int| 0 <= x < y < c.len() implies <EnvelopeDigest as Ordered>::lt(
            #[trigger] c[x],
            #[trigger] c[y],
        ) by {
            assert(c[x] == a[x + 1]);
            assert(c[y] == a[y + 1]);
        }
        assert forall|x: int, y: int| 0 <= x < y < d.len() implies <EnvelopeDigest as Ordered>::lt(
            #[trigger] d[x],
            #[trigger] d[y],
        ) by {
            assert(d[x] == b[x + 1]);
            assert(d[y] == b[y + 1]);
        }
        assert forall|digest: EnvelopeDigest| #[trigger] c.contains(digest) <==> d.contains(
            digest,
        ) by {
            if c.contains(digest) {
                let x = choose|x: int| 0 <= x < c.len() && c[x] == digest;
                assert(a[x + 1] == digest);
                assert(a.contains(digest));
                let y = choose|y: int| 0 <= y < b.len() && b[y] == digest;
                if y == 0 {
                    <EnvelopeDigest as Ordered>::lt_irreflexive(a[0]);
                }
                assert(d[y - 1] == digest);
            }
            if d.contains(digest) {
                let x = choose|x: int| 0 <= x < d.len() && d[x] == digest;
                assert(b[x + 1] == digest);
                assert(b.contains(digest));
                assert(a.contains(digest));
                let y = choose|y: int| 0 <= y < a.len() && a[y] == digest;
                if y == 0 {
                    <EnvelopeDigest as Ordered>::lt_irreflexive(b[0]);
                }
                assert(c[y - 1] == digest);
            }
        }
        ascending_lists_agree(c, d);
        assert(a =~= seq![a[0]] + c);
        assert(b =~= seq![b[0]] + d);
    }
}

/// The list of children there is, is the one.
proof fn children_known(store: Store, parent: EnvelopeDigest, children: Seq<EnvelopeDigest>)
    requires
        is_children(store, parent, children),
    ensures
        children_of(store, parent) == children,
{
    let other = children_of(store, parent);
    assert(is_children(store, parent, other));
    assert forall|digest: EnvelopeDigest| #[trigger] other.contains(digest) <==> children.contains(
        digest,
    ) by {}
    ascending_lists_agree(other, children);
}

/// What is filed soundly and layered stays so with an envelope less.
proof fn dropping_keeps(store: Store, digest: EnvelopeDigest)
    ensures
        filed_soundly(store) ==> filed_soundly(dropped(store, digest)),
        forall|depth: spec_fn(EnvelopeDigest) -> nat, height: spec_fn(EnvelopeDigest) -> nat|
            layered_by(store, depth, height) ==> #[trigger] layered_by(
                dropped(store, digest),
                depth,
                height,
            ),
{
    assert forall|depth: spec_fn(EnvelopeDigest) -> nat, height: spec_fn(EnvelopeDigest) -> nat|
        layered_by(store, depth, height) implies #[trigger] layered_by(
        dropped(store, digest),
        depth,
        height,
    ) by {
        assert forall|d: EnvelopeDigest, p: EnvelopeDigest| #[trigger]
            dropped(store, digest).follows(d, p) implies depth(p) < depth(d) && height(d) < height(
            p,
        ) by {
            assert(store.follows(d, p));
        }
    }
}

/// A commit leaves the log alone, and with it the layers.
proof fn committing_keeps(
    store: Store,
    head: EnvelopeDigest,
    to: EnvelopeDigest,
    write: Write,
    depth: spec_fn(EnvelopeDigest) -> nat,
    height: spec_fn(EnvelopeDigest) -> nat,
)
    requires
        layered_by(store, depth, height),
    ensures
        layered_by(committed(store, head, to, write), depth, height),
{
    let after = committed(store, head, to, write);
    assert forall|d: EnvelopeDigest, p: EnvelopeDigest| #[trigger] after.follows(d, p) implies depth(
        p,
    ) < depth(d) && height(d) < height(p) by {
        assert(store.follows(d, p));
    }
}

/// Canonical steps from a step on are canonical steps.
proof fn stepped_on(store: Store, head: EnvelopeDigest, n: nat)
    ensures
        stepped(store, head, n + 1) == ({
            let (before, at) = stepped(store, head, n);
            let (after, next) = step_from(before, at);
            match next {
                Some(next) => (after, next),
                None => (after, at),
            }
        }),
{
}

/// Whether `store` is fit to be walked: every envelope under its own digest,
/// none its own ancestor.
pub open spec fn walkable(store: Store) -> bool {
    filed_soundly(store) && layered(store)
}

/// Whether `ancestor` lies on the path from `digest` back to the root.
fn descends<S: Storage>(storage: &S, digest: EnvelopeDigest, elder: EnvelopeDigest) -> (descends:
    Result<bool, Error<S::Error>>)
    requires
        storage.wf(),
        layered(storage.store()),
    ensures
        descends is Err ==> S::fails(),
        match descends {
            Ok(descends) => descends == descends_from(storage.store(), digest, elder),
            Err(error) => error is Storage,
        },
{
    let ghost store = storage.store();
    let ghost (depth, height) = choose|
        depth: spec_fn(EnvelopeDigest) -> nat,
        height: spec_fn(EnvelopeDigest) -> nat,
    | #[trigger]
        layered_by(store, depth, height);
    let mut cursor = Some(digest);
    let ghost mut n: nat = 0;
    loop
        invariant
            storage.wf(),
            store == storage.store(),
            layered_by(store, depth, height),
            cursor == ancestor(store, digest, n),
            forall|m: nat| m < n ==> #[trigger] ancestor(store, digest, m) != Some(elder),
        decreases
                (if cursor is Some {
                    depth(cursor->0) + 1
                } else {
                    0
                }),
    {
        let current = match cursor {
            Some(current) => current,
            None => {
                proof {
                    assert forall|m: nat| #[trigger] ancestor(store, digest, m) != Some(elder) by {
                        if m >= n {
                            ancestors_end(store, digest, n, m);
                        }
                    }
                }
                return Ok(false);
            },
        };
        if current == elder {
            assert(ancestor(store, digest, n) == Some(elder));
            return Ok(true);
        }
        cursor = match storage.envelope(current) {
            Ok(Some(envelope)) => envelope.payload.prev_digest(),
            Ok(None) => None,
            Err(error) => {
                return Err(Error::Storage(error));
            },
        };
        proof {
            if cursor is Some {
                assert(store.follows(current, cursor->0));
            }
            n = n + 1;
        }
    }
}

/// Past the root there are no ancestors.
pub proof fn ancestors_end(store: Store, digest: EnvelopeDigest, n: nat, m: nat)
    requires
        n <= m,
        ancestor(store, digest, n) is None,
    ensures
        ancestor(store, digest, m) is None,
    decreases m,
{
    if m > n {
        ancestors_end(store, digest, n, (m - 1) as nat);
    }
}

impl Chain {
    /// Whether `storage` holds the state the chain opens with.
    pub open spec fn rooted<S: Storage>(&self, storage: &S) -> bool {
        storage.wf() && storage.store().versions.contains_key(self.root)
    }

    /// Opens a chain from the `Init` envelope that starts it, filing the
    /// envelope and installing its checkpoint.
    pub fn init<S: Storage>(storage: &mut S, envelope: Envelope) -> (chain: Result<
        Self,
        Error<S::Error>,
    >)
        requires
            old(storage).wf(),
            envelope.wf(),
        ensures
            final(storage).wf(),
            match chain {
                Ok(chain) => {
                    &&& opened(envelope@) matches Some((root, version))
                    &&& chain.root == root
                    &&& chain.ledger.head == root
                    &&& exists|at: StoredAt| #[trigger]
                        filed(
                            installed(old(storage).store(), root, version),
                            root,
                            envelope@,
                            at,
                        ) == final(storage).store()
                },
                Err(Error::NotInit) => !(envelope@.payload is Init) && final(storage).store()
                    == old(storage).store(),
                Err(Error::Apply(error)) => {
                    &&& envelope@.payload matches Deed::Init { namespaces }
                    &&& opening_refusal(namespaces) is Some
                    &&& error.refusal() == opening_refusal(namespaces)
                    &&& final(storage).store() == old(storage).store()
                },
                Err(Error::Wire(_)) => {
                    &&& envelope@.payload matches Deed::Init { namespaces }
                    &&& opening_refusal(namespaces) is None
                    &&& envelope@.digest is None
                    &&& final(storage).store() == old(storage).store()
                },
                Err(Error::Storage(_)) => opened(envelope@) is Some && S::fails(),
                Err(_) => false,
            },
    {
        let ledger = match Ledger::init(storage, &envelope) {
            Ok(ledger) => ledger,
            Err(error) => {
                return Err(error);
            },
        };
        let root = ledger.head();
        let ghost before = storage.store();
        let ghost letter = envelope@;
        match storage.put_envelope(root, envelope) {
            Ok(_) => {
                proof {
                    put_is_filed(before, storage.store(), root, letter);
                }
                Ok(Chain { root, ledger })
            },
            Err(error) => Err(Error::Storage(error)),
        }
    }

    /// Reopens the chain rooted at `root`, re-deriving the canonical head
    /// from the envelopes the store's log already holds.
    pub fn open<S: Storage>(storage: &mut S, root: EnvelopeDigest) -> (chain: Result<
        Self,
        Error<S::Error>,
    >)
        requires
            old(storage).wf(),
            walkable(old(storage).store()),
        ensures
            final(storage).wf(),
            match chain {
                Ok(chain) => {
                    &&& old(storage).store().log.contains_key(root)
                    &&& old(storage).store().log[root].envelope.payload is Init
                    &&& old(storage).store().versions.contains_key(root)
                    &&& chain.root == root
                    &&& settles(
                        old(storage).store(),
                        root,
                        final(storage).store(),
                        chain.ledger.head,
                    )
                    &&& chain.rooted(final(storage))
                    &&& chain.ledger.stands(final(storage))
                    &&& walkable(final(storage).store())
                },
                Err(Error::UnknownHead(head)) => {
                    &&& head == root
                    &&& !old(storage).store().log.contains_key(root) || (old(
                        storage,
                    ).store().log[root].envelope.payload is Init && !old(
                        storage,
                    ).store().versions.contains_key(root))
                    &&& final(storage).store() == old(storage).store()
                },
                Err(Error::NotInit) => {
                    &&& old(storage).store().log.contains_key(root)
                    &&& !(old(storage).store().log[root].envelope.payload is Init)
                    &&& final(storage).store() == old(storage).store()
                },
                Err(Error::Storage(_)) => S::fails(),
                Err(_) => false,
            },
    {
        match storage.envelope(root) {
            Ok(Some(envelope)) => match envelope.payload {
                Msg::Init(_) => {},
                _ => {
                    return Err(Error::NotInit);
                },
            },
            Ok(None) => {
                return Err(Error::UnknownHead(root));
            },
            Err(error) => {
                return Err(Error::Storage(error));
            },
        }
        let ledger = match Ledger::open(storage, root) {
            Ok(ledger) => ledger,
            Err(error) => {
                return Err(error);
            },
        };
        let mut chain = Chain { root, ledger };
        match chain.canonicalize(storage) {
            Ok(ledger) => {
                chain.ledger = ledger;
                Ok(chain)
            },
            Err(error) => Err(error),
        }
    }

    /// Files `envelope` into the store's log and re-derives the canonical
    /// head.
    ///
    /// The parent's version must be in the store. The envelope is applied
    /// on probation against its parent's version, and a failure refuses
    /// it, never filed. Losing a fork is no error. An envelope already
    /// filed still triggers the walk.
    pub fn insert<S: Storage>(&mut self, storage: &mut S, envelope: Envelope) -> (outcome: Result<
        Insert,
        Error<S::Error>,
    >)
        requires
            old(self).rooted(old(storage)),
            walkable(old(storage).store()),
            envelope.wf(),
            layers_with(old(storage).store(), envelope@),
        ensures
            outcome matches Err(Error::Apply(error)) ==> error.refusal() is Some || S::fails(),
            envelope@.payload.prev() is None ==> (outcome matches Err(Error::Apply(error))
                && error.refusal() == Some(Refusal::UnexpectedInit)),
            envelope@.payload.prev() is Some && envelope@.digest is None ==> (
            outcome matches Err(error) && error is Wire),
            final(storage).wf(),
            final(self).root == old(self).root,
            match outcome {
                Ok(outcome) => {
                    &&& arrives(
                        old(storage).store(),
                        old(self).root,
                        envelope@,
                        final(storage).store(),
                        final(self).ledger.head,
                    )
                    &&& outcome == ({
                        let from = old(self).ledger.head;
                        let head = final(self).ledger.head;
                        if head != from {
                            if descends_from(final(storage).store(), head, from) {
                                Insert::Extended
                            } else {
                                Insert::Reorged { from }
                            }
                        } else if old(storage).store().log.contains_key(envelope@.digest->0) {
                            Insert::Duplicate
                        } else {
                            Insert::Unchanged
                        }
                    })
                    &&& final(self).rooted(final(storage))
                    &&& final(self).ledger.stands(final(storage))
                    &&& walkable(final(storage).store())
                },
                Err(Error::Storage(_)) => {
                    &&& S::fails()
                    // The head moved only if the walk went through, and
                    // then it is settled, though what became of the old
                    // head could not be told.
                    &&& final(self).ledger.head != old(self).ledger.head ==> {
                        &&& arrives(
                            old(storage).store(),
                            old(self).root,
                            envelope@,
                            final(storage).store(),
                            final(self).ledger.head,
                        )
                        &&& final(self).rooted(final(storage))
                        &&& final(self).ledger.stands(final(storage))
                        &&& walkable(final(storage).store())
                    }
                },
                Err(error) => {
                    &&& *final(self) == *old(self)
                    &&& final(storage).store() == old(storage).store()
                    &&& match (envelope@.payload.prev(), envelope@.digest) {
                        (None, _) => error matches Error::Apply(error) && error.refusal() == Some(
                            Refusal::UnexpectedInit,
                        ),
                        (Some(_), None) => error is Wire,
                        (Some(prev), Some(digest)) => {
                            &&& !old(storage).store().log.contains_key(digest)
                            &&& if old(storage).store().versions.contains_key(prev) {
                                &&& error matches Error::Apply(error)
                                &&& error.refusal() is Some ==> judged(
                                    old(storage).store().versions[prev],
                                    prev,
                                    envelope@,
                                ) == Err::<(EnvelopeDigest, Write), Refusal>(error.refusal()->0)
                            } else {
                                error == Error::<S::Error>::UnknownParent(prev)
                            }
                        },
                    }
                },
            },
    {
        let prev = match envelope.payload.prev_digest() {
            Some(prev) => prev,
            None => {
                return Err(Error::Apply(ApplyError::UnexpectedInit));
            },
        };
        let digest = match envelope.digest() {
            Ok(digest) => digest,
            Err(error) => {
                return Err(Error::Wire(error));
            },
        };
        let ghost before = storage.store();
        let ghost letter = envelope@;

        // Already in the log, perhaps through another chain sharing the
        // store. Nothing to file, but the walk below still runs.
        let already_stored: bool = match storage.envelope(digest) {
            Ok(found) => found.is_some(),
            Err(error) => {
                return Err(Error::Storage(error));
            },
        };
        if !already_stored {
            match storage.contains_version(prev) {
                Ok(true) => {},
                Ok(false) => {
                    return Err(Error::UnknownParent(prev));
                },
                Err(error) => {
                    return Err(Error::Storage(error));
                },
            }
            let mut prev_state = Ledger { head: prev };
            match prev_state.apply(storage, &envelope) {
                Ok(_) => {},
                Err(error) => {
                    return Err(Error::Apply(error));
                },
            }
            let ghost applied = storage.store();
            match storage.put_envelope(digest, envelope) {
                Ok(_) => {
                    proof {
                        put_is_filed(applied, storage.store(), digest, letter);
                        let at = storage.store().log[digest].stored_at;
                        assert(layered(filed(before, digest, letter, at)));
                        same_log_same_layers(filed(before, digest, letter, at), storage.store());
                        assert(filed_soundly(storage.store()));
                    }
                },
                Err(error) => {
                    return Err(Error::Storage(error));
                },
            }
        }
        let ghost between = storage.store();
        let from = self.ledger.head();
        let ledger = match self.canonicalize(storage) {
            Ok(ledger) => ledger,
            Err(error) => {
                return Err(error);
            },
        };
        self.ledger = ledger;
        let head = self.ledger.head();
        if head != from {
            match descends(storage, head, from) {
                Ok(true) => Ok(Insert::Extended),
                Ok(false) => Ok(Insert::Reorged { from }),
                Err(error) => Err(error),
            }
        } else if already_stored {
            Ok(Insert::Duplicate)
        } else {
            Ok(Insert::Unchanged)
        }
    }

    /// The canonical head: the tip fork resolution currently agrees on.
    pub fn head(&self) -> (head: EnvelopeDigest)
        ensures
            head == self.ledger.head,
    {
        self.ledger.head()
    }

    /// The ledger standing at the canonical head.
    pub fn ledger(&self) -> (ledger: &Ledger)
        ensures
            *ledger == self.ledger,
    {
        &self.ledger
    }

    /// The digest of the `Init` envelope this chain grew from.
    pub fn root(&self) -> (root: EnvelopeDigest)
        ensures
            root == self.root,
    {
        self.root
    }

    /// The compaction floor in force at the canonical head.
    pub fn min_keep_minutes<S: Storage>(&self, storage: &S) -> (minutes: Result<u32, S::Error>)
        requires
            self.ledger.stands(storage),
        ensures
            minutes is Err ==> S::fails(),
            minutes matches Ok(minutes) ==> minutes == min_keep_at(self.ledger.version(storage)),
    {
        self.ledger.min_keep_minutes(storage)
    }

    /// The canonical state as a checkpoint, ready to open a rewritten chain.
    pub fn checkpoint<S: Storage>(&self, storage: &S) -> (checkpoint: Result<
        FullCheckpoint,
        S::Error,
    >)
        requires
            self.ledger.stands(storage),
        ensures
            checkpoint is Err ==> S::fails(),
            checkpoint matches Ok(checkpoint) ==> namespaces_wf(checkpoint.namespaces)
                && namespaces_view(checkpoint.namespaces) == self.ledger.version(storage),
    {
        self.ledger.checkpoint(storage)
    }

    /// Walks the canonical path down from the root, one step at a time.
    fn canonicalize<S: Storage>(&self, storage: &mut S) -> (ledger: Result<Ledger, Error<S::Error>>)
        requires
            self.rooted(old(storage)),
            walkable(old(storage).store()),
        ensures
            ledger is Err ==> S::fails(),
            final(storage).wf(),
            match ledger {
                Ok(ledger) => {
                    &&& settles(
                        old(storage).store(),
                        self.root,
                        final(storage).store(),
                        ledger.head,
                    )
                    &&& ledger.stands(final(storage))
                    &&& self.rooted(final(storage))
                    &&& walkable(final(storage).store())
                },
                Err(error) => error is Storage,
            },
    {
        let ghost first = storage.store();
        let ghost (depth, height) = choose|
            depth: spec_fn(EnvelopeDigest) -> nat,
            height: spec_fn(EnvelopeDigest) -> nat,
        | #[trigger]
            layered_by(first, depth, height);
        let mut ledger = Ledger { head: self.root };
        let ghost mut n: nat = 0;
        loop
            invariant
                self.rooted(storage),
                ledger.stands(storage),
                filed_soundly(storage.store()),
                layered_by(storage.store(), depth, height),
                first == old(storage).store(),
                stepped(first, self.root, n) == (storage.store(), ledger.head),
            decreases height(ledger.head),
        {
            let ghost before = storage.store();
            let ghost at = ledger.head;
            match self.step(storage, &ledger, Ghost(depth), Ghost(height)) {
                Ok(Some(next)) => {
                    ledger = next;
                    proof {
                        stepped_on(first, self.root, n);
                        n = n + 1;
                    }
                },
                Ok(None) => {
                    assert(stepped(first, self.root, n).1 == at);
                    return Ok(ledger);
                },
                Err(error) => {
                    return Err(error);
                },
            }
        }
    }

    /// One canonical step down from `ledger`: the lowest-digest child that
    /// is valid, or `None` at a tip.
    fn step<S: Storage>(
        &self,
        storage: &mut S,
        ledger: &Ledger,
        Ghost(depth): Ghost<spec_fn(EnvelopeDigest) -> nat>,
        Ghost(height): Ghost<spec_fn(EnvelopeDigest) -> nat>,
    ) -> (next: Result<Option<Ledger>, Error<S::Error>>)
        requires
            self.rooted(old(storage)),
            ledger.stands(old(storage)),
            filed_soundly(old(storage).store()),
            layered_by(old(storage).store(), depth, height),
        ensures
            next is Err ==> S::fails(),
            final(storage).wf(),
            match next {
                Ok(next) => {
                    &&& step_from(old(storage).store(), ledger.head).0 == final(storage).store()
                    &&& match next {
                        Some(next) => {
                            &&& step_from(old(storage).store(), ledger.head).1 == Some(next.head)
                            &&& next.stands(final(storage))
                            &&& height(next.head) < height(ledger.head)
                        },
                        None => step_from(old(storage).store(), ledger.head).1 is None,
                    }
                    &&& self.rooted(final(storage))
                    &&& ledger.stands(final(storage))
                    &&& filed_soundly(final(storage).store())
                    &&& layered_by(final(storage).store(), depth, height)
                },
                Err(error) => error is Storage,
            },
    {
        let ghost first = storage.store();
        // Collected because applying below needs the store mutably.
        let children = match storage.children(ledger.head) {
            Ok(children) => children,
            Err(error) => {
                return Err(Error::Storage(error));
            },
        };
        proof {
            children_known(first, ledger.head, children@);
            assert forall|j: int| 0 <= j < children@.len() implies first.follows(
                #[trigger] children@[j],
                ledger.head,
            ) by {
                assert(children@.contains(children@[j]));
            }
        }
        let mut i: usize = 0;
        assert(children@.skip(0) =~= children@);
        while i < children.len()
            invariant
                i <= children@.len(),
                self.rooted(storage),
                ledger.stands(storage),
                filed_soundly(storage.store()),
                layered_by(storage.store(), depth, height),
                layered_by(first, depth, height),
                first == old(storage).store(),
                digests_ascend(children@),
                children_of(first, ledger.head) == children@,
                forall|j: int|
                    0 <= j < children@.len() ==> first.follows(
                        #[trigger] children@[j],
                        ledger.head,
                    ),
                forall|j: int|
                    i <= j < children@.len() ==> storage.store().follows(
                        #[trigger] children@[j],
                        ledger.head,
                    ),
                step_from(first, ledger.head) == chosen(
                    storage.store(),
                    ledger.head,
                    children@.skip(i as int),
                ),
            decreases children@.len() - i,
        {
            let child = children[i];
            let ghost before = storage.store();
            assert(children@.skip(i as int)[0] == child);
            assert(children@.skip(i as int).skip(1) =~= children@.skip(i + 1));
            assert(before.follows(child, ledger.head));
            // A version at the child means it applied before: digests pin
            // content, so it can only be this envelope's result.
            match storage.contains_version(child) {
                Ok(true) => {
                    return Ok(Some(Ledger { head: child }));
                },
                Ok(false) => {},
                Err(error) => {
                    return Err(Error::Storage(error));
                },
            }
            let envelope = match storage.envelope(child) {
                Ok(envelope) => envelope.unwrap(),
                Err(error) => {
                    return Err(Error::Storage(error));
                },
            };
            let mut candidate = *ledger;
            match candidate.apply(storage, &envelope) {
                Ok(_) => {
                    proof {
                        let (to, write) = judged(
                            before.versions[ledger.head],
                            ledger.head,
                            before.log[child].envelope,
                        )->Ok_0;
                        assert(to == child);
                        committing_keeps(before, ledger.head, to, write, depth, height);
                    }
                    return Ok(Some(candidate));
                },
                Err(ApplyError::Storage(error)) => {
                    return Err(Error::Storage(error));
                },
                // This envelope can never be canonical, so drop it rather
                // than refuse it again on every future walk. The fork falls
                // to the next sibling.
                Err(_) => {
                    match storage.remove_envelope(child) {
                        Ok(_) => {},
                        Err(error) => {
                            return Err(Error::Storage(error));
                        },
                    }
                },
            }
            proof {
                dropping_keeps(before, child);
                assert(storage.store() == dropped(before, child));
                assert forall|j: int| i + 1 <= j < children@.len() implies storage.store().follows(
                    #[trigger] children@[j],
                    ledger.head,
                ) by {
                    assert(before.follows(children@[j], ledger.head));
                    if children@[j] == child {
                        <EnvelopeDigest as Ordered>::lt_irreflexive(child);
                    }
                }
            }
            i += 1;
        }
        assert(children@.skip(i as int).len() == 0);
        Ok(None)
    }
}

/// A put files the envelope, at the time the log says.
proof fn put_is_filed(before: Store, after: Store, digest: EnvelopeDigest, letter: Letter)
    requires
        after.versions == before.versions,
        after.log.contains_key(digest),
        after.log[digest].envelope == letter,
        after.log.remove(digest) == before.log.remove(digest),
    ensures
        after == filed(before, digest, letter, after.log[digest].stored_at),
{
    let at = after.log[digest].stored_at;
    let want = filed(before, digest, letter, at);
    assert forall|d: EnvelopeDigest|
        #![trigger after.log.dom().contains(d)]
        #![trigger want.log.dom().contains(d)]
        #![trigger after.log[d]]
        #![trigger want.log[d]]
        after.log.dom().contains(d) == want.log.dom().contains(d) && (after.log.dom().contains(d)
            ==> after.log[d] == want.log[d]) by {
        if d != digest {
            assert(after.log.remove(digest).contains_key(d) == after.log.contains_key(d));
            assert(before.log.remove(digest).contains_key(d) == before.log.contains_key(d));
            assert(want.log.contains_key(d) == before.log.contains_key(d));
            if after.log.dom().contains(d) {
                assert(after.log.remove(digest)[d] == after.log[d]);
                assert(before.log.remove(digest)[d] == before.log[d]);
                assert(want.log[d] == before.log[d]);
            }
        } else {
            assert(after.log[d] == want.log[d]);
        }
    }
    assert(after.log =~= want.log);
}

/// Layers are a matter of the log alone.
proof fn same_log_same_layers(a: Store, b: Store)
    requires
        layered(a),
        a.log == b.log,
    ensures
        layered(b),
{
    let (depth, height) = choose|
        depth: spec_fn(EnvelopeDigest) -> nat,
        height: spec_fn(EnvelopeDigest) -> nat,
    | #[trigger]
        layered_by(a, depth, height);
    assert forall|d: EnvelopeDigest, p: EnvelopeDigest| #[trigger] b.follows(d, p) implies depth(p)
        < depth(d) && height(d) < height(p) by {
        assert(a.follows(d, p));
    }
    assert(layered_by(b, depth, height));
}

} // verus!
