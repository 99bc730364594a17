//! Which branch of a fork is followed, and what becomes of the others.

use vstd::prelude::*;

use crate::digest::{bytes_lt, EnvelopeDigest};
use crate::envelope::Letter;
use crate::order::Ordered;
use crate::state::chain::{
    arrives, children_of, chosen, dropped, filed_soundly, settles, step_from, stepped,
};
use crate::state::converge::children_listed;
use crate::state::judge::judged;
use crate::storage::{digests_ascend, Store};

verus! {

/// Whether a digest is lower than another: its bytes come first, compared one
/// by one.
pub open spec fn lower(a: EnvelopeDigest, b: EnvelopeDigest) -> bool {
    bytes_lt(a.bytes@, b.bytes@)
}

/// Whether an envelope that follows `head` stands: its version is there, or
/// it applies to the one at `head`.
pub open spec fn stands(store: Store, head: EnvelopeDigest, child: EnvelopeDigest) -> bool {
    store.versions.contains_key(child) || judged(
        store.versions[head],
        head,
        store.log[child].envelope,
    ) is Ok
}

/// The choice among some of the children, in order.
proof fn the_first_that_stands(store: Store, head: EnvelopeDigest, children: Seq<EnvelopeDigest>)
    requires
        filed_soundly(store),
        digests_ascend(children),
        forall|i: int| 0 <= i < children.len() ==> store.follows(#[trigger] children[i], head),
    ensures
        ({
            let (after, next) = chosen(store, head, children);
            &&& next is Some ==> children.contains(next->0) && stands(store, head, next->0)
            &&& forall|child: EnvelopeDigest| #[trigger]
                children.contains(child) && (next is None || lower(child, next->0))
                    ==> !stands(store, head, child)
            &&& forall|digest: EnvelopeDigest| #[trigger]
                after.log.contains_key(digest) <==> store.log.contains_key(digest) && !(
                children.contains(digest) && (next is None || lower(
                    digest,
                    next->0,
                )))
            &&& forall|digest: EnvelopeDigest| #[trigger]
                after.log.contains_key(digest) ==> after.log[digest] == store.log[digest]
            &&& after.versions == if next is Some && !store.versions.contains_key(next->0) {
                let write = judged(
                    store.versions[head],
                    head,
                    store.log[next->0].envelope,
                )->Ok_0.1;
                store.versions.insert(next->0, write.applied(store.versions[head]))
            } else {
                store.versions
            }
        }),
    decreases children.len(),
{
    let (after, next) = chosen(store, head, children);
    if children.len() > 0 {
        let lowest = children[0];
        assert(children.contains(lowest));
        assert(store.follows(lowest, head));
        if stands(store, head, lowest) {
            assert(next == Some(lowest));
            assert forall|child: EnvelopeDigest| #[trigger] children.contains(
                child,
            ) implies !lower(child, lowest) by {
                let i = choose|i: int| 0 <= i < children.len() && children[i] == child;
                EnvelopeDigest::lt_irreflexive(lowest);
                if i > 0 && lower(child, lowest) {
                    EnvelopeDigest::lt_transitive(lowest, child, lowest);
                }
            }
        } else {
            let less = dropped(store, lowest);
            let rest = children.skip(1);
            assert forall|i: int| 0 <= i < rest.len() implies less.follows(
                #[trigger] rest[i],
                head,
            ) by {
                assert(rest[i] == children[i + 1]);
                assert(lower(children[0], children[i + 1]));
                EnvelopeDigest::lt_irreflexive(lowest);
                assert(store.follows(children[i + 1], head));
            }
            assert(digests_ascend(rest)) by {
                assert forall|i: int, j: int| 0 <= i < j < rest.len() implies lower(
                    #[trigger] rest[i],
                    #[trigger] rest[j],
                ) by {
                    assert(rest[i] == children[i + 1] && rest[j] == children[j + 1]);
                }
            }
            the_first_that_stands(less, head, rest);
            assert forall|child: EnvelopeDigest| #[trigger] children.contains(child) <==> child
                == lowest || rest.contains(child) by {
                if children.contains(child) {
                    let i = choose|i: int| 0 <= i < children.len() && children[i] == child;
                    if i > 0 {
                        assert(rest[i - 1] == child);
                    }
                }
                if rest.contains(child) {
                    let i = choose|i: int| 0 <= i < rest.len() && rest[i] == child;
                    assert(children[i + 1] == child);
                }
            }
            assert forall|child: EnvelopeDigest| #[trigger] rest.contains(child) implies child
                != lowest && stands(less, head, child) == stands(store, head, child) by {
                let i = choose|i: int| 0 <= i < rest.len() && rest[i] == child;
                assert(lower(children[0], children[i + 1]));
                EnvelopeDigest::lt_irreflexive(lowest);
            }
            if next is Some {
                let i = choose|i: int| 0 <= i < rest.len() && rest[i] == next->0;
                assert(lower(children[0], children[i + 1]));
            }
        }
    }
}

/// Of the envelopes that follow `head`, the one with the lowest digest among
/// those that stand is followed; where none stands, the chain ends there. Those
/// below it, which do not stand, are dropped from the log, and nothing else
/// is. Its version is what applying it leaves, and no other version changes.
pub proof fn the_lowest_that_stands_is_followed(
    store: Store,
    head: EnvelopeDigest,
    child: EnvelopeDigest,
)
    requires
        store.log.dom().finite(),
        filed_soundly(store),
    ensures
        ({
            let (after, next) = step_from(store, head);
            &&& next is Some ==> store.follows(next->0, head) && stands(store, head, next->0)
            &&& store.follows(child, head) && stands(store, head, child) ==> next is Some && (child
                == next->0 || lower(next->0, child))
            &&& after.log.contains_key(child) <==> store.log.contains_key(child) && !(store.follows(
                child,
                head,
            ) && !stands(store, head, child) && (next is None || lower(
                child,
                next->0,
            )))
            &&& after.log.contains_key(child) ==> after.log[child] == store.log[child]
            &&& next is None || store.versions.contains_key(next->0) ==> after.versions
                == store.versions
            &&& next is Some && !store.versions.contains_key(next->0) ==> after.versions
                == store.versions.insert(
                next->0,
                judged(
                    store.versions[head],
                    head,
                    store.log[next->0].envelope,
                )->Ok_0.1.applied(store.versions[head]),
            )
        }),
{
    children_listed(store, head);
    let children = children_of(store, head);
    assert forall|i: int| 0 <= i < children.len() implies store.follows(
        #[trigger] children[i],
        head,
    ) by {
        assert(children.contains(children[i]));
    }
    the_first_that_stands(store, head, children);
    let (after, next) = step_from(store, head);
    assert(children.contains(child) <==> store.follows(child, head));
    if next is Some {
        assert(children.contains(next->0) <==> store.follows(next->0, head));
        EnvelopeDigest::lt_total(child, next->0);
    }
}

/// A walk that settles ends where no envelope is left that stands.
pub proof fn a_settled_head_is_a_tip(
    store: Store,
    root: EnvelopeDigest,
    after: Store,
    head: EnvelopeDigest,
    child: EnvelopeDigest,
)
    requires
        settles(store, root, after, head),
        forall|n: nat| #![trigger stepped(store, root, n)]
            stepped(store, root, n).0.log.dom().finite() && filed_soundly(
                stepped(store, root, n).0,
            ),
    ensures
        !after.follows(child, head),
{
    let n = choose|n: nat|
        (#[trigger] stepped(store, root, n)).1 == head && step_from(
            stepped(store, root, n).0,
            head,
        ) == (after, None::<EnvelopeDigest>);
    let before = stepped(store, root, n).0;
    the_lowest_that_stands_is_followed(before, head, child);
}

/// What arrives follows an envelope and has a digest; and it is one that is
/// filed already, or one that applies to the version of the envelope it
/// follows.
pub proof fn what_arrives_has_a_place(
    before: Store,
    root: EnvelopeDigest,
    letter: Letter,
    after: Store,
    head: EnvelopeDigest,
)
    requires
        arrives(before, root, letter, after, head),
    ensures
        letter.payload.prev() is Some,
        letter.digest is Some,
        before.log.contains_key(letter.digest->0) || (before.versions.contains_key(
            letter.payload.prev()->0,
        ) && judged(
            before.versions[letter.payload.prev()->0],
            letter.payload.prev()->0,
            letter,
        ) is Ok),
        before.log.contains_key(letter.digest->0) ==> settles(before, root, after, head),
{
}

} // verus!
