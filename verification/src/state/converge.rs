//! Why nodes that hold the same envelopes agree.

use vstd::prelude::*;

use crate::digest::EnvelopeDigest;
use crate::envelope::Letter;
use crate::msg::Deed;
use crate::order::Ordered;
use crate::state::chain::{
    ancestor, arrives, ascending_lists_agree, children_of, filed, filed_soundly, is_children,
    layered, settles, step_from, stepped,
};
use crate::state::change::one_generation;
use crate::state::judge::{committed, judged, lawful, opening_refusal};
use crate::state::laws::{applying_keeps_lawful, opens_if_lawful};
use crate::state::ledger::{installed, opened};
use crate::storage::log::{Logged, StoredAt};
use crate::storage::{digests_ascend, Store, Version};

verus! {

/// What the log tells of the state at `digest`, looking back at most `n`
/// envelopes: the checkpoint of the `Init` it descends from, with every
/// envelope since applied. Nothing, where one of them does not apply.
pub open spec fn told(log: Map<EnvelopeDigest, Logged>, digest: EnvelopeDigest, n: nat) -> Option<
    Version,
>
    decreases n,
{
    if !log.contains_key(digest) {
        None
    } else {
        let letter = log[digest].envelope;
        match letter.payload {
            Deed::Init { namespaces } => if opening_refusal(namespaces) is None {
                Some(namespaces)
            } else {
                None
            },
            _ => if n == 0 {
                None
            } else {
                let prev = letter.payload.prev()->0;
                match told(log, prev, (n - 1) as nat) {
                    None => None,
                    Some(version) => match judged(version, prev, letter) {
                        Ok((_, write)) => Some(write.applied(version)),
                        Err(_) => None,
                    },
                }
            },
        }
    }
}

/// Whether the log tells the state at `digest`.
pub open spec fn telling(log: Map<EnvelopeDigest, Logged>, digest: EnvelopeDigest) -> bool {
    exists|n: nat| #[trigger] told(log, digest, n) is Some
}

/// Whether `store` is one that opening chains and inserting envelopes leads
/// to: every envelope filed applies, and every version is what the log
/// tells.
pub open spec fn grown(store: Store) -> bool {
    &&& store.log.dom().finite()
    &&& filed_soundly(store)
    &&& forall|digest: EnvelopeDigest| #[trigger]
        store.log.contains_key(digest) ==> telling(store.log, digest)
    &&& forall|digest: EnvelopeDigest| #[trigger]
        store.versions.contains_key(digest) ==> store.log.contains_key(digest)
    &&& forall|digest: EnvelopeDigest, n: nat|
        store.versions.contains_key(digest) && (#[trigger] told(store.log, digest, n)) is Some
            ==> told(store.log, digest, n) == Some(store.versions[digest])
}

/// Whether two stores hold the same envelopes.
pub open spec fn same_letters(a: Store, b: Store) -> bool {
    &&& a.log.dom() == b.log.dom()
    &&& forall|digest: EnvelopeDigest| #[trigger]
        a.log.contains_key(digest) ==> a.log[digest].envelope == b.log[digest].envelope
}

/// What the log tells is lawful.
proof fn told_is_lawful(log: Map<EnvelopeDigest, Logged>, digest: EnvelopeDigest, n: nat)
    requires
        told(log, digest, n) is Some,
    ensures
        lawful(told(log, digest, n)->0),
    decreases n,
{
    let letter = log[digest].envelope;
    match letter.payload {
        Deed::Init { namespaces } => {
            opens_if_lawful(namespaces);
        },
        _ => {
            let prev = letter.payload.prev()->0;
            told_is_lawful(log, prev, (n - 1) as nat);
            applying_keeps_lawful(told(log, prev, (n - 1) as nat)->0, prev, letter);
        },
    }
}

/// Every version of a grown store keeps the rules of the reserved
/// namespaces.
pub proof fn versions_are_lawful(store: Store, head: EnvelopeDigest)
    requires
        grown(store),
        store.versions.contains_key(head),
    ensures
        lawful(store.versions[head]),
{
    assert(store.log.contains_key(head));
    assert(telling(store.log, head));
    let n = choose|n: nat| #[trigger] told(store.log, head, n) is Some;
    told_is_lawful(store.log, head, n);
}

/// Looking back further tells the same.
proof fn told_longer(log: Map<EnvelopeDigest, Logged>, digest: EnvelopeDigest, n: nat, m: nat)
    requires
        n <= m,
        told(log, digest, n) is Some,
    ensures
        told(log, digest, m) == told(log, digest, n),
    decreases n,
{
    let letter = log[digest].envelope;
    if !(letter.payload is Init) {
        told_longer(log, letter.payload.prev()->0, (n - 1) as nat, (m - 1) as nat);
    }
}

/// The log tells one state of a digest.
pub proof fn told_agrees(log: Map<EnvelopeDigest, Logged>, digest: EnvelopeDigest, n: nat, m: nat)
    requires
        told(log, digest, n) is Some,
        told(log, digest, m) is Some,
    ensures
        told(log, digest, n) == told(log, digest, m),
{
    if n <= m {
        told_longer(log, digest, n, m);
    } else {
        told_longer(log, digest, m, n);
    }
}

/// A log that holds more tells what the smaller one does.
proof fn told_wider(
    log: Map<EnvelopeDigest, Logged>,
    more: Map<EnvelopeDigest, Logged>,
    digest: EnvelopeDigest,
    n: nat,
)
    requires
        forall|d: EnvelopeDigest| #[trigger]
            log.contains_key(d) ==> more.contains_key(d) && more[d].envelope == log[d].envelope,
        told(log, digest, n) is Some,
    ensures
        told(more, digest, n) == told(log, digest, n),
    decreases n,
{
    assert(log.contains_key(digest));
    let letter = log[digest].envelope;
    if !(letter.payload is Init) {
        told_wider(log, more, letter.payload.prev()->0, (n - 1) as nat);
    }
}

/// `list` with `digest` put in its place.
spec fn placed(list: Seq<EnvelopeDigest>, digest: EnvelopeDigest) -> Seq<EnvelopeDigest>
    decreases list.len(),
{
    if list.len() == 0 {
        seq![digest]
    } else if <EnvelopeDigest as Ordered>::lt(digest, list[0]) {
        seq![digest] + list
    } else {
        seq![list[0]] + placed(list.skip(1), digest)
    }
}

/// Putting a digest in its place keeps the list ascending.
proof fn placing_ascends(list: Seq<EnvelopeDigest>, digest: EnvelopeDigest)
    requires
        digests_ascend(list),
        !list.contains(digest),
    ensures
        digests_ascend(placed(list, digest)),
        forall|d: EnvelopeDigest| #[trigger]
            placed(list, digest).contains(d) <==> d == digest || list.contains(d),
    decreases list.len(),
{
    let after = placed(list, digest);
    if list.len() == 0 {
        assert(after[0] == digest);
    } else if <EnvelopeDigest as Ordered>::lt(digest, list[0]) {
        assert forall|d: EnvelopeDigest| #[trigger] after.contains(d) <==> d == digest
            || list.contains(d) by {
            if d == digest {
                assert(after[0] == d);
            }
            if list.contains(d) {
                let i = choose|i: int| 0 <= i < list.len() && list[i] == d;
                assert(after[i + 1] == d);
            }
        }
        assert forall|i: int, j: int| 0 <= i < j < after.len() implies <EnvelopeDigest as Ordered>::lt(
            #[trigger] after[i],
            #[trigger] after[j],
        ) by {
            if i == 0 && j > 1 {
                <EnvelopeDigest as Ordered>::lt_transitive(digest, list[0], list[j - 1]);
            }
        }
    } else {
        let rest = list.skip(1);
        assert forall|i: int, j: int| 0 <= i < j < rest.len() implies <EnvelopeDigest as Ordered>::lt(
            #[trigger] rest[i],
            #[trigger] rest[j],
        ) by {
            assert(rest[i] == list[i + 1]);
            assert(rest[j] == list[j + 1]);
        }
        assert(!rest.contains(digest)) by {
            if rest.contains(digest) {
                let i = choose|i: int| 0 <= i < rest.len() && rest[i] == digest;
                assert(list[i + 1] == digest);
            }
        }
        placing_ascends(rest, digest);
        let tail = placed(rest, digest);
        assert(list.contains(list[0]));
        <EnvelopeDigest as Ordered>::lt_total(digest, list[0]);
        assert(<EnvelopeDigest as Ordered>::lt(list[0], digest));
        assert forall|i: int, j: int| 0 <= i < j < after.len() implies <EnvelopeDigest as Ordered>::lt(
            #[trigger] after[i],
            #[trigger] after[j],
        ) by {
            assert(after[j] == tail[j - 1]);
            if i == 0 {
                assert(tail.contains(tail[j - 1]));
                if tail[j - 1] != digest {
                    assert(rest.contains(tail[j - 1]));
                    let k = choose|k: int| 0 <= k < rest.len() && rest[k] == tail[j - 1];
                    assert(list[k + 1] == tail[j - 1]);
                }
            } else {
                assert(after[i] == tail[i - 1]);
            }
        }
        assert forall|d: EnvelopeDigest| #[trigger] after.contains(d) <==> d == digest
            || list.contains(d) by {
            if after.contains(d) {
                let i = choose|i: int| 0 <= i < after.len() && after[i] == d;
                if i > 0 {
                    assert(tail[i - 1] == d);
                    assert(tail.contains(d));
                    if d != digest {
                        let k = choose|k: int| 0 <= k < rest.len() && rest[k] == d;
                        assert(list[k + 1] == d);
                    }
                }
            }
            if d == digest {
                assert(tail.contains(d));
                let i = choose|i: int| 0 <= i < tail.len() && tail[i] == d;
                assert(after[i + 1] == d);
            }
            if list.contains(d) {
                let i = choose|i: int| 0 <= i < list.len() && list[i] == d;
                if i == 0 {
                    assert(after[0] == d);
                } else {
                    assert(rest[i - 1] == d);
                    assert(tail.contains(d));
                    let k = choose|k: int| 0 <= k < tail.len() && tail[k] == d;
                    assert(after[k + 1] == d);
                }
            }
        }
    }
}

/// The digests of `among` that follow `parent` can be listed in order.
proof fn followers_list(
    store: Store,
    parent: EnvelopeDigest,
    among: Set<EnvelopeDigest>,
) -> (list: Seq<EnvelopeDigest>)
    requires
        among.finite(),
    ensures
        digests_ascend(list),
        forall|d: EnvelopeDigest| #[trigger]
            list.contains(d) <==> among.contains(d) && store.follows(d, parent),
    decreases among.len(),
{
    if among.len() == 0 {
        Seq::empty()
    } else {
        let d = among.choose();
        let rest = followers_list(store, parent, among.remove(d));
        if store.follows(d, parent) {
            placing_ascends(rest, d);
            placed(rest, d)
        } else {
            rest
        }
    }
}

/// A parent's children can be listed in order.
pub proof fn children_listed(store: Store, parent: EnvelopeDigest)
    requires
        store.log.dom().finite(),
    ensures
        is_children(store, parent, children_of(store, parent)),
{
    let list = followers_list(store, parent, store.log.dom());
    assert(is_children(store, parent, list));
}

/// The winner among the children of `head`: the one with the lowest digest.
pub open spec fn winner(store: Store, head: EnvelopeDigest) -> Option<EnvelopeDigest> {
    let children = children_of(store, head);
    if children.len() == 0 {
        None
    } else {
        Some(children[0])
    }
}

/// Where `n` forks won by the lowest digest lead from `root`, as far as
/// they lead.
pub open spec fn won(store: Store, root: EnvelopeDigest, n: nat) -> EnvelopeDigest
    decreases n,
{
    if n == 0 {
        root
    } else {
        let at = won(store, root, (n - 1) as nat);
        match winner(store, at) {
            Some(next) => next,
            None => at,
        }
    }
}

/// Stores that hold the same envelopes list the same children.
proof fn winners_agree(a: Store, b: Store, head: EnvelopeDigest)
    requires
        a.log.dom().finite(),
        same_letters(a, b),
    ensures
        children_of(a, head) == children_of(b, head),
        winner(a, head) == winner(b, head),
{
    children_listed(a, head);
    children_listed(b, head);
    let x = children_of(a, head);
    let y = children_of(b, head);
    assert forall|d: EnvelopeDigest| #[trigger] x.contains(d) <==> y.contains(d) by {
        assert(a.log.contains_key(d) == b.log.contains_key(d));
        assert(a.follows(d, head) == b.follows(d, head));
    }
    ascending_lists_agree(x, y);
}

/// Stores that hold the same envelopes resolve forks alike.
proof fn winning_agrees(a: Store, b: Store, root: EnvelopeDigest, n: nat)
    requires
        a.log.dom().finite(),
        same_letters(a, b),
    ensures
        won(a, root, n) == won(b, root, n),
    decreases n,
{
    if n > 0 {
        winning_agrees(a, b, root, (n - 1) as nat);
        winners_agree(a, b, won(a, root, (n - 1) as nat));
    }
}

/// In a grown store a version committed where the log tells it keeps the
/// store grown.
proof fn committing_grows(store: Store, head: EnvelopeDigest, child: EnvelopeDigest)
    requires
        grown(store),
        store.versions.contains_key(head),
        store.follows(child, head),
    ensures
        judged(store.versions[head], head, store.log[child].envelope) is Ok,
        ({
            let (to, write) = judged(
                store.versions[head],
                head,
                store.log[child].envelope,
            )->Ok_0;
            &&& to == child
            &&& grown(committed(store, head, to, write))
            &&& store.versions.contains_key(child) ==> store.versions[child] == write.applied(
                store.versions[head],
            )
        }),
{
    let log = store.log;
    assert(telling(log, child));
    let n = choose|n: nat| #[trigger] told(log, child, n) is Some;
    let letter = log[child].envelope;
    assert(!(letter.payload is Init));
    assert(told(log, head, (n - 1) as nat) is Some);
    assert(told(log, head, (n - 1) as nat) == Some(store.versions[head]));
    let (to, write) = judged(store.versions[head], head, letter)->Ok_0;
    assert(told(log, child, n) == Some(write.applied(store.versions[head])));
    let after = committed(store, head, to, write);
    assert forall|d: EnvelopeDigest, m: nat|
        after.versions.contains_key(d) && (#[trigger] told(after.log, d, m)) is Some implies told(
        after.log,
        d,
        m,
    ) == Some(after.versions[d]) by {
        if d == child {
            told_agrees(log, child, n, m);
        } else {
            assert(store.versions.contains_key(d));
        }
    }
}

/// One canonical step in a grown store goes to the winner, and changes no
/// more than to commit its version.
proof fn steps_win(store: Store, head: EnvelopeDigest)
    requires
        grown(store),
        store.versions.contains_key(head),
    ensures
        ({
            let (after, next) = step_from(store, head);
            &&& grown(after)
            &&& after.log == store.log
            &&& next == winner(store, head)
            &&& next matches Some(next) ==> after.versions.contains_key(next)
            &&& next is None ==> after == store
        }),
{
    children_listed(store, head);
    let children = children_of(store, head);
    if children.len() > 0 {
        assert(children.contains(children[0]));
        committing_grows(store, head, children[0]);
    }
}

/// Canonical steps in a grown store go from winner to winner.
proof fn walks_win(store: Store, root: EnvelopeDigest, n: nat)
    requires
        grown(store),
        store.versions.contains_key(root),
    ensures
        grown(stepped(store, root, n).0),
        stepped(store, root, n).0.log == store.log,
        stepped(store, root, n).0.versions.contains_key(stepped(store, root, n).1),
        stepped(store, root, n).1 == won(store, root, n),
    decreases n,
{
    if n > 0 {
        walks_win(store, root, (n - 1) as nat);
        let (before, at) = stepped(store, root, (n - 1) as nat);
        steps_win(before, at);
        winners_agree(before, store, at);
    }
}

/// Past the tip, winning leads nowhere.
proof fn winning_ends(store: Store, root: EnvelopeDigest, n: nat, m: nat)
    requires
        n <= m,
        winner(store, won(store, root, n)) is None,
    ensures
        won(store, root, m) == won(store, root, n),
    decreases m,
{
    if n < m {
        winning_ends(store, root, n, (m - 1) as nat);
    }
}

/// Settling a grown store only adds versions that the log tells: the store
/// stays grown, and holds the same envelopes and the state at the head.
pub proof fn settling_keeps_grown(
    store: Store,
    root: EnvelopeDigest,
    after: Store,
    head: EnvelopeDigest,
)
    requires
        grown(store),
        store.versions.contains_key(root),
        settles(store, root, after, head),
    ensures
        grown(after),
        after.log == store.log,
        after.versions.contains_key(head),
        after.versions.contains_key(root),
{
    let n = choose|n: nat|
        (#[trigger] stepped(store, root, n)).1 == head && step_from(
            stepped(store, root, n).0,
            head,
        ) == (after, None::<EnvelopeDigest>);
    walks_win(store, root, n);
    steps_win(stepped(store, root, n).0, head);
    stepping_holds(store, root, n);
}

/// Stepping never gives a version up.
proof fn stepping_holds(store: Store, root: EnvelopeDigest, n: nat)
    requires
        grown(store),
        store.versions.contains_key(root),
    ensures
        stepped(store, root, n).0.versions.contains_key(root),
    decreases n,
{
    if n > 0 {
        stepping_holds(store, root, (n - 1) as nat);
        walks_win(store, root, (n - 1) as nat);
        let (before, at) = stepped(store, root, (n - 1) as nat);
        children_listed(before, at);
        let children = children_of(before, at);
        if children.len() > 0 {
            assert(children.contains(children[0]));
            committing_grows(before, at, children[0]);
        }
    }
}

/// Nodes that hold the same envelopes agree: whatever versions each has
/// kept, settling leads both to the same head, and to the same state there.
pub proof fn same_letters_same_head(
    a: Store,
    b: Store,
    root: EnvelopeDigest,
    a_after: Store,
    a_head: EnvelopeDigest,
    b_after: Store,
    b_head: EnvelopeDigest,
)
    requires
        grown(a),
        grown(b),
        same_letters(a, b),
        a.versions.contains_key(root),
        b.versions.contains_key(root),
        settles(a, root, a_after, a_head),
        settles(b, root, b_after, b_head),
    ensures
        a_head == b_head,
        a_after.versions[a_head] == b_after.versions[b_head],
{
    assert(holds_all(b, a));
    assert forall|k: nat| won(a, root, k) == #[trigger] won(b, root, k) by {
        winning_agrees(a, b, root, k);
    }
    same_path_same_head(a, b, root, a_after, a_head, b_after, b_head);
}

/// Where two stores resolve forks alike, and one holds what the other does,
/// settling leads both to the same head and state.
proof fn same_path_same_head(
    a: Store,
    b: Store,
    root: EnvelopeDigest,
    a_after: Store,
    a_head: EnvelopeDigest,
    b_after: Store,
    b_head: EnvelopeDigest,
)
    requires
        grown(a),
        grown(b),
        holds_all(b, a),
        forall|k: nat| won(a, root, k) == #[trigger] won(b, root, k),
        a.versions.contains_key(root),
        b.versions.contains_key(root),
        settles(a, root, a_after, a_head),
        settles(b, root, b_after, b_head),
    ensures
        a_head == b_head,
        a_after.versions[a_head] == b_after.versions[b_head],
{
    let n = choose|n: nat|
        (#[trigger] stepped(a, root, n)).1 == a_head && step_from(stepped(a, root, n).0, a_head)
            == (a_after, None::<EnvelopeDigest>);
    let m = choose|m: nat|
        (#[trigger] stepped(b, root, m)).1 == b_head && step_from(stepped(b, root, m).0, b_head)
            == (b_after, None::<EnvelopeDigest>);
    walks_win(a, root, n);
    walks_win(b, root, m);
    steps_win(stepped(a, root, n).0, a_head);
    steps_win(stepped(b, root, m).0, b_head);
    winners_agree(stepped(a, root, n).0, a, a_head);
    winners_agree(stepped(b, root, m).0, b, b_head);
    let k = if n < m {
        m
    } else {
        n
    };
    winning_ends(a, root, n, k);
    winning_ends(b, root, m, k);
    assert(won(a, root, k) == won(b, root, k));
    settling_keeps_grown(a, root, a_after, a_head);
    settling_keeps_grown(b, root, b_after, b_head);
    assert(telling(a_after.log, a_head)) by {
        assert(a_after.log.contains_key(a_head));
    }
    let i = choose|i: nat| #[trigger] told(a_after.log, a_head, i) is Some;
    assert forall|d: EnvelopeDigest| #[trigger] a_after.log.contains_key(d) implies b_after.log.contains_key(
        d,
    ) && b_after.log[d].envelope == a_after.log[d].envelope by {
        assert(a.log.contains_key(d));
    }
    told_wider(a_after.log, b_after.log, a_head, i);
}

/// Versions may be pruned, all but the root's: what is left is still a
/// grown store holding the same envelopes, so reopening it leads to the
/// same head and the same state.
pub proof fn pruning_keeps_grown(store: Store, keep: Set<EnvelopeDigest>)
    requires
        grown(store),
    ensures
        ({
            let pruned = Store { versions: store.versions.restrict(keep), log: store.log };
            grown(pruned) && same_letters(store, pruned)
        }),
{
    let pruned = Store { versions: store.versions.restrict(keep), log: store.log };
    assert forall|digest: EnvelopeDigest, n: nat|
        pruned.versions.contains_key(digest) && (#[trigger] told(pruned.log, digest, n)) is Some implies told(
        pruned.log,
        digest,
        n,
    ) == Some(pruned.versions[digest]) by {
        assert(store.versions.contains_key(digest));
    }
}

/// An empty store is grown.
pub proof fn nothing_is_grown(store: Store)
    requires
        store.versions == Map::<EnvelopeDigest, Version>::empty(),
        store.log == Map::<EnvelopeDigest, Logged>::empty(),
    ensures
        grown(store),
{
}

/// Filing a letter whose state the wider log tells, and that nothing filed
/// follows, keeps the store grown.
proof fn filing_grows(store: Store, after: Store, digest: EnvelopeDigest, n: nat)
    requires
        grown(store),
        !store.log.contains_key(digest),
        after.log == store.log.insert(digest, after.log[digest]),
        after.log[digest].envelope.digest == Some(digest),
        told(after.log, digest, n) is Some,
        after.versions == store.versions.insert(digest, told(after.log, digest, n)->0),
    ensures
        grown(after),
{
    assert(after.log.dom() =~= store.log.dom().insert(digest));
    assert forall|d: EnvelopeDigest| #[trigger] store.log.contains_key(d) implies after.log.contains_key(
        d,
    ) && after.log[d].envelope == store.log[d].envelope by {
        assert(d != digest);
    }
    assert forall|d: EnvelopeDigest| #[trigger] after.log.contains_key(d) implies telling(
        after.log,
        d,
    ) && after.log[d].envelope.digest == Some(d) by {
        if d != digest {
            assert(store.log.contains_key(d));
            let m = choose|m: nat| #[trigger] told(store.log, d, m) is Some;
            told_wider(store.log, after.log, d, m);
            assert(told(after.log, d, m) is Some);
        }
    }
    assert forall|d: EnvelopeDigest, m: nat|
        after.versions.contains_key(d) && (#[trigger] told(after.log, d, m)) is Some implies told(
        after.log,
        d,
        m,
    ) == Some(after.versions[d]) by {
        if d == digest {
            told_agrees(after.log, d, n, m);
        } else {
            assert(store.versions.contains_key(d));
            assert(store.log.contains_key(d));
            let k = choose|k: nat| #[trigger] told(store.log, d, k) is Some;
            told_wider(store.log, after.log, d, k);
            told_agrees(after.log, d, k, m);
        }
    }
}

/// Opening a chain in a grown store, under a digest it does not hold yet,
/// leaves a grown store.
pub proof fn opening_grows(
    store: Store,
    letter: Letter,
    root: EnvelopeDigest,
    version: Version,
    at: StoredAt,
)
    requires
        grown(store),
        opened(letter) == Some((root, version)),
        !store.log.contains_key(root),
    ensures
        grown(filed(installed(store, root, version), root, letter, at)),
{
    let after = filed(installed(store, root, version), root, letter, at);
    assert(told(after.log, root, 0) == Some(version));
    assert(after.log == store.log.insert(root, after.log[root]));
    filing_grows(store, after, root, 0);
}

/// Chains opened from one `Init` in stores of their own, new ones or ones that
/// hold the same envelopes, hold the same envelopes, whenever each was stored.
pub proof fn opening_is_alike(
    one: Store,
    other: Store,
    letter: Letter,
    root: EnvelopeDigest,
    version: Version,
    one_at: StoredAt,
    other_at: StoredAt,
)
    requires
        same_letters(one, other),
        opened(letter) == Some((root, version)),
    ensures
        ({
            let one_after = filed(installed(one, root, version), root, letter, one_at);
            let other_after = filed(installed(other, root, version), root, letter, other_at);
            &&& same_letters(one_after, other_after)
            &&& one_after.versions.contains_key(root)
            &&& other_after.versions.contains_key(root)
        }),
{
    let one_after = filed(installed(one, root, version), root, letter, one_at);
    let other_after = filed(installed(other, root, version), root, letter, other_at);
    assert(one_after.log.dom() =~= other_after.log.dom());
    assert forall|d: EnvelopeDigest| #[trigger]
        one_after.log.contains_key(d) implies one_after.log[d].envelope
        == other_after.log[d].envelope by {
        if d != root {
            assert(one.log.contains_key(d));
        }
    }
}

/// The arrival of an envelope leaves a grown store, which holds what was
/// held before and the envelope that arrived.
pub proof fn arriving_grows(
    store: Store,
    root: EnvelopeDigest,
    letter: Letter,
    after: Store,
    head: EnvelopeDigest,
)
    requires
        grown(store),
        store.versions.contains_key(root),
        arrives(store, root, letter, after, head),
    ensures
        grown(after),
        after.versions.contains_key(root),
        after.versions.contains_key(head),
        after.log.dom() == store.log.dom().insert(letter.digest->0),
        forall|d: EnvelopeDigest| #[trigger]
            store.log.contains_key(d) ==> after.log[d].envelope == store.log[d].envelope,
        !store.log.contains_key(letter.digest->0) ==> after.log[letter.digest->0].envelope == letter,
{
    let digest = letter.digest->0;
    if store.log.contains_key(digest) {
        settling_keeps_grown(store, root, after, head);
        assert(after.log.dom() =~= store.log.dom().insert(digest));
    } else {
        let (middle, prev, at) = filing(store, root, letter, after, head);
        settling_keeps_grown(middle, root, after, head);
    }
}

/// The store that a new envelope's arrival settles from, which is grown.
proof fn filing(
    store: Store,
    root: EnvelopeDigest,
    letter: Letter,
    after: Store,
    head: EnvelopeDigest,
) -> (found: (Store, EnvelopeDigest, StoredAt))
    requires
        grown(store),
        store.versions.contains_key(root),
        arrives(store, root, letter, after, head),
        !store.log.contains_key(letter.digest->0),
    ensures
        grown(found.0),
        found.0.versions.contains_key(root),
        found.0.log == store.log.insert(
            letter.digest->0,
            Logged { envelope: letter, stored_at: found.2 },
        ),
        settles(found.0, root, after, head),
{
    let digest = letter.digest->0;
    let prev = letter.payload.prev()->0;
    let (to, write) = judged(store.versions[prev], prev, letter)->Ok_0;
    let at = choose|at: StoredAt|
        settles(
            #[trigger] filed(committed(store, prev, to, write), digest, letter, at),
            root,
            after,
            head,
        );
    let middle = filed(committed(store, prev, to, write), digest, letter, at);
    let n = choose|n: nat| #[trigger] told(store.log, prev, n) is Some;
    assert(telling(store.log, prev)) by {
        assert(store.log.contains_key(prev));
    }
    assert(told(store.log, prev, n) == Some(store.versions[prev]));
    assert forall|d: EnvelopeDigest| #[trigger] store.log.contains_key(d) implies middle.log.contains_key(
        d,
    ) && middle.log[d].envelope == store.log[d].envelope by {
        assert(d != digest);
    }
    told_wider(store.log, middle.log, prev, n);
    assert(told(middle.log, digest, n + 1) == Some(write.applied(store.versions[prev])));
    assert(middle.log == store.log.insert(digest, middle.log[digest]));
    filing_grows(store, middle, digest, n + 1);
    (middle, prev, at)
}

/// Whether `letters` arrive one after the other from `first` on, leaving
/// the stores of `trace` and the heads of `heads`.
pub open spec fn arrived(
    first: Store,
    root: EnvelopeDigest,
    letters: Seq<Letter>,
    trace: Seq<Store>,
    heads: Seq<EnvelopeDigest>,
) -> bool {
    &&& trace.len() == letters.len() + 1
    &&& heads.len() == letters.len()
    &&& trace[0] == first
    &&& forall|i: int|
        0 <= i < letters.len() ==> arrives(
            #[trigger] trace[i],
            root,
            letters[i],
            trace[i + 1],
            heads[i],
        )
}

/// What the log holds after the first `n` letters arrived.
proof fn arrivals_file(
    first: Store,
    root: EnvelopeDigest,
    letters: Seq<Letter>,
    trace: Seq<Store>,
    heads: Seq<EnvelopeDigest>,
    n: int,
)
    requires
        grown(first),
        first.versions.contains_key(root),
        arrived(first, root, letters, trace, heads),
        0 <= n <= letters.len(),
    ensures
        grown(trace[n]),
        trace[n].versions.contains_key(root),
        forall|d: EnvelopeDigest| #[trigger]
            first.log.contains_key(d) ==> trace[n].log.contains_key(d)
                && trace[n].log[d].envelope == first.log[d].envelope,
        forall|i: int|
            0 <= i < n ==> trace[n].log.contains_key((#[trigger] letters[i]).digest->0),
        forall|d: EnvelopeDigest| #[trigger]
            trace[n].log.contains_key(d) && !first.log.contains_key(d) ==> exists|i: int|
                0 <= i < n && (#[trigger] letters[i]).digest == Some(d) && trace[n].log[d].envelope
                    == letters[i],
    decreases n,
{
    if n > 0 {
        arrivals_file(first, root, letters, trace, heads, n - 1);
        let before = trace[n - 1];
        let after = trace[n];
        let letter = letters[n - 1];
        assert(arrives(before, root, letter, trace[n - 1 + 1], heads[n - 1]));
        arriving_grows(before, root, letter, after, heads[n - 1]);
        assert forall|d: EnvelopeDigest| #[trigger] first.log.contains_key(d) implies after.log.contains_key(
            d,
        ) && after.log[d].envelope == first.log[d].envelope by {
            assert(before.log.contains_key(d));
            assert(after.log.dom().contains(d));
        }
        assert forall|i: int| 0 <= i < n implies after.log.contains_key(
            (#[trigger] letters[i]).digest->0,
        ) by {
            if i < n - 1 {
                assert(before.log.contains_key(letters[i].digest->0));
            }
            assert(after.log.dom().contains(letters[i].digest->0));
        }
        assert forall|d: EnvelopeDigest| #[trigger]
            after.log.contains_key(d) && !first.log.contains_key(d) implies exists|i: int|
            0 <= i < n && (#[trigger] letters[i]).digest == Some(d) && after.log[d].envelope
                == letters[i] by {
            assert(after.log.dom().contains(d));
            if before.log.contains_key(d) {
                let i = choose|i: int|
                    0 <= i < n - 1 && (#[trigger] letters[i]).digest == Some(d)
                        && before.log[d].envelope == letters[i];
                assert(letters[i].digest == Some(d));
            } else {
                assert(letters[n - 1].digest == Some(d));
            }
        }
    }
}

/// Convergence: however the same envelopes arrive at two nodes that hold the
/// same ones to begin with, as long as each is accepted where it does, both
/// chains end at the same head with the same state. `one` and `other` are the
/// two orders; a digest names one envelope in both.
pub proof fn arrival_order_does_not_matter(
    first: Store,
    second: Store,
    root: EnvelopeDigest,
    one: Seq<Letter>,
    one_trace: Seq<Store>,
    one_heads: Seq<EnvelopeDigest>,
    other: Seq<Letter>,
    other_trace: Seq<Store>,
    other_heads: Seq<EnvelopeDigest>,
)
    requires
        grown(first),
        grown(second),
        same_letters(first, second),
        first.versions.contains_key(root),
        second.versions.contains_key(root),
        one.len() > 0,
        forall|letter: Letter| #[trigger] one.contains(letter) <==> other.contains(letter),
        forall|a: Letter, b: Letter| #[trigger]
            one.contains(a) && #[trigger] one.contains(b) && a.digest == b.digest ==> a == b,
        arrived(first, root, one, one_trace, one_heads),
        arrived(second, root, other, other_trace, other_heads),
    ensures
        other.len() > 0,
        one_heads.last() == other_heads.last(),
        one_trace.last().versions[one_heads.last()] == other_trace.last().versions[other_heads.last()],
{
    assert(one.contains(one[0]));
    assert(other.contains(one[0]));
    let n = one.len() as int;
    let m = other.len() as int;
    arrivals_file(first, root, one, one_trace, one_heads, n);
    arrivals_file(second, root, other, other_trace, other_heads, m);
    let a = one_trace[n];
    let b = other_trace[m];
    assert forall|d: EnvelopeDigest| #[trigger] a.log.contains_key(d) implies b.log.contains_key(d)
        && a.log[d].envelope == b.log[d].envelope by {
        assert(first.log.dom().contains(d) == second.log.dom().contains(d));
        if !first.log.contains_key(d) {
            assert forall|e: EnvelopeDigest| #[trigger]
                b.log.contains_key(e) && !first.log.contains_key(e) implies exists|i: int|
                0 <= i < other.len() && (#[trigger] other[i]).digest == Some(e)
                    && b.log[e].envelope == other[i] by {
                assert(!second.log.dom().contains(e));
            }
            filed_in_both(first, one, other, a, b, d);
        }
    }
    assert forall|d: EnvelopeDigest| #[trigger] b.log.contains_key(d) implies a.log.contains_key(
        d,
    ) by {
        assert(first.log.dom().contains(d) == second.log.dom().contains(d));
        if !first.log.contains_key(d) {
            let i = choose|i: int|
                0 <= i < m && (#[trigger] other[i]).digest == Some(d) && b.log[d].envelope
                    == other[i];
            assert(other.contains(other[i]));
            assert(one.contains(other[i]));
            let j = choose|j: int| 0 <= j < n && one[j] == other[i];
            assert(one[j].digest->0 == d);
        }
    }
    assert(a.log.dom() =~= b.log.dom());
    settled_last(first, root, one, one_trace, one_heads);
    settled_last(second, root, other, other_trace, other_heads);
    same_letters_same_head(a, b, root, a, one_heads[n - 1], b, other_heads[m - 1]);
}

/// An envelope one order files, the other files too.
proof fn filed_in_both(
    first: Store,
    one: Seq<Letter>,
    other: Seq<Letter>,
    a: Store,
    b: Store,
    d: EnvelopeDigest,
)
    requires
        forall|letter: Letter| #[trigger] one.contains(letter) <==> other.contains(letter),
        forall|x: Letter, y: Letter| #[trigger]
            one.contains(x) && #[trigger] one.contains(y) && x.digest == y.digest ==> x == y,
        a.log.contains_key(d),
        !first.log.contains_key(d),
        exists|i: int|
            0 <= i < one.len() && (#[trigger] one[i]).digest == Some(d) && a.log[d].envelope
                == one[i],
        forall|i: int|
            0 <= i < other.len() ==> b.log.contains_key((#[trigger] other[i]).digest->0),
        forall|d: EnvelopeDigest| #[trigger]
            b.log.contains_key(d) && !first.log.contains_key(d) ==> exists|i: int|
                0 <= i < other.len() && (#[trigger] other[i]).digest == Some(d)
                    && b.log[d].envelope == other[i],
    ensures
        b.log.contains_key(d),
        a.log[d].envelope == b.log[d].envelope,
{
    let i = choose|i: int|
        0 <= i < one.len() && (#[trigger] one[i]).digest == Some(d) && a.log[d].envelope == one[i];
    assert(one.contains(one[i]));
    assert(other.contains(one[i]));
    let j = choose|j: int| 0 <= j < other.len() && other[j] == one[i];
    assert(other[j].digest->0 == d);
    assert(b.log.contains_key(d));
    let k = choose|k: int|
        0 <= k < other.len() && (#[trigger] other[k]).digest == Some(d) && b.log[d].envelope
            == other[k];
    assert(other.contains(other[k]));
    assert(one.contains(other[k]));
}

/// After the last arrival the chain is settled: settling again leads to the
/// same head and changes nothing.
proof fn settled_last(
    first: Store,
    root: EnvelopeDigest,
    letters: Seq<Letter>,
    trace: Seq<Store>,
    heads: Seq<EnvelopeDigest>,
)
    requires
        grown(first),
        first.versions.contains_key(root),
        letters.len() > 0,
        arrived(first, root, letters, trace, heads),
    ensures
        settles(trace.last(), root, trace.last(), heads.last()),
{
    let n = letters.len() as int;
    arrivals_file(first, root, letters, trace, heads, n - 1);
    assert(arrives(trace[n - 1], root, letters[n - 1], trace[n - 1 + 1], heads[n - 1]));
    arriving_grows(trace[n - 1], root, letters[n - 1], trace[n], heads[n - 1]);
    if trace[n - 1].log.contains_key(letters[n - 1].digest->0) {
        settling_settles(trace[n - 1], root, trace[n], heads[n - 1]);
    } else {
        let (middle, prev, at) = filing(
            trace[n - 1],
            root,
            letters[n - 1],
            trace[n],
            heads[n - 1],
        );
        settling_settles(middle, root, trace[n], heads[n - 1]);
    }
}

/// Reopening: a settled store settles at the head it is settled at, and
/// stays as it is.
pub proof fn settling_settles(
    store: Store,
    root: EnvelopeDigest,
    after: Store,
    head: EnvelopeDigest,
)
    requires
        grown(store),
        store.versions.contains_key(root),
        settles(store, root, after, head),
    ensures
        settles(after, root, after, head),
{
    let n = choose|n: nat|
        (#[trigger] stepped(store, root, n)).1 == head && step_from(
            stepped(store, root, n).0,
            head,
        ) == (after, None::<EnvelopeDigest>);
    walks_win(store, root, n);
    steps_win(stepped(store, root, n).0, head);
    settling_keeps_grown(store, root, after, head);
    walked_is_held(store, root, n, n);
    retracing(store, after, root, n, n);
    assert(stepped(after, root, n) == (after, head));
}

/// Every version stepped through is held from then on.
proof fn walked_is_held(store: Store, root: EnvelopeDigest, n: nat, i: nat)
    requires
        grown(store),
        store.versions.contains_key(root),
        i <= n,
    ensures
        stepped(store, root, n).0.versions.contains_key(won(store, root, i)),
    decreases n,
{
    walks_win(store, root, n);
    if i < n {
        walked_is_held(store, root, (n - 1) as nat, i);
        walks_win(store, root, (n - 1) as nat);
        let (before, at) = stepped(store, root, (n - 1) as nat);
        children_listed(before, at);
        let children = children_of(before, at);
        if children.len() > 0 {
            assert(children.contains(children[0]));
            committing_grows(before, at, children[0]);
        }
    }
}

/// Walking again where every version is held changes nothing.
proof fn retracing(store: Store, after: Store, root: EnvelopeDigest, n: nat, i: nat)
    requires
        grown(store),
        store.versions.contains_key(root),
        grown(after),
        after == stepped(store, root, n).0,
        i <= n,
    ensures
        stepped(after, root, i) == (after, won(store, root, i)),
    decreases i,
{
    walks_win(store, root, n);
    if i > 0 {
        retracing(store, after, root, n, (i - 1) as nat);
        let at = won(store, root, (i - 1) as nat);
        walked_is_held(store, root, n, i);
        winners_agree(store, after, at);
        children_listed(after, at);
    }
}

/// Whether the canonical path from `root` leads through `digest`.
pub open spec fn canonical(store: Store, root: EnvelopeDigest, digest: EnvelopeDigest) -> bool {
    exists|n: nat| #[trigger] won(store, root, n) == digest
}

/// Whether `more` holds every envelope that `store` holds.
pub open spec fn holds_all(more: Store, store: Store) -> bool {
    forall|d: EnvelopeDigest| #[trigger]
        store.log.contains_key(d) ==> more.log.contains_key(d) && more.log[d].envelope
            == store.log[d].envelope
}

/// The winner comes before every other child.
proof fn winners_come_first(store: Store, head: EnvelopeDigest, child: EnvelopeDigest)
    requires
        store.log.dom().finite(),
        store.follows(child, head),
    ensures
        winner(store, head) is Some,
        store.follows(winner(store, head)->0, head),
        winner(store, head) == Some(child) || <EnvelopeDigest as Ordered>::lt(
            winner(store, head)->0,
            child,
        ),
{
    children_listed(store, head);
    let children = children_of(store, head);
    assert(children.contains(child));
    let i = choose|i: int| 0 <= i < children.len() && children[i] == child;
    assert(children.contains(children[0]));
}

/// Ancestors are the same where more is held.
proof fn same_ancestors(store: Store, more: Store, digest: EnvelopeDigest, n: nat)
    requires
        holds_all(more, store),
        ancestor(store, digest, n) is Some,
    ensures
        ancestor(more, digest, n) == ancestor(store, digest, n),
    decreases n,
{
    if n > 0 {
        same_ancestors(store, more, digest, (n - 1) as nat);
    }
}

/// Where the canonical path stands after `n` forks, `i` of them back is
/// where it stood `i` forks before, unless it had ended.
proof fn winners_descend(store: Store, root: EnvelopeDigest, n: nat, i: nat)
    requires
        store.log.dom().finite(),
        i <= n,
        forall|x: nat| x < n ==> #[trigger] won(store, root, x) != won(store, root, n),
    ensures
        ancestor(store, won(store, root, n), i) == Some(won(store, root, (n - i) as nat)),
    decreases i,
{
    if i > 0 {
        winners_descend(store, root, n, (i - 1) as nat);
        let at = won(store, root, (n - i) as nat);
        let next = won(store, root, (n - i + 1) as nat);
        children_listed(store, at);
        if winner(store, at) is None {
            winning_ends(store, root, (n - i) as nat, n);
            assert(won(store, root, (n - i) as nat) != won(store, root, n));
        } else {
            assert(children_of(store, at).contains(next));
            assert(store.follows(next, at));
        }
    }
}

/// An envelope that is off the canonical path is off it for good: however
/// many envelopes come after, the fork it lost is lost.
pub proof fn orphans_stay_off(
    store: Store,
    more: Store,
    root: EnvelopeDigest,
    digest: EnvelopeDigest,
    k: nat,
)
    requires
        store.log.dom().finite(),
        more.log.dom().finite(),
        layered(more),
        holds_all(more, store),
        ancestor(store, digest, k) == Some(root),
        !canonical(store, root, digest),
    ensures
        !canonical(more, root, digest),
{
    if canonical(more, root, digest) {
        let some = choose|n: nat| #[trigger] won(more, root, n) == digest;
        let n = first_time(more, root, digest, some);
        winners_descend(more, root, n, n);
        same_ancestors(store, more, digest, k);
        one_generation(more, digest, k, n);
        retraced(store, more, root, digest, n, n);
        assert(won(store, root, n) == digest);
    }
}

/// The first time the canonical path comes to `digest`.
proof fn first_time(store: Store, root: EnvelopeDigest, digest: EnvelopeDigest, n: nat) -> (first:
    nat)
    requires
        won(store, root, n) == digest,
    ensures
        won(store, root, first) == digest,
        forall|x: nat| x < first ==> #[trigger] won(store, root, x) != digest,
    decreases n,
{
    if exists|x: nat| x < n && #[trigger] won(store, root, x) == digest {
        let x = choose|x: nat| x < n && #[trigger] won(store, root, x) == digest;
        first_time(store, root, digest, x)
    } else {
        n
    }
}

/// Up to an envelope it holds, a store's canonical path is that of any
/// store that holds more and comes to that envelope.
proof fn retraced(
    store: Store,
    more: Store,
    root: EnvelopeDigest,
    digest: EnvelopeDigest,
    n: nat,
    i: nat,
)
    requires
        store.log.dom().finite(),
        more.log.dom().finite(),
        holds_all(more, store),
        ancestor(store, digest, n) == Some(root),
        won(more, root, n) == digest,
        forall|x: nat| x < n ==> #[trigger] won(more, root, x) != digest,
        i <= n,
    ensures
        won(store, root, i) == won(more, root, i),
    decreases i,
{
    if i > 0 {
        retraced(store, more, root, digest, n, (i - 1) as nat);
        let at = won(more, root, (i - 1) as nat);
        let next = won(more, root, i);
        winners_descend(more, root, n, (n - i) as nat);
        winners_descend(more, root, n, (n - i + 1) as nat);
        held_ancestors(store, digest, n, (n - i) as nat);
        held_ancestors(store, digest, n, (n - i + 1) as nat);
        same_ancestors(store, more, digest, (n - i) as nat);
        same_ancestors(store, more, digest, (n - i + 1) as nat);
        assert(store.follows(next, at));
        assert(more.follows(next, at));
        winners_come_first(store, at, next);
        let here = winner(store, at)->0;
        assert(more.follows(here, at));
        winners_come_first(more, at, here);
        children_listed(more, at);
        if here != next {
            <EnvelopeDigest as Ordered>::lt_transitive(here, next, here);
            <EnvelopeDigest as Ordered>::lt_irreflexive(here);
        }
    }
}

/// On the way to an ancestor there is one at every generation.
proof fn held_ancestors(store: Store, digest: EnvelopeDigest, n: nat, i: nat)
    requires
        ancestor(store, digest, n) is Some,
        i <= n,
    ensures
        ancestor(store, digest, i) is Some,
    decreases n,
{
    if i < n {
        held_ancestors(store, digest, (n - 1) as nat, i);
    }
}

/// Where a store holds the winner of another that holds more, the winner is
/// the same in both.
proof fn a_held_winner_wins(store: Store, more: Store, head: EnvelopeDigest)
    requires
        store.log.dom().finite(),
        more.log.dom().finite(),
        holds_all(more, store),
        winner(more, head) matches Some(next) ==> store.log.contains_key(next),
    ensures
        winner(store, head) == winner(more, head),
        winner(more, head) matches Some(next) ==> store.follows(next, head),
{
    children_listed(store, head);
    children_listed(more, head);
    let here = children_of(store, head);
    let there = children_of(more, head);
    if there.len() == 0 {
        if here.len() > 0 {
            assert(here.contains(here[0]));
            assert(more.follows(here[0], head));
            assert(there.contains(here[0]));
        }
    } else {
        let next = there[0];
        assert(there.contains(next));
        assert(store.follows(next, head));
        winners_come_first(store, head, next);
        let first = winner(store, head)->0;
        assert(more.follows(first, head));
        winners_come_first(more, head, first);
        if first != next {
            <EnvelopeDigest as Ordered>::lt_transitive(first, next, first);
            <EnvelopeDigest as Ordered>::lt_irreflexive(first);
        }
    }
}

/// A grown store holds the parent of every envelope it holds.
proof fn parents_are_held(store: Store, digest: EnvelopeDigest, parent: EnvelopeDigest)
    requires
        grown(store),
        store.follows(digest, parent),
    ensures
        store.log.contains_key(parent),
{
    assert(telling(store.log, digest));
    let n = choose|n: nat| #[trigger] told(store.log, digest, n) is Some;
    assert(told(store.log, parent, (n - 1) as nat) is Some);
}

/// Whether `pulled` holds what `ours` does and the canonical path of
/// `theirs`, and nothing else.
pub open spec fn pulls(
    pulled: Store,
    ours: Store,
    theirs: Store,
    root: EnvelopeDigest,
) -> bool {
    &&& holds_all(pulled, ours)
    &&& forall|n: nat| pulled.log.contains_key(#[trigger] won(theirs, root, n))
    &&& forall|d: EnvelopeDigest| #[trigger]
        pulled.log.contains_key(d) ==> ours.log.contains_key(d) || canonical(theirs, root, d)
}

/// Whether `union` holds what either of two stores does, and nothing else.
pub open spec fn unites(union: Store, ours: Store, theirs: Store) -> bool {
    &&& holds_all(union, ours)
    &&& holds_all(union, theirs)
    &&& forall|d: EnvelopeDigest| #[trigger]
        union.log.contains_key(d) ==> ours.log.contains_key(d) || theirs.log.contains_key(d)
}

/// Along the canonical path of the union, what they hold is on their path,
/// and all of it is pulled.
proof fn the_union_is_pulled(
    ours: Store,
    theirs: Store,
    pulled: Store,
    union: Store,
    root: EnvelopeDigest,
    n: nat,
)
    requires
        grown(theirs),
        pulled.log.dom().finite(),
        union.log.dom().finite(),
        theirs.log.contains_key(root),
        pulls(pulled, ours, theirs, root),
        unites(union, ours, theirs),
        holds_all(union, pulled),
    ensures
        won(pulled, root, n) == won(union, root, n),
        theirs.log.contains_key(won(union, root, n)) ==> won(theirs, root, n) == won(
            union,
            root,
            n,
        ),
    decreases n,
{
    if n > 0 {
        the_union_is_pulled(ours, theirs, pulled, union, root, (n - 1) as nat);
        let at = won(union, root, (n - 1) as nat);
        children_listed(union, at);
        if winner(union, at) is Some {
            let next = winner(union, at)->0;
            assert(children_of(union, at).contains(next));
            assert(union.follows(next, at));
            if theirs.log.contains_key(next) {
                assert(theirs.follows(next, at));
                parents_are_held(theirs, next, at);
                a_held_winner_wins(theirs, union, at);
                assert(won(theirs, root, n) == next);
                assert(pulled.log.contains_key(won(theirs, root, n)));
            }
        } else {
            a_held_winner_wins(theirs, union, at);
        }
        a_held_winner_wins(pulled, union, at);
    }
}

/// Losing branches need not be exchanged: a node that pulls a peer's
/// canonical path alone ends at the head and state it would end at with
/// every envelope the peer holds. A branch that lost against the peer's path
/// has lost against the two nodes' envelopes taken together.
pub proof fn a_path_is_enough(
    ours: Store,
    theirs: Store,
    pulled: Store,
    union: Store,
    root: EnvelopeDigest,
    pulled_after: Store,
    pulled_head: EnvelopeDigest,
    union_after: Store,
    union_head: EnvelopeDigest,
)
    requires
        grown(theirs),
        grown(pulled),
        grown(union),
        theirs.log.contains_key(root),
        pulled.versions.contains_key(root),
        union.versions.contains_key(root),
        pulls(pulled, ours, theirs, root),
        unites(union, ours, theirs),
        holds_all(union, pulled),
        settles(pulled, root, pulled_after, pulled_head),
        settles(union, root, union_after, union_head),
    ensures
        pulled_head == union_head,
        pulled_after.versions[pulled_head] == union_after.versions[union_head],
{
    assert forall|k: nat| won(pulled, root, k) == #[trigger] won(union, root, k) by {
        the_union_is_pulled(ours, theirs, pulled, union, root, k);
    }
    same_path_same_head(
        pulled,
        union,
        root,
        pulled_after,
        pulled_head,
        union_after,
        union_head,
    );
}

} // verus!
