//! What a movement between two heads is, whichever way it goes.

use vstd::prelude::*;

use crate::digest::EnvelopeDigest;
use crate::msg::Deed;
use crate::state::chain::{ancestor, descends_from};
use crate::state::change::{
    both, changed_in, crossed, generations_add, line, line_digests, may_differ, merged, parted,
    recorded, recorded_all, shallowest, shallowest_again, shared, Changed, Changes,
};
use crate::state::untouched::{a_run_says_each, deed_touches};
use crate::storage::Store;
use crate::subkey::Step;

verus! {

/// A movement orphans just the envelopes that are the head it leaves, or its
/// ancestors, and are not those of the head it goes to.
pub proof fn orphans_are_of_one_end(
    store: Store,
    from: EnvelopeDigest,
    to: EnvelopeDigest,
    i: nat,
    j: nat,
)
    requires
        parted(store, from, to, i, j),
    ensures
        forall|digest: EnvelopeDigest| #[trigger]
            line_digests(store, from, i).contains(digest) <==> descends_from(store, from, digest)
                && !descends_from(store, to, digest),
{
    assert(shared(store, from, to, i, j));
    assert forall|digest: EnvelopeDigest| #[trigger]
        line_digests(store, from, i).contains(digest) <==> descends_from(store, from, digest)
            && !descends_from(store, to, digest) by {
        if line_digests(store, from, i).contains(digest) {
            let x = choose|x: nat| x < i && #[trigger] ancestor(store, from, x) == Some(digest);
            if descends_from(store, to, digest) {
                let y = choose|y: nat| #[trigger] ancestor(store, to, y) == Some(digest);
                assert(shared(store, from, to, x, y));
            }
        }
        if descends_from(store, from, digest) && !descends_from(store, to, digest) {
            let x = choose|x: nat| #[trigger] ancestor(store, from, x) == Some(digest);
            if x >= i {
                generations_add(store, from, i, (x - i) as nat);
                generations_add(store, to, j, (x - i) as nat);
                assert(ancestor(store, to, j + (x - i) as nat) == Some(digest));
            }
        }
    }
}

/// Two changes as one, either way round.
proof fn both_commute(a: Option<Changed>, b: Option<Changed>)
    ensures
        both(a, b) == both(b, a),
{
    match (a, b) {
        (Some(Changed::Paths(x)), Some(Changed::Paths(y))) => {
            assert(x.union(y) =~= y.union(x));
        },
        _ => {},
    }
}

/// Three changes as one, whichever two come first.
proof fn both_associate(a: Option<Changed>, b: Option<Changed>, c: Option<Changed>)
    ensures
        both(both(a, b), c) == both(a, both(b, c)),
{
    match (a, b, c) {
        (Some(Changed::Paths(x)), Some(Changed::Paths(y)), Some(Changed::Paths(z))) => {
            shallowest_again(x.union(y), z);
            shallowest_again(y.union(z), x);
            assert(shallowest(y.union(z)).union(x) =~= x.union(shallowest(y.union(z))));
            assert(y.union(z).union(x) =~= x.union(y).union(z));
        },
        _ => {},
    }
}

/// What merged changes say of a namespace.
proof fn merged_in(a: Changes, b: Changes, key: Seq<char>)
    ensures
        changed_in(merged(a, b), key) == both(changed_in(a, key), changed_in(b, key)),
{
}

/// Changes that say the same of every namespace are the same.
proof fn same_changes(a: Changes, b: Changes)
    requires
        forall|key: Seq<char>| #[trigger] changed_in(a, key) == changed_in(b, key),
    ensures
        a == b,
{
    assert forall|key: Seq<char>|
        #![trigger a.dom().contains(key)]
        #![trigger b.dom().contains(key)]
        #![trigger a[key]]
        #![trigger b[key]]
        a.dom().contains(key) == b.dom().contains(key) && (a.dom().contains(key) ==> a[key]
            == b[key]) by {
        assert(changed_in(a, key) == changed_in(b, key));
    }
    assert(a =~= b);
}

/// Changes merge the same either way round.
proof fn merging_commutes(a: Changes, b: Changes)
    ensures
        merged(a, b) == merged(b, a),
{
    assert forall|key: Seq<char>| #[trigger] changed_in(merged(a, b), key) == changed_in(
        merged(b, a),
        key,
    ) by {
        both_commute(changed_in(a, key), changed_in(b, key));
    }
    same_changes(merged(a, b), merged(b, a));
}

/// Changes merge the same whichever two come first.
proof fn merging_associates(a: Changes, b: Changes, c: Changes)
    ensures
        merged(merged(a, b), c) == merged(a, merged(b, c)),
{
    let left = merged(merged(a, b), c);
    let right = merged(a, merged(b, c));
    assert forall|key: Seq<char>| #[trigger] changed_in(left, key) == changed_in(right, key) by {
        merged_in(merged(a, b), c, key);
        merged_in(a, b, key);
        merged_in(a, merged(b, c), key);
        merged_in(b, c, key);
        both_associate(changed_in(a, key), changed_in(b, key), changed_in(c, key));
    }
    same_changes(left, right);
}

/// Recording an envelope is merging what it touches.
proof fn recording_merges(changes: Changes, deed: Deed)
    ensures
        recorded(changes, deed) == merged(changes, recorded(Map::empty(), deed)),
{
    let none = Map::<Seq<char>, Changed>::empty();
    let left = recorded(changes, deed);
    let right = merged(changes, recorded(none, deed));
    assert forall|key: Seq<char>| #[trigger] changed_in(left, key) == changed_in(right, key) by {
        merged_in(changes, recorded(none, deed), key);
    }
    same_changes(left, right);
}

/// Recording a run is merging what it touches.
proof fn a_run_merges(changes: Changes, deeds: Seq<Deed>)
    ensures
        recorded_all(changes, deeds) == merged(changes, recorded_all(Map::empty(), deeds)),
    decreases deeds.len(),
{
    let none = Map::<Seq<char>, Changed>::empty();
    if deeds.len() == 0 {
        assert forall|key: Seq<char>| #[trigger] changed_in(changes, key) == changed_in(
            merged(changes, none),
            key,
        ) by {}
        same_changes(changes, merged(changes, none));
    } else {
        let front = deeds.drop_last();
        let last = recorded(none, deeds.last());
        a_run_merges(changes, front);
        recording_merges(recorded_all(changes, front), deeds.last());
        recording_merges(recorded_all(none, front), deeds.last());
        merging_associates(changes, recorded_all(none, front), last);
    }
}

/// A movement reports the same changes the other way round.
pub proof fn a_movement_reads_both_ways(
    store: Store,
    from: EnvelopeDigest,
    to: EnvelopeDigest,
    i: nat,
    j: nat,
)
    requires
        parted(store, from, to, i, j),
    ensures
        parted(store, to, from, j, i),
        crossed(store, from, to, i, j) == crossed(store, to, from, j, i),
{
    assert(shared(store, to, from, j, i));
    assert forall|x: nat, y: nat| #[trigger] shared(store, to, from, x, y) implies j <= x && i
        <= y by {
        assert(shared(store, from, to, y, x));
    }
    let none = Map::<Seq<char>, Changed>::empty();
    let left = recorded_all(none, line(store, from, i));
    let right = recorded_all(none, line(store, to, j));
    a_run_merges(left, line(store, to, j));
    a_run_merges(right, line(store, from, i));
    merging_commutes(left, right);
}

/// Whether an envelope that the lines do not share touches what `path`
/// addresses in `key`: one of the first `n` of the line of `head`.
pub open spec fn touched_on(
    store: Store,
    head: EnvelopeDigest,
    n: nat,
    key: Seq<char>,
    path: Option<Seq<Step>>,
) -> bool {
    exists|x: int| 0 <= x < n && deed_touches(#[trigger] line(store, head, n)[x], key, path)
}

/// A movement reports what the envelopes on just one of the two branches
/// touch, and nothing else.
pub proof fn a_movement_says_each(
    store: Store,
    from: EnvelopeDigest,
    to: EnvelopeDigest,
    i: nat,
    j: nat,
    key: Seq<char>,
    path: Option<Seq<Step>>,
)
    ensures
        may_differ(crossed(store, from, to, i, j), key, path) <==> touched_on(
            store,
            from,
            i,
            key,
            path,
        ) || touched_on(store, to, j, key, path),
{
    let none = Map::<Seq<char>, Changed>::empty();
    let left = recorded_all(none, line(store, from, i));
    a_run_says_each(none, line(store, from, i), key, path);
    a_run_says_each(left, line(store, to, j), key, path);
}

/// Where a head does not move, nothing is reported.
pub proof fn standing_still_is_no_movement(store: Store, head: EnvelopeDigest, i: nat, j: nat)
    requires
        parted(store, head, head, i, j),
    ensures
        line_digests(store, head, i) == Set::<EnvelopeDigest>::empty(),
        crossed(store, head, head, i, j) == Map::<Seq<char>, Changed>::empty(),
{
    assert(shared(store, head, head, 0, 0));
    assert(i == 0 && j == 0);
    assert(line_digests(store, head, 0) =~= Set::<EnvelopeDigest>::empty());
    assert(line(store, head, 0).len() == 0);
}

} // verus!
