//! What a change set says, and what it leaves out.

use vstd::prelude::*;

use crate::digest::EnvelopeDigest;
use crate::envelope::Letter;
use crate::msg::{steps_of, Deed};
use crate::state::chain::{ancestor, ancestors_end};
use crate::state::change::{
    a_shallower_one, both, changed_in, covered, covering_is_transitive, crossed, generations_add,
    line, may_differ, meets, merged, overlapping, recorded, recorded_all, shallowest, shared, touched, Changed,
    Changes,
};
use crate::state::converge::{grown, telling, told, told_agrees};
use crate::state::judge::{amend_judged_fits, judged, set_judged_fits};
use crate::storage::laws::{
    amending_spares_others, apart, removal_spares_others, set_spares_others,
};
use crate::storage::value::{set_fits, set_fits_below, written};
use crate::storage::{Store, Version};
use crate::subkey::Step;
use crate::tree::{child, walked};
use crate::value::Tree;

verus! {

/// What covers a path overlaps whatever the path overlaps.
proof fn covering_overlaps(a: Seq<Step>, b: Seq<Step>, path: Seq<Step>)
    requires
        covered(a, b),
        overlapping(b, path),
    ensures
        overlapping(a, path),
{
    if covered(b, path) {
        covering_is_transitive(a, b, path);
    } else if a.len() <= path.len() {
        assert(path.take(a.len() as int) =~= b.take(path.len() as int).take(a.len() as int));
        assert(b.take(path.len() as int).take(a.len() as int) =~= b.take(a.len() as int));
    } else {
        assert(a.take(path.len() as int) =~= b.take(a.len() as int).take(path.len() as int));
        assert(b.take(a.len() as int).take(path.len() as int) =~= b.take(path.len() as int));
    }
}

/// Dropping the paths that others cover leaves out nothing.
pub proof fn the_shallowest_tell_all(paths: Set<Seq<Step>>, path: Seq<Step>)
    ensures
        meets(shallowest(paths), path) == meets(paths, path),
{
    if meets(paths, path) {
        let other = choose|other: Seq<Step>|
            paths.contains(other) && #[trigger] overlapping(other, path);
        let found = a_shallower_one(paths, other);
        covering_overlaps(found, other, path);
        assert(shallowest(paths).contains(found) && overlapping(found, path));
    }
    if meets(shallowest(paths), path) {
        let other = choose|other: Seq<Step>|
            shallowest(paths).contains(other) && #[trigger] overlapping(other, path);
        assert(paths.contains(other) && overlapping(other, path));
    }
}

/// Two changes as one say what either says.
proof fn both_say(a: Option<Changed>, b: Option<Changed>, path: Seq<Step>)
    ensures
        ({
            let says = |change: Option<Changed>|
                match change {
                    None => false,
                    Some(Changed::Whole) => true,
                    Some(Changed::Paths(paths)) => meets(paths, path),
                };
            says(both(a, b)) == (says(a) || says(b))
        }),
{
    match (a, b) {
        (Some(Changed::Paths(x)), Some(Changed::Paths(y))) => {
            the_shallowest_tell_all(x.union(y), path);
            if meets(x, path) {
                let other = choose|other: Seq<Step>|
                    x.contains(other) && #[trigger] overlapping(other, path);
                assert(x.union(y).contains(other) && overlapping(other, path));
            }
            if meets(y, path) {
                let other = choose|other: Seq<Step>|
                    y.contains(other) && #[trigger] overlapping(other, path);
                assert(x.union(y).contains(other) && overlapping(other, path));
            }
            if meets(x.union(y), path) {
                let other = choose|other: Seq<Step>|
                    x.union(y).contains(other) && #[trigger] overlapping(other, path);
                assert(x.contains(other) && overlapping(other, path) || y.contains(other)
                    && overlapping(other, path));
            }
        },
        _ => {},
    }
}

/// Merged changes say what either set says, and nothing else.
pub proof fn merging_says_both(a: Changes, b: Changes, key: Seq<char>, path: Option<Seq<Step>>)
    ensures
        may_differ(merged(a, b), key, path) == (may_differ(a, key, path) || may_differ(
            b,
            key,
            path,
        )),
{
    if path is Some {
        both_say(changed_in(a, key), changed_in(b, key), path->0);
    }
}

/// A path recorded says itself, beside what was said before: everything
/// that overlaps it, in both directions.
pub proof fn touching_says_more(
    changes: Changes,
    key: Seq<char>,
    path: Option<Seq<Step>>,
    other_key: Seq<char>,
    other: Option<Seq<Step>>,
)
    ensures
        may_differ(touched(changes, key, path), other_key, other) == (may_differ(
            changes,
            other_key,
            other,
        ) || (other_key == key && match (path, other) {
            (Some(path), Some(other)) => overlapping(path, other),
            _ => true,
        })),
{
    let after = touched(changes, key, path);
    if other_key == key {
        let change = match path {
            None => Changed::Whole,
            Some(path) => Changed::Paths(Set::empty().insert(path)),
        };
        if other is Some {
            both_say(changed_in(changes, key), Some(change), other->0);
            if path is Some {
                let alone = Set::<Seq<Step>>::empty().insert(path->0);
                if overlapping(path->0, other->0) {
                    assert(alone.contains(path->0) && overlapping(path->0, other->0));
                }
                assert(meets(alone, other->0) == overlapping(path->0, other->0));
            }
        }
    }
}

/// Whether an envelope touches what `path` addresses in `key`.
pub open spec fn deed_touches(deed: Deed, key: Seq<char>, path: Option<Seq<Step>>) -> bool {
    may_differ(recorded(Map::empty(), deed), key, path)
}

/// An envelope recorded adds what it touches.
pub proof fn recording_says_more(
    changes: Changes,
    deed: Deed,
    key: Seq<char>,
    path: Option<Seq<Step>>,
)
    ensures
        may_differ(recorded(changes, deed), key, path) == (may_differ(changes, key, path)
            || deed_touches(deed, key, path)),
{
    let none = Map::<Seq<char>, Changed>::empty();
    match deed {
        Deed::Init { namespaces } => {},
        Deed::SetNamespace { key: k, .. } => {
            touching_says_more(changes, k, None, key, path);
            touching_says_more(none, k, None, key, path);
        },
        Deed::DeleteNamespace { key: k, .. } => {
            touching_says_more(changes, k, None, key, path);
            touching_says_more(none, k, None, key, path);
        },
        Deed::SetNamespaceKey { key: k, path: p, .. } => {
            touching_says_more(changes, k, Some(p), key, path);
            touching_says_more(none, k, Some(p), key, path);
        },
        Deed::AmendNamespaceKey { key: k, path: p, .. } => {
            touching_says_more(changes, k, p, key, path);
            touching_says_more(none, k, p, key, path);
        },
    }
}

/// One covers another just where it is the way there.
proof fn covering_is_leading(a: Seq<Step>, b: Seq<Step>)
    ensures
        covered(a, b) <==> a.is_prefix_of(b),
{
    if a.is_prefix_of(b) {
        assert(b.take(a.len() as int) =~= a);
    }
}

/// Every envelope is reported where it writes, whatever it writes there: its
/// namespace, the place in it, all that lies on the way there and all that
/// lies under it; a namespace written whole is reported everywhere, and so is
/// each that opens a chain. Nothing else comes to be reported.
pub proof fn what_is_written_is_reported(
    changes: Changes,
    deed: Deed,
    key: Seq<char>,
    path: Option<Seq<Step>>,
)
    ensures
        ({
            let reported = may_differ(recorded(changes, deed), key, path);
            let before = may_differ(changes, key, path);
            match deed {
                Deed::Init { namespaces } => reported == (before || namespaces.contains_key(key)),
                Deed::SetNamespace { key: own, .. } => reported == (before || key == own),
                Deed::DeleteNamespace { key: own, .. } => reported == (before || key == own),
                Deed::SetNamespaceKey { key: own, path: place, .. } => reported == (before || (key
                    == own && (path is None || path->0.is_prefix_of(place) || place.is_prefix_of(
                    path->0,
                )))),
                Deed::AmendNamespaceKey { key: own, path: place, .. } => reported == (before || (key
                    == own && (path is None || place is None || path->0.is_prefix_of(place->0)
                    || place->0.is_prefix_of(path->0)))),
            }
        }),
{
    match deed {
        Deed::Init { namespaces } => {},
        Deed::SetNamespace { key: own, .. } => {
            touching_says_more(changes, own, None, key, path);
        },
        Deed::DeleteNamespace { key: own, .. } => {
            touching_says_more(changes, own, None, key, path);
        },
        Deed::SetNamespaceKey { key: own, path: place, .. } => {
            touching_says_more(changes, own, Some(place), key, path);
            if path is Some {
                covering_is_leading(place, path->0);
                covering_is_leading(path->0, place);
            }
        },
        Deed::AmendNamespaceKey { key: own, path: place, .. } => {
            touching_says_more(changes, own, place, key, path);
            if path is Some && place is Some {
                covering_is_leading(place->0, path->0);
                covering_is_leading(path->0, place->0);
            }
        },
    }
}

/// What a run of envelopes writes, the run reports: of each, its namespace and
/// the place in it.
pub proof fn a_run_reports_what_it_writes(changes: Changes, deeds: Seq<Deed>, i: int)
    requires
        0 <= i < deeds.len(),
    ensures
        match deeds[i] {
            Deed::Init { namespaces } => forall|key: Seq<char>, path: Option<Seq<Step>>|
                namespaces.contains_key(key) ==> #[trigger] may_differ(
                    recorded_all(changes, deeds),
                    key,
                    path,
                ),
            Deed::SetNamespace { key, .. } => forall|path: Option<Seq<Step>>| #[trigger]
                may_differ(recorded_all(changes, deeds), key, path),
            Deed::DeleteNamespace { key, .. } => forall|path: Option<Seq<Step>>| #[trigger]
                may_differ(recorded_all(changes, deeds), key, path),
            Deed::SetNamespaceKey { key, path, .. } => may_differ(
                recorded_all(changes, deeds),
                key,
                None,
            ) && may_differ(recorded_all(changes, deeds), key, Some(path)),
            Deed::AmendNamespaceKey { key, path, .. } => may_differ(
                recorded_all(changes, deeds),
                key,
                None,
            ) && may_differ(recorded_all(changes, deeds), key, path),
        },
    decreases deeds.len(),
{
    let front = deeds.drop_last();
    let so_far = recorded_all(changes, front);
    if i < front.len() {
        a_run_reports_what_it_writes(changes, front, i);
        assert(front[i] == deeds[i]);
    }
    assert forall|key: Seq<char>, path: Option<Seq<Step>>|
        may_differ(so_far, key, path) implies #[trigger] may_differ(
        recorded_all(changes, deeds),
        key,
        path,
    ) by {
        recording_says_more(so_far, deeds.last(), key, path);
    }
    match deeds[i] {
        Deed::Init { namespaces } => {
            assert forall|key: Seq<char>, path: Option<Seq<Step>>|
                namespaces.contains_key(key) implies #[trigger] may_differ(
                recorded_all(changes, deeds),
                key,
                path,
            ) by {
                if i == front.len() {
                    what_is_written_is_reported(so_far, deeds[i], key, path);
                } else {
                    assert(may_differ(so_far, key, path));
                }
            }
        },
        Deed::SetNamespace { key, .. } => {
            assert forall|path: Option<Seq<Step>>| #[trigger] may_differ(
                recorded_all(changes, deeds),
                key,
                path,
            ) by {
                if i == front.len() {
                    what_is_written_is_reported(so_far, deeds[i], key, path);
                } else {
                    assert(may_differ(so_far, key, path));
                }
            }
        },
        Deed::DeleteNamespace { key, .. } => {
            assert forall|path: Option<Seq<Step>>| #[trigger] may_differ(
                recorded_all(changes, deeds),
                key,
                path,
            ) by {
                if i == front.len() {
                    what_is_written_is_reported(so_far, deeds[i], key, path);
                } else {
                    assert(may_differ(so_far, key, path));
                }
            }
        },
        Deed::SetNamespaceKey { key, path, .. } => {
            if i == front.len() {
                what_is_written_is_reported(so_far, deeds[i], key, None);
                what_is_written_is_reported(so_far, deeds[i], key, Some(path));
            }
        },
        Deed::AmendNamespaceKey { key, path, .. } => {
            if i == front.len() {
                what_is_written_is_reported(so_far, deeds[i], key, None);
                what_is_written_is_reported(so_far, deeds[i], key, path);
            }
        },
    }
}

/// A run recorded says what any of its envelopes touches, and nothing else.
pub proof fn a_run_says_each(
    changes: Changes,
    deeds: Seq<Deed>,
    key: Seq<char>,
    path: Option<Seq<Step>>,
)
    ensures
        may_differ(recorded_all(changes, deeds), key, path) <==> may_differ(changes, key, path)
            || exists|x: int|
            0 <= x < deeds.len() && deed_touches(#[trigger] deeds[x], key, path),
    decreases deeds.len(),
{
    if deeds.len() > 0 {
        let front = deeds.drop_last();
        a_run_says_each(changes, front, key, path);
        recording_says_more(recorded_all(changes, front), deeds.last(), key, path);
        if exists|x: int| 0 <= x < front.len() && deed_touches(#[trigger] front[x], key, path) {
            let x = choose|x: int|
                0 <= x < front.len() && deed_touches(#[trigger] front[x], key, path);
            assert(deed_touches(deeds[x], key, path));
        }
        if deed_touches(deeds.last(), key, path) {
            assert(deed_touches(deeds[deeds.len() - 1], key, path));
        }
        if exists|x: int| 0 <= x < deeds.len() && deed_touches(#[trigger] deeds[x], key, path) {
            let x = choose|x: int|
                0 <= x < deeds.len() && deed_touches(#[trigger] deeds[x], key, path);
            if x < front.len() {
                assert(deed_touches(front[x], key, path));
            }
        }
    }
}

/// What `path` addresses in `key`; without a path, all that `key` holds.
pub open spec fn found(version: Version, key: Seq<char>, path: Option<Seq<Step>>) -> Option<Tree> {
    if version.contains_key(key) {
        walked(version[key], steps_of(path))
    } else {
        None
    }
}

/// Whether an envelope takes an entry out of an array, which moves those
/// behind it up.
pub open spec fn closes_a_gap(deed: Deed) -> bool {
    deed matches Deed::SetNamespaceKey { path, value, .. } && value is None && path.len() > 0
        && path.last() is Index
}

/// Whether an envelope takes an entry out of an array of `key` that `path`
/// leads into behind that entry: what `path` addresses then moves up, and
/// another entry stands in its place.
pub open spec fn moves_up(deed: Deed, key: Seq<char>, path: Option<Seq<Step>>) -> bool {
    &&& closes_a_gap(deed)
    &&& deed->SetNamespaceKey_key == key
    &&& path is Some
    &&& {
        let taken = deed->SetNamespaceKey_path;
        let at = taken.len() - 1;
        &&& at < path->0.len()
        &&& path->0.take(at) == taken.take(at)
        &&& path->0[at] is Index
        &&& path->0[at]->Index_0 > taken[at]->Index_0
    }
}

/// Whether the paths an envelope names are as long as a list can be.
pub open spec fn nameable(deed: Deed) -> bool {
    match deed {
        Deed::SetNamespaceKey { path, .. } => 0 < path.len() <= usize::MAX,
        Deed::AmendNamespaceKey { path, .. } => steps_of(path).len() <= usize::MAX,
        _ => true,
    }
}

/// Paths that do not overlap part ways.
proof fn parting_ways(a: Seq<Step>, b: Seq<Step>)
    requires
        !overlapping(a, b),
    ensures
        apart(a, b),
    decreases a.len(),
{
    if a.len() == 0 {
        assert(b.take(0) =~= a);
    } else if b.len() == 0 {
        assert(a.take(0) =~= b);
    } else if a[0] == b[0] {
        let x = a.skip(1);
        let y = b.skip(1);
        if covered(x, y) {
            assert(b.take(a.len() as int) =~= seq![b[0]] + y.take(x.len() as int));
            assert(a =~= seq![a[0]] + x);
        }
        if covered(y, x) {
            assert(a.take(b.len() as int) =~= seq![a[0]] + x.take(y.len() as int));
            assert(b =~= seq![b[0]] + y);
        }
        parting_ways(x, y);
    }
}

/// An entry that is taken out of an array leaves alone what lies on other
/// paths, but for those that lead into the array behind it.
proof fn a_gap_spares_others(tree: Tree, path: Seq<Step>, other: Seq<Step>)
    requires
        apart(path, other),
        path.last() is Index,
        set_fits(tree, path, false),
        !(path.len() - 1 < other.len() && other.take(path.len() - 1) == path.take(path.len() - 1)
            && other[path.len() - 1] is Index && other[path.len() - 1]->Index_0
            > path.last()->Index_0),
    ensures
        walked(written(tree, path, None), other) == walked(tree, other),
    decreases path.len(),
{
    let at = path.len() - 1;
    if path.len() == 1 {
        assert(!apart(path.skip(1), other.skip(1)));
        assert(path.drop_last().len() == 0);
        assert(other.take(0) =~= path.take(0));
        assert(child(written(tree, path, None), other[0]) == child(tree, other[0]));
    } else {
        set_fits_below(tree, path, false);
        let below = child(tree, path[0])->0;
        if path[0] == other[0] {
            let rest = path.skip(1);
            let beside = other.skip(1);
            assert(rest.last() == path.last());
            if at - 1 < beside.len() && beside.take(at - 1) == rest.take(at - 1) {
                assert(other.take(at) =~= seq![other[0]] + beside.take(at - 1));
                assert(path.take(at) =~= seq![path[0]] + rest.take(at - 1));
                assert(beside[at - 1] == other[at]);
            }
            a_gap_spares_others(below, rest, beside);
            assert(child(written(tree, path, None), path[0]) == Some(
                written(below, rest, None),
            ));
        } else {
            assert(child(written(tree, path, None), other[0]) == child(tree, other[0]));
        }
    }
}

/// What an envelope does not touch, it leaves as it was, but for what moves up
/// as an entry before it is taken out of an array.
pub proof fn untouched_is_unchanged(
    version: Version,
    head: EnvelopeDigest,
    letter: Letter,
    key: Seq<char>,
    path: Option<Seq<Step>>,
)
    requires
        judged(version, head, letter) is Ok,
        !deed_touches(letter.payload, key, path),
        !moves_up(letter.payload, key, path),
        nameable(letter.payload),
    ensures
        ({
            let (_, write) = judged(version, head, letter)->Ok_0;
            found(write.applied(version), key, path) == found(version, key, path)
        }),
{
    let none = Map::<Seq<char>, Changed>::empty();
    let (_, write) = judged(version, head, letter)->Ok_0;
    match letter.payload {
        Deed::Init { .. } => {},
        Deed::SetNamespace { key: k, .. } => {
            touching_says_more(none, k, None, key, path);
        },
        Deed::DeleteNamespace { key: k, .. } => {
            touching_says_more(none, k, None, key, path);
        },
        Deed::SetNamespaceKey { key: k, path: p, value, .. } => {
            touching_says_more(none, k, Some(p), key, path);
            if k == key {
                let wanted = path->0;
                parting_ways(p, wanted);
                match value {
                    Some(value) => {
                        set_spares_others(version[key], p, value, wanted);
                    },
                    None => {
                        if p.last() is Key {
                            removal_spares_others(version[key], p, wanted);
                        } else {
                            set_judged_fits(version, key, p, value);
                            a_gap_spares_others(version[key], p, wanted);
                        }
                    },
                }
            }
        },
        Deed::AmendNamespaceKey { key: k, path: p, op, .. } => {
            touching_says_more(none, k, p, key, path);
            if k == key {
                let wanted = path->0;
                parting_ways(p->0, wanted);
                amend_judged_fits(version, k, p, op);
                amending_spares_others(version[key], p->0, op, wanted);
            }
        },
    }
}

/// Whether each of the first `n` envelopes of the line of `head` leaves
/// alone what `path` addresses in `key`.
pub open spec fn spared_by_line(
    store: Store,
    head: EnvelopeDigest,
    n: nat,
    key: Seq<char>,
    path: Option<Seq<Step>>,
) -> bool {
    forall|x: int|
        0 <= x < n ==> {
            let deed = #[trigger] line(store, head, n)[x];
            &&& !deed_touches(deed, key, path)
            &&& !moves_up(deed, key, path)
            &&& nameable(deed)
        }
}

/// Along a line that spares it, a value stays as it is.
proof fn a_line_spares(
    store: Store,
    head: EnvelopeDigest,
    n: nat,
    key: Seq<char>,
    path: Option<Seq<Step>>,
    m: nat,
    k: nat,
)
    requires
        ancestor(store, head, n) is Some,
        told(store.log, head, m) is Some,
        told(store.log, ancestor(store, head, n)->0, k) is Some,
        spared_by_line(store, head, n, key, path),
    ensures
        found(told(store.log, head, m)->0, key, path) == found(
            told(store.log, ancestor(store, head, n)->0, k)->0,
            key,
            path,
        ),
    decreases n,
{
    if n == 0 {
        told_agrees(store.log, head, m, k);
    } else {
        let letter = store.log[head].envelope;
        assert(ancestor(store, head, 0) == Some(head));
        generations_add(store, head, 0, 1);
        if ancestor(store, head, 1) is None {
            ancestors_end(store, head, 1, n);
        }
        let prev = ancestor(store, head, 1)->0;
        generations_add(store, head, 1, (n - 1) as nat);
        assert(store.parent(head) == Some(prev));
        assert(letter.payload.prev() == Some(prev));
        let before = told(store.log, prev, (m - 1) as nat)->0;
        assert(line(store, head, n)[0] == letter.payload);
        untouched_is_unchanged(before, prev, letter, key, path);
        assert forall|x: int| 0 <= x < n - 1 implies {
            let deed = #[trigger] line(store, prev, (n - 1) as nat)[x];
            &&& !deed_touches(deed, key, path)
            &&& !moves_up(deed, key, path)
            &&& nameable(deed)
        } by {
            generations_add(store, head, 1, x as nat);
            assert(line(store, head, n)[x + 1] == line(store, prev, (n - 1) as nat)[x]);
        }
        a_line_spares(store, prev, (n - 1) as nat, key, path, (m - 1) as nat, k);
    }
}

/// What a movement of the head does not report, it leaves as it was, unless
/// an entry before it was taken out of its array on the way.
pub proof fn unreported_is_unchanged(
    store: Store,
    from: EnvelopeDigest,
    to: EnvelopeDigest,
    i: nat,
    j: nat,
    key: Seq<char>,
    path: Option<Seq<Step>>,
)
    requires
        grown(store),
        store.versions.contains_key(from),
        store.versions.contains_key(to),
        shared(store, from, to, i, j),
        !may_differ(crossed(store, from, to, i, j), key, path),
        forall|x: int|
            0 <= x < i ==> !moves_up(#[trigger] line(store, from, i)[x], key, path) && nameable(
                line(store, from, i)[x],
            ),
        forall|x: int|
            0 <= x < j ==> !moves_up(#[trigger] line(store, to, j)[x], key, path) && nameable(
                line(store, to, j)[x],
            ),
    ensures
        found(store.versions[from], key, path) == found(store.versions[to], key, path),
{
    let none = Map::<Seq<char>, Changed>::empty();
    let lost = line(store, from, i);
    let won = line(store, to, j);
    a_run_says_each(none, lost, key, path);
    a_run_says_each(recorded_all(none, lost), won, key, path);
    let meet = ancestor(store, from, i)->0;
    assert(store.log.contains_key(from));
    assert(store.log.contains_key(to));
    assert(telling(store.log, from));
    assert(telling(store.log, to));
    let m = choose|m: nat| #[trigger] told(store.log, from, m) is Some;
    let n = choose|n: nat| #[trigger] told(store.log, to, n) is Some;
    told_ancestors(store, from, i, m);
    a_line_spares(store, from, i, key, path, m, (m - i) as nat);
    a_line_spares(store, to, j, key, path, n, (m - i) as nat);
}

/// Where the log tells a state, it tells those it came from.
proof fn told_ancestors(store: Store, head: EnvelopeDigest, n: nat, m: nat)
    requires
        ancestor(store, head, n) is Some,
        told(store.log, head, m) is Some,
    ensures
        n <= m,
        told(store.log, ancestor(store, head, n)->0, (m - n) as nat) is Some,
    decreases n,
{
    if n > 0 {
        told_ancestors(store, head, (n - 1) as nat, m);
        let at = ancestor(store, head, (n - 1) as nat)->0;
        assert(store.parent(at) == ancestor(store, head, n));
    }
}

} // verus!
