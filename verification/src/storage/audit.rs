//! Whether rows hold together.
//!
//! Rows that something else wrote may hold anything; this goes over the edges and
//! the roots once and says what is wrong with them, before they are relied on.
//! What a node or the log carries is left to be read when it is asked for.

use vstd::prelude::*;

use crate::digest::EnvelopeDigest;
use crate::order::{SortedMap, SortedSet};
use crate::storage::graph::RowError;
use crate::storage::rows::{in_places, ranks_fall, Db, Rows, ARRAY, TABLE};
use crate::storage::sqlite::SqliteStorage;

verus! {

impl Db {
    /// Whether an edge runs from a node of a kind to a node.
    pub open spec fn joins(self, parent: i64, child: i64, code: i64) -> bool {
        &&& self.nodes.contains_key(parent)
        &&& self.nodes[parent].code == code
        &&& self.nodes.contains_key(child)
    }

    /// Whether the edges of tables do.
    pub open spec fn fields_join(self) -> bool {
        forall|id: i64, k: Seq<char>| #[trigger]
            self.fields.contains_key((id, k)) ==> self.joins(id, self.fields[(id, k)], TABLE)
    }

    /// Whether the edges of arrays do.
    pub open spec fn items_join(self) -> bool {
        forall|id: i64, i: i64| #[trigger]
            self.items.contains_key((id, i)) ==> self.joins(id, self.items[(id, i)], ARRAY)
    }

    /// Whether the places of every array run from the first on.
    pub open spec fn places_run(self) -> bool {
        forall|id: i64| #[trigger] self.runs(id)
    }

    /// Whether the places of the array `id` do.
    pub open spec fn runs(self, id: i64) -> bool {
        exists|n: nat| self.spans(id, n) && n <= i64::MAX
    }

    /// Whether every root is a node of a version there is.
    pub open spec fn roots_stand(self) -> bool {
        forall|head: EnvelopeDigest, k: Seq<char>| #[trigger]
            self.roots.contains_key((head, k)) ==> self.versions.contains(head)
                && self.nodes.contains_key(self.roots[(head, k)])
    }

    /// What is wrong with the rows, if anything is.
    pub open spec fn fault(self) -> Option<&'static str> {
        if !self.fields_join() {
            Some("an edge of a table that joins no nodes")
        } else if !self.items_join() {
            Some("an edge of an array that joins no nodes")
        } else if !self.places_run() {
            Some("an array with a gap")
        } else if !self.roots_stand() {
            Some("a root that is no node of a version")
        } else if !self.acyclic() {
            Some("a node that holds itself")
        } else {
            None
        }
    }
}

/// Rows have no fault where they are sound, and only there.
pub proof fn sound_is_faultless(db: Db)
    ensures
        db.fault() is None <==> db.sound(),
{
    if db.fault() is None {
        ranks_fall(db);
        assert forall|id: i64| #[trigger] db.nodes.contains_key(id) implies db.node_sound(id) by {
            assert(db.runs(id));
        }
        assert forall|id: i64, k: Seq<char>| #[trigger] db.fields.contains_key((id, k)) implies {
            &&& db.nodes.contains_key(id)
            &&& db.nodes[id].code == TABLE
            &&& db.nodes.contains_key(db.fields[(id, k)])
            &&& db.rank(db.fields[(id, k)]) < db.rank(id)
        } by {
            assert(db.joins(id, db.fields[(id, k)], TABLE));
        }
        assert forall|id: i64, i: i64| #[trigger] db.items.contains_key((id, i)) implies {
            &&& db.nodes.contains_key(id)
            &&& db.nodes[id].code == ARRAY
            &&& db.nodes.contains_key(db.items[(id, i)])
            &&& db.rank(db.items[(id, i)]) < db.rank(id)
        } by {
            assert(db.joins(id, db.items[(id, i)], ARRAY));
        }
    }
    if db.sound() {
        assert forall|id: i64| #[trigger] db.runs(id) by {
            if db.nodes.contains_key(id) && db.nodes[id].code == ARRAY {
                assert(db.node_sound(id));
            } else {
                assert forall|i: i64| #[trigger] db.items.contains_key((id, i)) <==> 0 <= i
                    < 0nat by {}
                assert(db.spans(id, 0));
            }
        }
    }
}

/// Whether the edge at `k` is at the place after the one before it, or at the
/// first of its array.
pub open spec fn goes_on(edges: Seq<(i64, i64, i64)>, k: int) -> bool {
    &&& edges[k].1 < i64::MAX
    &&& edges[k].1 == if k > 0 && edges[k - 1].0 == edges[k].0 {
        edges[k - 1].1 + 1
    } else {
        0
    }
}

/// Where edges go on, every place up to one that is taken is.
proof fn places_up_to(edges: Seq<(i64, i64, i64)>, k: int, i: int) -> (j: int)
    requires
        forall|x: int| 0 <= x < edges.len() ==> #[trigger] goes_on(edges, x),
        0 <= k < edges.len(),
        0 <= i <= edges[k].1,
    ensures
        0 <= j <= k,
        edges[j].0 == edges[k].0,
        edges[j].1 == i,
    decreases k,
{
    assert(goes_on(edges, k));
    if i == edges[k].1 {
        k
    } else {
        places_up_to(edges, k - 1, i)
    }
}

/// Where edges go on, no place is below the first.
proof fn places_count_up(edges: Seq<(i64, i64, i64)>, k: int)
    requires
        forall|x: int| 0 <= x < edges.len() ==> #[trigger] goes_on(edges, x),
        0 <= k < edges.len(),
    ensures
        0 <= edges[k].1 < i64::MAX,
    decreases k,
{
    assert(goes_on(edges, k));
    if k > 0 {
        places_count_up(edges, k - 1);
    }
}

/// The last of the first `n` edges that start at `id`, where one does.
proof fn last_from(edges: Seq<(i64, i64, i64)>, id: i64, n: int) -> (last: Option<int>)
    requires
        0 <= n <= edges.len(),
    ensures
        match last {
            Some(k) => 0 <= k < n && edges[k].0 == id && forall|x: int|
                k < x < n ==> (#[trigger] edges[x]).0 != id,
            None => forall|x: int| 0 <= x < n ==> (#[trigger] edges[x]).0 != id,
        },
    decreases n,
{
    if n == 0 {
        None
    } else if edges[n - 1].0 == id {
        Some(n - 1)
    } else {
        last_from(edges, id, n - 1)
    }
}

/// Where edges go on, places run.
proof fn going_on_runs(db: Db, edges: Seq<(i64, i64, i64)>)
    requires
        db.lists_items(edges),
        in_places(edges),
        forall|x: int| 0 <= x < edges.len() ==> #[trigger] goes_on(edges, x),
    ensures
        db.places_run(),
{
    assert forall|id: i64| #[trigger] db.runs(id) by {
        let last = last_from(edges, id, edges.len() as int);
        let n: nat = match last {
            Some(k) => {
                places_count_up(edges, k);
                (edges[k].1 + 1) as nat
            },
            None => 0,
        };
        assert forall|i: i64| #[trigger] db.items.contains_key((id, i)) <==> 0 <= i < n by {
            if db.items.contains_key((id, i)) {
                let x = choose|x: int|
                    0 <= x < edges.len() && (#[trigger] edges[x]).0 == id && edges[x].1 == i;
                places_count_up(edges, x);
                let k = last->0;
                if x < k {
                    assert(edges[x].1 < edges[k].1);
                }
            }
            if 0 <= i < n {
                let k = last->0;
                let j = places_up_to(edges, k, i as int);
                assert(db.items.contains_key((edges[j].0, edges[j].1)));
            }
        }
        assert(db.spans(id, n));
    }
}

/// Where places run, edges go on.
proof fn running_goes_on(db: Db, edges: Seq<(i64, i64, i64)>, k: int)
    requires
        db.lists_items(edges),
        in_places(edges),
        db.places_run(),
        0 <= k < edges.len(),
    ensures
        goes_on(edges, k),
{
    let (id, place) = (edges[k].0, edges[k].1);
    assert(db.runs(id));
    let n = choose|n: nat| db.spans(id, n) && n <= i64::MAX;
    assert(db.items.contains_key((id, place)));
    if k > 0 && edges[k - 1].0 == id {
        let before = edges[k - 1].1;
        assert(db.items.contains_key((edges[k - 1].0, before)));
        assert(before < place);
        if before + 1 < place {
            let gap = (before + 1) as i64;
            assert(db.items.contains_key((id, gap)));
            let x = choose|x: int|
                0 <= x < edges.len() && (#[trigger] edges[x]).0 == id && edges[x].1 == gap;
            if x < k - 1 {
                assert(edges[x].1 < edges[k - 1].1);
            } else if x > k {
                assert(edges[k].1 < edges[x].1);
            }
        }
    } else if place > 0 {
        assert(db.items.contains_key((id, 0i64)));
        let x = choose|x: int| 0 <= x < edges.len() && (#[trigger] edges[x]).0 == id && edges[x].1
            == 0;
        if x > k {
            assert(edges[k].1 < edges[x].1);
        } else if x < k - 1 {
            assert(edges[x].0 <= edges[k - 1].0 <= edges[k].0);
        }
    }
}

/// Whether `kinds` tells which nodes there are, and the kind of each.
spec fn tells_kinds(db: Db, kinds: SortedMap<i64, i64>) -> bool {
    &&& kinds.wf()
    &&& forall|id: i64|
        #![trigger kinds@.contains_key(id)]
        #![trigger db.nodes.contains_key(id)]
        kinds@.contains_key(id) == db.nodes.contains_key(id)
    &&& forall|id: i64| #[trigger] kinds@.contains_key(id) ==> kinds@[id] == db.nodes[id].code
}

/// The kind of each node.
fn kinds_of(nodes: &Vec<(i64, i64)>, Ghost(db): Ghost<Db>) -> (kinds: SortedMap<i64, i64>)
    requires
        db.lists_nodes(nodes@),
    ensures
        tells_kinds(db, kinds),
{
    let mut kinds: SortedMap<i64, i64> = SortedMap::new();
    let mut i: usize = 0;
    while i < nodes.len()
        invariant
            i <= nodes@.len(),
            db.lists_nodes(nodes@),
            kinds.wf(),
            forall|id: i64| #[trigger]
                kinds@.contains_key(id) ==> db.nodes.contains_key(id) && kinds@[id]
                    == db.nodes[id].code,
            forall|j: int| 0 <= j < i ==> kinds@.contains_key((#[trigger] nodes@[j]).0),
        decreases nodes@.len() - i,
    {
        assert(db.nodes.contains_key(nodes@[i as int].0));
        kinds.insert(nodes[i].0, nodes[i].1);
        i += 1;
    }
    proof {
        assert forall|id: i64| #[trigger] db.nodes.contains_key(id) implies kinds@.contains_key(
            id,
        ) by {
            let j = choose|j: int| 0 <= j < nodes@.len() && (#[trigger] nodes@[j]).0 == id;
            assert(kinds@.contains_key(nodes@[j].0));
        }
    }
    kinds
}

/// Whether an edge runs from a node of a kind to a node.
fn edge_joins(
    kinds: &SortedMap<i64, i64>,
    parent: i64,
    child: i64,
    code: i64,
    Ghost(db): Ghost<Db>,
) -> (holds: bool)
    requires
        tells_kinds(db, *kinds),
    ensures
        holds == db.joins(parent, child, code),
{
    match (kinds.get(&parent), kinds.get(&child)) {
        (Some(kind), Some(_)) => *kind == code,
        _ => false,
    }
}

/// Whether the edges of tables join nodes.
fn join_fields(
    kinds: &SortedMap<i64, i64>,
    edges: &Vec<(i64, String, i64)>,
    Ghost(db): Ghost<Db>,
) -> (holds: bool)
    requires
        tells_kinds(db, *kinds),
        db.lists_fields(edges@),
    ensures
        holds == db.fields_join(),
{
    let mut i: usize = 0;
    while i < edges.len()
        invariant
            i <= edges@.len(),
            tells_kinds(db, *kinds),
            db.lists_fields(edges@),
            forall|j: int|
                0 <= j < i ==> db.joins((#[trigger] edges@[j]).0, edges@[j].2, TABLE),
        decreases edges@.len() - i,
    {
        assert(db.fields.contains_key((edges@[i as int].0, edges@[i as int].1@)));
        if !edge_joins(kinds, edges[i].0, edges[i].2, TABLE, Ghost(db)) {
            return false;
        }
        i += 1;
    }
    proof {
        assert forall|id: i64, k: Seq<char>| #[trigger]
            db.fields.contains_key((id, k)) implies db.joins(id, db.fields[(id, k)], TABLE) by {
            let j = choose|j: int|
                0 <= j < edges@.len() && (#[trigger] edges@[j]).0 == id && edges@[j].1@ == k;
            assert(db.joins(edges@[j].0, edges@[j].2, TABLE));
        }
    }
    true
}

/// Whether the edges of arrays join nodes.
fn join_items(
    kinds: &SortedMap<i64, i64>,
    edges: &Vec<(i64, i64, i64)>,
    Ghost(db): Ghost<Db>,
) -> (holds: bool)
    requires
        tells_kinds(db, *kinds),
        db.lists_items(edges@),
    ensures
        holds == db.items_join(),
{
    let mut i: usize = 0;
    while i < edges.len()
        invariant
            i <= edges@.len(),
            tells_kinds(db, *kinds),
            db.lists_items(edges@),
            forall|j: int|
                0 <= j < i ==> db.joins((#[trigger] edges@[j]).0, edges@[j].2, ARRAY),
        decreases edges@.len() - i,
    {
        assert(db.items.contains_key((edges@[i as int].0, edges@[i as int].1)));
        if !edge_joins(kinds, edges[i].0, edges[i].2, ARRAY, Ghost(db)) {
            return false;
        }
        i += 1;
    }
    proof {
        assert forall|id: i64, k: i64| #[trigger]
            db.items.contains_key((id, k)) implies db.joins(id, db.items[(id, k)], ARRAY) by {
            let j = choose|j: int|
                0 <= j < edges@.len() && (#[trigger] edges@[j]).0 == id && edges@[j].1 == k;
            assert(db.joins(edges@[j].0, edges@[j].2, ARRAY));
        }
    }
    true
}

/// Whether the places of every array run from the first on.
fn run_places(edges: &Vec<(i64, i64, i64)>, db: Ghost<Db>) -> (holds: bool)
    requires
        db@.lists_items(edges@),
        in_places(edges@),
    ensures
        holds == db@.places_run(),
{
    let mut i: usize = 0;
    while i < edges.len()
        invariant
            i <= edges@.len(),
            db@.lists_items(edges@),
            in_places(edges@),
            forall|x: int| 0 <= x < i ==> #[trigger] goes_on(edges@, x),
        decreases edges@.len() - i,
    {
        let place: i64 = edges[i].1;
        let after: i64 = if i > 0 && edges[i - 1].0 == edges[i].0 {
            proof {
                assert(goes_on(edges@, i - 1));
            }
            edges[i - 1].1 + 1
        } else {
            0
        };
        if place == i64::MAX || place != after {
            proof {
                if db@.places_run() {
                    running_goes_on(db@, edges@, i as int);
                }
            }
            return false;
        }
        assert(goes_on(edges@, i as int));
        i += 1;
    }
    proof {
        going_on_runs(db@, edges@);
    }
    true
}

/// Reads every root.
fn stand_roots<R: Rows>(rows: &R, kinds: &SortedMap<i64, i64>) -> (holds: Result<bool, R::Error>)
    requires
        rows.wf(),
        tells_kinds(rows.db(), *kinds),
    ensures
        holds matches Ok(holds) ==> holds == rows.db().roots_stand(),
{
    let ghost db = rows.db();
    let roots = match rows.all_roots() {
        Ok(roots) => roots,
        Err(e) => {
            return Err(e);
        },
    };
    let mut i: usize = 0;
    while i < roots.len()
        invariant
            i <= roots@.len(),
            rows.wf(),
            db == rows.db(),
            tells_kinds(db, *kinds),
            db.lists_roots(roots@),
            forall|j: int|
                0 <= j < i ==> db.versions.contains((#[trigger] roots@[j]).0)
                    && db.nodes.contains_key(roots@[j].2),
        decreases roots@.len() - i,
    {
        assert(db.roots.contains_key((roots@[i as int].0, roots@[i as int].1@)));
        match rows.has_version(&roots[i].0) {
            Ok(true) => {},
            Ok(false) => {
                return Ok(false);
            },
            Err(e) => {
                return Err(e);
            },
        }
        if kinds.get(&roots[i].2).is_none() {
            return Ok(false);
        }
        i += 1;
    }
    proof {
        assert forall|head: EnvelopeDigest, k: Seq<char>| #[trigger]
            db.roots.contains_key((head, k)) implies db.versions.contains(head)
            && db.nodes.contains_key(db.roots[(head, k)]) by {
            let j = choose|j: int|
                0 <= j < roots@.len() && (#[trigger] roots@[j]).0 == head && roots@[j].1@ == k;
            assert(db.versions.contains(roots@[j].0));
        }
    }
    Ok(true)
}

/// Whether `edges` are all edges: from where, and to where.
spec fn lists_edges(db: Db, edges: Seq<(i64, i64)>) -> bool {
    forall|parent: i64, child: i64|
        #![trigger db.edge(parent, child)]
        #![trigger edges.contains((parent, child))]
        db.edge(parent, child) <==> edges.contains((parent, child))
}

/// All edges, of tables and of arrays.
fn all_edges(
    fields: &Vec<(i64, String, i64)>,
    items: &Vec<(i64, i64, i64)>,
    Ghost(db): Ghost<Db>,
) -> (edges: Vec<(i64, i64)>)
    requires
        db.lists_fields(fields@),
        db.lists_items(items@),
    ensures
        lists_edges(db, edges@),
{
    let mut edges: Vec<(i64, i64)> = Vec::new();
    let mut i: usize = 0;
    while i < fields.len()
        invariant
            i <= fields@.len(),
            edges@.len() == i,
            forall|j: int| 0 <= j < i ==> #[trigger] edges@[j] == (fields@[j].0, fields@[j].2),
        decreases fields@.len() - i,
    {
        edges.push((fields[i].0, fields[i].2));
        i += 1;
    }
    let mut i: usize = 0;
    while i < items.len()
        invariant
            i <= items@.len(),
            edges@.len() == fields@.len() + i,
            forall|j: int|
                0 <= j < fields@.len() ==> #[trigger] edges@[j] == (fields@[j].0, fields@[j].2),
            forall|j: int|
                0 <= j < i ==> edges@[fields@.len() + j] == (
                    (#[trigger] items@[j]).0,
                    items@[j].2,
                ),
        decreases items@.len() - i,
    {
        edges.push((items[i].0, items[i].2));
        i += 1;
    }
    proof {
        assert forall|parent: i64, child: i64|
            #![trigger db.edge(parent, child)]
            #![trigger edges@.contains((parent, child))]
            db.edge(parent, child) <==> edges@.contains((parent, child)) by {
            if edges@.contains((parent, child)) {
                let j = choose|j: int| 0 <= j < edges@.len() && edges@[j] == (parent, child);
                if j < fields@.len() {
                    assert(db.fields.contains_key((fields@[j].0, fields@[j].1@)));
                } else {
                    let x = j - fields@.len();
                    assert(edges@[fields@.len() + x] == (items@[x].0, items@[x].2));
                    assert(db.items.contains_key((items@[x].0, items@[x].1)));
                }
            }
            if exists|k: Seq<char>| #[trigger]
                db.fields.contains_key((parent, k)) && db.fields[(parent, k)] == child {
                let k = choose|k: Seq<char>| #[trigger]
                    db.fields.contains_key((parent, k)) && db.fields[(parent, k)] == child;
                let j = choose|j: int|
                    0 <= j < fields@.len() && (#[trigger] fields@[j]).0 == parent && fields@[j].1@
                        == k;
                assert(edges@[j] == (parent, child));
            } else if db.edge(parent, child) {
                let k = choose|k: i64| #[trigger]
                    db.items.contains_key((parent, k)) && db.items[(parent, k)] == child;
                let j = choose|j: int|
                    0 <= j < items@.len() && (#[trigger] items@[j]).0 == parent && items@[j].1 == k;
                assert(edges@[fields@.len() + j] == (parent, child));
            }
        }
    }
    edges
}

/// Whether nodes in `settled` hold only nodes in it, of lower rank.
spec fn settles_by(db: Db, settled: Set<i64>, rank: spec_fn(i64) -> nat, bound: nat) -> bool {
    &&& forall|id: i64| #[trigger] settled.contains(id) ==> rank(id) < bound
    &&& forall|parent: i64, child: i64| #[trigger]
        db.edge(parent, child) && settled.contains(parent) ==> settled.contains(child) && rank(
            child,
        ) < rank(parent)
}

/// Whether the node `id` holds one that is not in `settled`.
spec fn waits(db: Db, settled: Set<i64>, id: i64) -> bool {
    exists|child: i64| #[trigger] db.edge(id, child) && !settled.contains(child)
}

/// Where no node holds itself, and each that is not settled holds another
/// that is not, all are settled.
proof fn none_waits(
    db: Db,
    settled: Set<i64>,
    rank: spec_fn(i64) -> nat,
    bound: nat,
    id: i64,
)
    requires
        db.ranked_by(rank, bound),
        db.fields_join(),
        db.items_join(),
        forall|id: i64| #[trigger]
            db.nodes.contains_key(id) && !settled.contains(id) ==> waits(db, settled, id),
        db.nodes.contains_key(id),
    ensures
        settled.contains(id),
    decreases rank(id),
{
    if !settled.contains(id) {
        assert(waits(db, settled, id));
        let child = choose|child: i64| #[trigger] db.edge(id, child) && !settled.contains(child);
        none_waits(db, settled, rank, bound, child);
    }
}

/// The nodes that hold one which is not settled.
fn waiting(edges: &Vec<(i64, i64)>, settled: &SortedSet<i64>, Ghost(db): Ghost<Db>) -> (held: SortedSet<
    i64,
>)
    requires
        lists_edges(db, edges@),
        settled.wf(),
    ensures
        held.wf(),
        forall|id: i64| #[trigger] held@.contains(id) <==> waits(db, settled@, id),
{
    let mut held: SortedSet<i64> = SortedSet::new();
    let mut i: usize = 0;
    while i < edges.len()
        invariant
            i <= edges@.len(),
            lists_edges(db, edges@),
            settled.wf(),
            held.wf(),
            forall|id: i64| #[trigger] held@.contains(id) ==> waits(db, settled@, id),
            forall|j: int|
                0 <= j < i && !settled@.contains((#[trigger] edges@[j]).1) ==> held@.contains(
                    edges@[j].0,
                ),
        decreases edges@.len() - i,
    {
        let (parent, child) = edges[i];
        if !settled.contains(&child) {
            proof {
                assert(edges@.contains(edges@[i as int]));
                assert(db.edge(parent, child));
                assert(waits(db, settled@, parent));
            }
            held.insert(parent);
        }
        i += 1;
    }
    proof {
        assert forall|id: i64| waits(db, settled@, id) implies #[trigger] held@.contains(id) by {
            let child = choose|child: i64| #[trigger]
                db.edge(id, child) && !settled@.contains(child);
            assert(edges@.contains((id, child)));
            let j = choose|j: int| 0 <= j < edges@.len() && edges@[j] == (id, child);
            assert(held@.contains(edges@[j].0));
        }
    }
    held
}

/// Settles the nodes of `left` that hold no node which is not settled, and
/// says which are left.
fn settle(left: &Vec<i64>, held: &SortedSet<i64>, settled: &mut SortedSet<i64>) -> (rest: Vec<i64>)
    requires
        held.wf(),
        old(settled).wf(),
    ensures
        final(settled).wf(),
        forall|id: i64| #[trigger]
            final(settled)@.contains(id) <==> old(settled)@.contains(id) || (left@.contains(id)
                && !held@.contains(id)),
        forall|id: i64| #[trigger]
            rest@.contains(id) <==> left@.contains(id) && held@.contains(id),
        rest@.len() <= left@.len(),
        rest@.len() == left@.len() ==> rest@ == left@,
{
    let ghost first = settled@;
    let mut rest: Vec<i64> = Vec::new();
    let mut i: usize = 0;
    while i < left.len()
        invariant
            i <= left@.len(),
            held.wf(),
            settled.wf(),
            forall|id: i64| #[trigger]
                settled@.contains(id) <==> first.contains(id) || (left@.take(i as int).contains(id)
                    && !held@.contains(id)),
            forall|id: i64| #[trigger]
                rest@.contains(id) <==> left@.take(i as int).contains(id) && held@.contains(id),
            rest@.len() <= i,
            rest@.len() == i ==> rest@ == left@.take(i as int),
        decreases left@.len() - i,
    {
        let id: i64 = left[i];
        let ghost so_far = left@.take(i as int);
        let ghost kept = rest@;
        if held.contains(&id) {
            rest.push(id);
        } else {
            settled.insert(id);
        }
        i += 1;
        proof {
            assert(left@.take(i as int) =~= so_far.push(id));
            pushing_adds(so_far, id);
            pushing_adds(kept, id);
        }
    }
    assert(left@.take(i as int) =~= left@);
    rest
}

/// What is pushed is there, with all that was.
proof fn pushing_adds(list: Seq<i64>, id: i64)
    ensures
        forall|other: i64| #[trigger]
            list.push(id).contains(other) <==> list.contains(other) || other == id,
{
    assert forall|other: i64| #[trigger]
        list.push(id).contains(other) <==> list.contains(other) || other == id by {
        if list.contains(other) {
            let j = choose|j: int| 0 <= j < list.len() && list[j] == other;
            assert(list.push(id)[j] == other);
        }
        assert(list.push(id)[list.len() as int] == id);
    }
}

/// Whether no node holds itself. What holds nothing is settled, and then
/// what holds only what is settled, until nothing is left or nothing more
/// settles.
fn no_circles(nodes: &Vec<(i64, i64)>, edges: &Vec<(i64, i64)>, Ghost(db): Ghost<Db>) -> (holds: bool)
    requires
        db.lists_nodes(nodes@),
        lists_edges(db, edges@),
        db.fields_join(),
        db.items_join(),
    ensures
        holds == db.acyclic(),
{
    let mut settled: SortedSet<i64> = SortedSet::new();
    let mut left: Vec<i64> = Vec::new();
    let mut i: usize = 0;
    while i < nodes.len()
        invariant
            i <= nodes@.len(),
            left@.len() == i,
            forall|j: int| 0 <= j < i ==> #[trigger] left@[j] == nodes@[j].0,
        decreases nodes@.len() - i,
    {
        left.push(nodes[i].0);
        i += 1;
    }
    proof {
        assert forall|id: i64| #[trigger] db.nodes.contains_key(id) implies left@.contains(id) by {
            let j = choose|j: int| 0 <= j < nodes@.len() && (#[trigger] nodes@[j]).0 == id;
            assert(left@[j] == id);
        }
        assert forall|id: i64| #[trigger] left@.contains(id) implies db.nodes.contains_key(id) by {
            let j = choose|j: int| 0 <= j < left@.len() && left@[j] == id;
            assert(db.nodes.contains_key(nodes@[j].0));
        }
    }
    let ghost mut rank: spec_fn(i64) -> nat = |id: i64| 0nat;
    let ghost mut bound: nat = 0;
    while left.len() > 0
        invariant
            lists_edges(db, edges@),
            db.fields_join(),
            db.items_join(),
            settled.wf(),
            forall|id: i64| #[trigger]
                db.nodes.contains_key(id) ==> settled@.contains(id) || left@.contains(id),
            forall|id: i64| #[trigger]
                left@.contains(id) ==> db.nodes.contains_key(id) && !settled@.contains(id),
            settles_by(db, settled@, rank, bound),
        decreases left@.len(),
    {
        let held = waiting(edges, &settled, Ghost(db));
        let ghost before = settled@;
        let rest = settle(&left, &held, &mut settled);
        if rest.len() == left.len() {
            proof {
                assert forall|id: i64| #[trigger]
                    db.nodes.contains_key(id) && !before.contains(id) implies waits(
                    db,
                    before,
                    id,
                ) by {
                    assert(left@.contains(id));
                    assert(rest@.contains(id));
                    assert(held@.contains(id));
                }
                if db.acyclic() {
                    let (falls, under) = db.ranking();
                    ranks_fall(db);
                    assert(left@.contains(left@[0]));
                    none_waits(db, before, falls, under, left@[0]);
                }
            }
            return false;
        }
        proof {
            let was = rank;
            let now = bound;
            rank = |id: i64|
                if before.contains(id) {
                    was(id)
                } else {
                    now
                };
            bound = now + 1;
            assert forall|parent: i64, child: i64| #[trigger]
                db.edge(parent, child) && settled@.contains(parent) implies settled@.contains(child)
                && rank(child) < rank(parent) by {
                if !before.contains(parent) {
                    assert(!held@.contains(parent));
                    assert(!waits(db, before, parent));
                    assert(before.contains(child));
                } else {
                    assert(before.contains(child));
                }
            }
            assert forall|id: i64| #[trigger] settled@.contains(id) implies rank(id) < bound by {}
        }
        left = rest;
    }
    proof {
        assert(db.ranked_by(rank, bound)) by {
            assert forall|id: i64| #[trigger] db.nodes.contains_key(id) implies rank(id) < bound by {
                assert(settled@.contains(id));
            }
            assert forall|id: i64, k: Seq<char>| #[trigger]
                db.fields.contains_key((id, k)) implies rank(db.fields[(id, k)]) < rank(id) by {
                assert(db.edge(id, db.fields[(id, k)]));
                assert(db.nodes.contains_key(id));
                assert(settled@.contains(id));
            }
            assert forall|id: i64, i: i64| #[trigger] db.items.contains_key((id, i)) implies rank(
                db.items[(id, i)],
            ) < rank(id) by {
                assert(db.edge(id, db.items[(id, i)]));
                assert(db.nodes.contains_key(id));
                assert(settled@.contains(id));
            }
        }
    }
    true
}

impl<R: Rows> SqliteStorage<R> {
    /// The store that `rows` keep, where their edges and roots hold
    /// together; what is wrong with them, where they do not.
    pub fn audited(rows: R) -> (storage: Result<Self, RowError<R::Error>>)
        requires
            rows.wf(),
            !rows.open(),
        ensures
            match storage {
                Ok(storage) => storage.sound() && storage.rows == rows,
                Err(RowError::Corrupt(why)) => rows.db().fault() == Some(why),
                Err(RowError::Rows(_)) => true,
            },
            rows.db().fault() is None ==> storage is Ok || storage->Err_0 is Rows,
    {
        proof {
            sound_is_faultless(rows.db());
        }
        let nodes = match rows.all_nodes() {
            Ok(nodes) => nodes,
            Err(e) => {
                return Err(RowError::Rows(e));
            },
        };
        let fields = match rows.all_fields() {
            Ok(fields) => fields,
            Err(e) => {
                return Err(RowError::Rows(e));
            },
        };
        let items = match rows.all_items() {
            Ok(items) => items,
            Err(e) => {
                return Err(RowError::Rows(e));
            },
        };
        let kinds = kinds_of(&nodes, Ghost(rows.db()));
        if !join_fields(&kinds, &fields, Ghost(rows.db())) {
            return Err(RowError::Corrupt("an edge of a table that joins no nodes"));
        }
        if !join_items(&kinds, &items, Ghost(rows.db())) {
            return Err(RowError::Corrupt("an edge of an array that joins no nodes"));
        }
        if !run_places(&items, Ghost(rows.db())) {
            return Err(RowError::Corrupt("an array with a gap"));
        }
        match stand_roots(&rows, &kinds) {
            Ok(true) => {},
            Ok(false) => {
                return Err(RowError::Corrupt("a root that is no node of a version"));
            },
            Err(e) => {
                return Err(RowError::Rows(e));
            },
        }
        let edges = all_edges(&fields, &items, Ghost(rows.db()));
        if !no_circles(&nodes, &edges, Ghost(rows.db())) {
            return Err(RowError::Corrupt("a node that holds itself"));
        }
        Ok(SqliteStorage::new(rows))
    }
}

} // verus!
