//! Values as graphs of rows: storing them, reading them back, and copying
//! the nodes on a path.

use vstd::prelude::*;

use crate::msg::{value_view, AmendOp, Amendment, IncrementDecrement, Predicate};
use crate::order::SortedMap;
use crate::storage::rows::{
    growing_by_nothing, growing_keeps_trees, growing_twice, one_length, ranks_fall, Db, Node, Rows,
    ARRAY, LEAF, TABLE,
};
use crate::storage::value::{
    amend_fits, amend_fits_below, amend_fits_here, amended, amended_here, kind, kind_of,
    set_fits, set_fits_below, spared, written,
};
use crate::storage::NodeKind;
use crate::subkey::{steps, Step, Subkey};
use crate::tree::{child, walked, with_child, without_child};
use crate::value::{
    array_tree, entries_are_smaller, entry_count, entry_value, field_is_smaller, fields_tree,
    item_is_smaller, items_tree, table_tree, Tree, Value,
};

verus! {

/// What reading or writing rows can fail with.
#[derive(Debug, PartialEq, Eq)]
pub enum RowError<E> {
    /// The rows could not be read or written.
    Rows(E),
    /// What the rows hold violates their invariants.
    Corrupt(&'static str),
}

impl<E> RowError<E> {
    /// Whether it is that an array is too long for its places to be
    /// numbered.
    pub open spec fn unnumbered(self) -> bool {
        self == RowError::<E>::Corrupt("array lengths fit an i64")
    }
}

/// Whether a value holds an array too long for its places to be numbered.
pub open spec fn overlong(value: Value) -> bool
    decreases value, entry_count(value) + 1,
{
    ||| value is Array && entry_count(value) > i64::MAX
    ||| overlong_within(value, entry_count(value))
}

/// Whether one of the first `k` entries of a container does.
pub open spec fn overlong_within(value: Value, k: nat) -> bool
    decreases value, k,
{
    if k == 0 || k > entry_count(value) {
        false
    } else {
        proof {
            entries_are_smaller(value, k - 1);
        }
        overlong_within(value, (k - 1) as nat) || overlong(entry_value(value, k - 1))
    }
}

/// A container is overlong where an entry of it is.
proof fn an_entry_is_overlong(value: Value, i: int, k: nat)
    requires
        0 <= i < k <= entry_count(value),
        overlong(entry_value(value, i)),
    ensures
        overlong_within(value, k),
    decreases k,
{
    if i < k - 1 {
        an_entry_is_overlong(value, i, (k - 1) as nat);
    }
}

/// Whether a change makes an array in `tree` too long for its places to be
/// numbered, or appends a value that holds one.
pub open spec fn outgrows(tree: Tree, path: Seq<Step>, op: AmendOp) -> bool {
    op matches AmendOp::AppendEntry(entry) && {
        ||| overlong(entry)
        ||| walked(tree, path) matches Some(Tree::Array(items)) && items.len() >= i64::MAX
    }
}

/// How many nodes a value is made of.
pub open spec fn size(value: Value) -> nat
    decreases value, entry_count(value) + 1,
{
    1 + sizes(value, entry_count(value))
}

/// How many nodes the first `k` entries of a container are made of.
pub open spec fn sizes(value: Value, k: nat) -> nat
    decreases value, k,
{
    if k == 0 || k > entry_count(value) {
        0
    } else {
        proof {
            entries_are_smaller(value, k - 1);
        }
        sizes(value, (k - 1) as nat) + size(entry_value(value, k - 1))
    }
}

/// How many nodes setting or clearing a value takes, those on the path
/// aside.
pub open spec fn set_size(value: Option<Value>) -> nat {
    match value {
        Some(value) => size(value),
        None => 0,
    }
}

/// How many nodes a change takes, those on the path to it aside: what it
/// leaves, and the entry it appends.
pub open spec fn amend_size(op: AmendOp) -> nat {
    match op {
        AmendOp::AppendEntry(entry) => size(entry) + 1,
        _ => 1,
    }
}

/// The kind of node a number marks.
pub open spec fn kind_read(code: i64) -> Option<NodeKind> {
    if code == LEAF {
        Some(NodeKind::Leaf)
    } else if code == TABLE {
        Some(NodeKind::Table)
    } else if code == ARRAY {
        Some(NodeKind::Array)
    } else {
        None
    }
}

/// Reads the number a row is marked with.
pub fn kind_from<E>(code: i64) -> (kind: Result<NodeKind, RowError<E>>)
    ensures
        match kind {
            Ok(kind) => kind_read(code) == Some(kind),
            Err(e) => kind_read(code) is None && e == RowError::<E>::Corrupt("unknown node kind"),
        },
{
    if code == LEAF {
        Ok(NodeKind::Leaf)
    } else if code == TABLE {
        Ok(NodeKind::Table)
    } else if code == ARRAY {
        Ok(NodeKind::Array)
    } else {
        Err(RowError::Corrupt("unknown node kind"))
    }
}

impl Db {
    /// Whether `after` has just one node more, `id`, whose edges lead to
    /// nodes that were there before.
    pub open spec fn one_more(self, after: Db, id: i64, code: i64) -> bool {
        &&& id > 0
        &&& code == TABLE || code == ARRAY
        &&& forall|older: i64| #[trigger] self.nodes.contains_key(older) ==> older < id
        &&& after.nodes == self.nodes.insert(id, Node { code, leaf: None })
        &&& forall|p: i64, k: Seq<char>|
            #![trigger after.fields.contains_key((p, k))]
            #![trigger self.fields.contains_key((p, k))]
            p != id ==> after.fields.contains_key((p, k)) == self.fields.contains_key((p, k)) && (
            self.fields.contains_key((p, k)) ==> after.fields[(p, k)] == self.fields[(p, k)])
        &&& forall|p: i64, i: i64|
            #![trigger after.items.contains_key((p, i))]
            #![trigger self.items.contains_key((p, i))]
            p != id ==> after.items.contains_key((p, i)) == self.items.contains_key((p, i)) && (
            self.items.contains_key((p, i)) ==> after.items[(p, i)] == self.items[(p, i)])
        &&& forall|k: Seq<char>| #[trigger]
            after.fields.contains_key((id, k)) ==> code == TABLE && self.nodes.contains_key(
                after.fields[(id, k)],
            )
        &&& forall|i: i64| #[trigger]
            after.items.contains_key((id, i)) ==> code == ARRAY && self.nodes.contains_key(
                after.items[(id, i)],
            )
        &&& exists|n: nat| after.spans(id, n) && n <= i64::MAX
        &&& after.versions == self.versions
        &&& after.roots == self.roots
        &&& after.log == self.log
    }
}

impl Db {
    /// Whether `after` has at most `n` nodes that this has not.
    pub open spec fn adds(self, after: Db, n: nat) -> bool {
        let added = after.nodes.dom().difference(self.nodes.dom());
        added.finite() && added.len() <= n
    }

    /// Whether `id` is newer than every node of this, and the newest of
    /// `after`.
    pub open spec fn tops(self, after: Db, id: i64) -> bool {
        &&& after.nodes.contains_key(id)
        &&& forall|older: i64| #[trigger] self.nodes.contains_key(older) ==> older < id
        &&& forall|other: i64| #[trigger] after.nodes.contains_key(other) ==> other <= id
    }
}

/// One node more is one node more, and the newest.
proof fn one_is_added(before: Db, after: Db, id: i64)
    requires
        forall|older: i64| #[trigger] before.nodes.contains_key(older) ==> older < id,
        after.nodes.dom() == before.nodes.dom().insert(id),
    ensures
        before.adds(after, 1),
        before.tops(after, id),
{
    assert(!before.nodes.contains_key(id));
    assert(after.nodes.dom().contains(id));
    assert(after.nodes.dom().difference(before.nodes.dom()) =~= set![id]);
    assert forall|other: i64| #[trigger] after.nodes.contains_key(other) implies other <= id by {
        assert(after.nodes.dom().contains(other));
    }
}

/// What is added adds up.
pub proof fn adding_twice(a: Db, b: Db, c: Db, m: nat, n: nat)
    requires
        a.adds(b, m),
        b.adds(c, n),
    ensures
        a.adds(c, m + n),
{
    let one = b.nodes.dom().difference(a.nodes.dom());
    let other = c.nodes.dom().difference(b.nodes.dom());
    let both = c.nodes.dom().difference(a.nodes.dom());
    vstd::set_lib::lemma_set_union_finite_iff(one, other);
    vstd::set_lib::lemma_len_union(one, other);
    assert(both.subset_of(one.union(other)));
    vstd::set_lib::lemma_set_subset_finite(one.union(other), both);
    vstd::set_lib::lemma_len_subset(both, one.union(other));
}

/// Nothing added is nothing added.
pub proof fn adding_nothing(a: Db, b: Db)
    requires
        b.nodes.dom() == a.nodes.dom(),
    ensures
        a.adds(b, 0),
{
    assert(b.nodes.dom().difference(a.nodes.dom()) =~= Set::<i64>::empty());
}

/// A node that was not there, whose edges lead to nodes that were, holds no
/// node that holds it.
proof fn one_more_stays_acyclic(before: Db, after: Db, id: i64)
    requires
        before.sound(),
        !before.nodes.contains_key(id),
        forall|p: i64| #[trigger]
            after.nodes.contains_key(p) && p != id ==> before.nodes.contains_key(p),
        forall|p: i64, k: Seq<char>| #[trigger]
            after.fields.contains_key((p, k)) ==> if p == id {
                before.nodes.contains_key(after.fields[(p, k)])
            } else {
                before.fields.contains_key((p, k)) && before.fields[(p, k)] == after.fields[(p, k)]
            },
        forall|p: i64, i: i64| #[trigger]
            after.items.contains_key((p, i)) ==> if p == id {
                before.nodes.contains_key(after.items[(p, i)])
            } else {
                before.items.contains_key((p, i)) && before.items[(p, i)] == after.items[(p, i)]
            },
    ensures
        after.acyclic(),
{
    ranks_fall(before);
    let (rank, bound) = before.ranking();
    let raised = |p: i64|
        if p == id {
            bound
        } else {
            rank(p)
        };
    assert(after.ranked_by(raised, bound + 1)) by {
        assert forall|p: i64, k: Seq<char>| #[trigger] after.fields.contains_key((p, k)) implies raised(
            after.fields[(p, k)],
        ) < raised(p) by {
            assert(before.nodes.contains_key(after.fields[(p, k)]));
        }
        assert forall|p: i64, i: i64| #[trigger] after.items.contains_key((p, i)) implies raised(
            after.items[(p, i)],
        ) < raised(p) by {
            assert(before.nodes.contains_key(after.items[(p, i)]));
        }
    }
}

/// One node more is as sound, and means what its children mean.
pub proof fn one_more_is_sound(before: Db, after: Db, id: i64, code: i64)
    requires
        before.sound(),
        before.one_more(after, id, code),
    ensures
        after.sound(),
        before.grows(after),
        before.adds(after, 1),
        before.tops(after, id),
        code == TABLE ==> after.tree(id) == Tree::Table(
            Map::new(
                |k: Seq<char>| after.fields.contains_key((id, k)),
                |k: Seq<char>| before.tree(after.fields[(id, k)]),
            ),
        ),
        code == ARRAY ==> after.spans(id, after.len(id)) && after.len(id) <= i64::MAX
            && after.tree(id) == Tree::Array(
            Seq::new(after.len(id), |i: int| before.tree(after.items[(id, i as i64)])),
        ),
{
    assert(after.nodes.dom() =~= before.nodes.dom().insert(id));
    one_is_added(before, after, id);
    assert(!before.nodes.contains_key(id));
    one_more_stays_acyclic(before, after, id);
    ranks_fall(after);
    assert forall|p: i64, k: Seq<char>| #[trigger] after.fields.contains_key((p, k)) implies {
        &&& after.nodes.contains_key(p)
        &&& after.nodes[p].code == TABLE
        &&& after.nodes.contains_key(after.fields[(p, k)])
        &&& after.rank(after.fields[(p, k)]) < after.rank(p)
    } by {
        if p != id {
            assert(before.fields.contains_key((p, k)));
        }
    }
    assert forall|p: i64, i: i64| #[trigger] after.items.contains_key((p, i)) implies {
        &&& after.nodes.contains_key(p)
        &&& after.nodes[p].code == ARRAY
        &&& after.nodes.contains_key(after.items[(p, i)])
        &&& after.rank(after.items[(p, i)]) < after.rank(p)
    } by {
        if p != id {
            assert(before.items.contains_key((p, i)));
        }
    }
    assert forall|p: i64| #[trigger] after.nodes.contains_key(p) implies after.node_sound(p) by {
        if p != id {
            assert(before.nodes.contains_key(p));
            assert(before.node_sound(p));
            if before.nodes[p].code == ARRAY {
                let n = choose|n: nat| before.spans(p, n) && n <= i64::MAX;
                assert(after.spans(p, n)) by {
                    assert forall|i: i64| #[trigger] after.items.contains_key((p, i)) <==> 0 <= i
                        < n by {
                        assert(after.items.contains_key((p, i)) == before.items.contains_key(
                            (p, i),
                        ));
                    }
                }
            }
        }
    }
    assert(before.shares(after, before.nodes.dom())) by {
        assert forall|p: i64, k: Seq<char>|
            #![trigger before.fields.contains_key((p, k))]
            #![trigger after.fields.contains_key((p, k))]
            before.nodes.dom().contains(p) implies {
            &&& before.fields.contains_key((p, k)) == after.fields.contains_key((p, k))
            &&& before.fields.contains_key((p, k)) ==> {
                &&& after.fields[(p, k)] == before.fields[(p, k)]
                &&& before.nodes.dom().contains(before.fields[(p, k)])
            }
        } by {
            assert(p != id);
        }
        assert forall|p: i64, i: i64|
            #![trigger before.items.contains_key((p, i))]
            #![trigger after.items.contains_key((p, i))]
            before.nodes.dom().contains(p) implies {
            &&& before.items.contains_key((p, i)) == after.items.contains_key((p, i))
            &&& before.items.contains_key((p, i)) ==> {
                &&& after.items[(p, i)] == before.items[(p, i)]
                &&& before.nodes.dom().contains(before.items[(p, i)])
            }
        } by {
            assert(p != id);
        }
    }
    if code == TABLE {
        let have = after.tree(id)->Table_0;
        let want = Map::new(
            |k: Seq<char>| after.fields.contains_key((id, k)),
            |k: Seq<char>| before.tree(after.fields[(id, k)]),
        );
        assert forall|k: Seq<char>|
            #![trigger have.dom().contains(k)]
            #![trigger want.dom().contains(k)]
            #![trigger have[k]]
            #![trigger want[k]]
            have.dom().contains(k) == want.dom().contains(k) && (have.dom().contains(k) ==> have[k]
                == want[k]) by {
            if after.fields.contains_key((id, k)) {
                growing_keeps_trees(before, after, after.fields[(id, k)]);
            }
        }
        assert(have =~= want);
    } else {
        let n = choose|n: nat| after.spans(id, n) && n <= i64::MAX;
        one_length(after, id, n);
        let have = after.tree(id)->Array_0;
        let want = Seq::new(after.len(id), |i: int| before.tree(after.items[(id, i as i64)]));
        assert forall|i: int| 0 <= i < n implies #[trigger] have[i] == want[i] by {
            assert(after.items.contains_key((id, i as i64)));
            growing_keeps_trees(before, after, after.items[(id, i as i64)]);
        }
        assert(have =~= want);
    }
}

/// A leaf more is as sound.
pub proof fn a_leaf_more_is_sound(before: Db, after: Db, id: i64, tree: Tree)
    requires
        before.sound(),
        id > 0,
        forall|older: i64| #[trigger] before.nodes.contains_key(older) ==> older < id,
        kind_of(tree) == NodeKind::Leaf,
        after == (Db {
            nodes: before.nodes.insert(id, Node { code: LEAF, leaf: Some(tree) }),
            ..before
        }),
    ensures
        after.sound(),
        before.grows(after),
        before.adds(after, 1),
        before.tops(after, id),
        after.tree(id) == tree,
{
    assert(after.nodes.dom() =~= before.nodes.dom().insert(id));
    one_is_added(before, after, id);
    assert(!before.nodes.contains_key(id));
    one_more_stays_acyclic(before, after, id);
    ranks_fall(after);
    assert forall|p: i64| #[trigger] after.nodes.contains_key(p) implies after.node_sound(p) by {
        if p != id {
            assert(before.nodes.contains_key(p));
            assert(before.node_sound(p));
            if before.nodes[p].code == ARRAY {
                let n = choose|n: nat| before.spans(p, n) && n <= i64::MAX;
                assert(after.spans(p, n));
            }
        }
    }
}

/// A node newly inserted is one more, as yet without edges.
proof fn a_bare_node_is_one_more(before: Db, after: Db, id: i64, code: i64)
    requires
        before.sound(),
        id > 0,
        code == TABLE || code == ARRAY,
        forall|older: i64| #[trigger] before.nodes.contains_key(older) ==> older < id,
        after == (Db {
            nodes: before.nodes.insert(id, Node { code, leaf: None }),
            ..before
        }),
    ensures
        before.one_more(after, id, code),
        after.spans(id, 0),
        forall|k: Seq<char>| !#[trigger] after.fields.contains_key((id, k)),
{
    assert(!before.nodes.contains_key(id));
    assert forall|i: i64| #[trigger] after.items.contains_key((id, i)) <==> 0 <= i < 0nat by {
        if before.items.contains_key((id, i)) {
            assert(before.nodes.contains_key(id));
        }
    }
    assert(after.spans(id, 0));
    assert forall|k: Seq<char>| !#[trigger] after.fields.contains_key((id, k)) by {
        if before.fields.contains_key((id, k)) {
            assert(before.nodes.contains_key(id));
        }
    }
}

/// Reads a node's row, which an edge or a root leads to.
pub fn node<R: Rows>(rows: &R, id: i64) -> (node: Result<(NodeKind, Option<Value>), RowError<
    R::Error,
>>)
    requires
        rows.wf(),
        rows.db().sound(),
        rows.db().nodes.contains_key(id),
    ensures
        node matches Err(e) ==> e is Rows || !rows.db().legible(id),
        node matches Ok((kind, leaf)) ==> {
            &&& kind == kind_of(rows.db().tree(id))
            &&& kind_read(rows.db().nodes[id].code) == Some(kind)
            &&& leaf matches Some(value) ==> value.wf() && Some(value.tree())
                == rows.db().nodes[id].leaf
            &&& leaf is None ==> rows.db().nodes[id].leaf is None
        },
{
    proof {
        assert(rows.db().node_sound(id));
    }
    match rows.node(id) {
        Ok(Some(row)) => match kind_from(row.code) {
            Ok(kind) => Ok((kind, row.leaf)),
            Err(e) => Err(e),
        },
        Ok(None) => Err(RowError::Corrupt("edge references a missing node")),
        Err(e) => Err(RowError::Rows(e)),
    }
}

/// The kind of a node.
pub fn node_kind<R: Rows>(rows: &R, id: i64) -> (kind: Result<NodeKind, RowError<R::Error>>)
    requires
        rows.wf(),
        rows.db().sound(),
        rows.db().nodes.contains_key(id),
    ensures
        kind matches Err(e) ==> e is Rows || !rows.db().legible(id),
        kind matches Ok(kind) ==> kind == kind_of(rows.db().tree(id)) && kind_read(
            rows.db().nodes[id].code,
        ) == Some(kind),
{
    match node(rows, id) {
        Ok((kind, _)) => Ok(kind),
        Err(e) => Err(e),
    }
}

/// Whether a transaction goes on, with nothing but nodes added: at most
/// `cost` of them, of which `id` is the newest.
pub open spec fn grown<R: Rows>(before: R, after: R, id: i64, cost: nat) -> bool {
    &&& after.db().sound()
    &&& before.db().grows(after.db())
    &&& before.db().adds(after.db(), cost)
    &&& before.db().tops(after.db(), id)
}

/// Stores a leaf.
fn insert_leaf<R: Rows>(rows: &mut R, value: &Value) -> (id: Result<i64, RowError<R::Error>>)
    requires
        old(rows).wf(),
        old(rows).open(),
        old(rows).db().sound(),
        value.wf(),
        kind_of(value.tree()) == NodeKind::Leaf,
    ensures
        id matches Err(e) ==> e is Rows,
        final(rows).wf(),
        final(rows).open(),
        final(rows).kept() == old(rows).kept(),
        id matches Ok(id) ==> grown(*old(rows), *final(rows), id, 1)
            && final(rows).db().tree(id)
            == value.tree(),
{
    let ghost before = rows.db();
    match rows.insert_node(LEAF, Some(value)) {
        Ok(id) => {
            proof {
                a_leaf_more_is_sound(before, rows.db(), id, value.tree());
            }
            Ok(id)
        },
        Err(e) => Err(RowError::Rows(e)),
    }
}

/// Stores `value` as a fresh graph, yielding its root.
pub fn insert_value<R: Rows>(rows: &mut R, value: &Value) -> (id: Result<i64, RowError<R::Error>>)
    requires
        old(rows).wf(),
        old(rows).open(),
        old(rows).db().sound(),
        value.wf(),
    ensures
        id matches Err(e) ==> e is Rows || (e.unnumbered() && overlong(*value)),
        final(rows).wf(),
        final(rows).open(),
        final(rows).kept() == old(rows).kept(),
        id matches Ok(id) ==> grown(*old(rows), *final(rows), id, size(*value))
            && final(rows).db().tree(id)
            == value.tree(),
    decreases value,
{
    match value {
        Value::Table(fields) => {
            let ghost first = rows.db();
            let n: usize = fields.entries.len();
            let mut children: Vec<(String, i64)> = Vec::new();
            let mut i: usize = 0;
            proof {
                growing_by_nothing(first);
                adding_nothing(first, first);
            }
            while i < n
                invariant
                    i <= n == fields.entries@.len(),
                    *value == Value::Table(*fields),
                    value.wf(),
                    rows.wf(),
                    rows.open(),
                    rows.kept() == old(rows).kept(),
                    rows.db().sound(),
                    first.sound(),
                    first == old(rows).db(),
                    first.grows(rows.db()),
                    first.adds(rows.db(), sizes(*value, i as nat)),
                    children@.len() == i,
                    forall|j: int|
                        0 <= j < i ==> (#[trigger] children@[j]).0@ == fields.entries@[j].0@
                            && rows.db().nodes.contains_key(children@[j].1) && rows.db().tree(
                            children@[j].1,
                        ) == fields.entries@[j].1.tree(),
                decreases n - i,
            {
                proof {
                    field_is_smaller(*value, i as int);
                    assert(value->Table_0.entries@[i as int].1.wf());
                }
                let ghost before = rows.db();
                match insert_value(rows, &fields.entries[i].1) {
                    Ok(child) => {
                        proof {
                            growing_twice(first, before, rows.db());
                            adding_twice(
                                first,
                                before,
                                rows.db(),
                                sizes(*value, i as nat),
                                size(entry_value(*value, i as int)),
                            );
                            assert forall|j: int| 0 <= j < i implies (
                            #[trigger] children@[j]).0@ == fields.entries@[j].0@
                                && rows.db().nodes.contains_key(children@[j].1) && rows.db().tree(
                                children@[j].1,
                            ) == fields.entries@[j].1.tree() by {
                                growing_keeps_trees(before, rows.db(), children@[j].1);
                            }
                        }
                        children.push((fields.entries[i].0.clone(), child));
                    },
                    Err(e) => {
                        proof {
                            if e.unnumbered() {
                                an_entry_is_overlong(*value, i as int, n as nat);
                            }
                        }
                        return Err(e);
                    },
                }
                i += 1;
            }
            let ghost base = rows.db();
            proof {
                assert forall|a: int, b: int| 0 <= a < b < n implies (#[trigger] children@[a]).0@
                    != (#[trigger] children@[b]).0@ by {
                    if fields.entries@[a].0@ == fields.entries@[b].0@ {
                        fields.filed_once(a, fields.entries@[a].0@);
                        fields.filed_once(b, fields.entries@[a].0@);
                    }
                }
            }
            match insert_table(rows, &children) {
                Ok(id) => {
                    proof {
                        let after = rows.db();
                        growing_twice(old(rows).db(), base, after);
                        adding_twice(old(rows).db(), base, after, sizes(*value, n as nat), 1);
                        table_tree(*fields);
                        let have = after.tree(id)->Table_0;
                        let want = fields_tree(*fields);
                        assert forall|k: Seq<char>|
                            #![trigger have.dom().contains(k)]
                            #![trigger want.dom().contains(k)]
                            #![trigger have[k]]
                            #![trigger want[k]]
                            have.dom().contains(k) == want.dom().contains(k) && (
                            have.dom().contains(k) ==> have[k] == want[k]) by {
                            if have.contains_key(k) {
                                let j = choose|j: int|
                                    0 <= j < n && (#[trigger] children@[j]).0@ == k;
                                assert(fields.entries@[j].0@ == k);
                                fields.filed_once(j, k);
                            }
                            if fields@.contains_key(k) {
                                fields.filed_somewhere(k);
                                assert(children@[fields.index_of(k)].0@ == k);
                            }
                        }
                        assert(have =~= want);
                    }
                    Ok(id)
                },
                Err(e) => Err(e),
            }
        },
        Value::Array(items) => {
            let ghost first = rows.db();
            let n: usize = items.len();
            let mut children: Vec<i64> = Vec::new();
            let mut i: usize = 0;
            proof {
                growing_by_nothing(first);
                adding_nothing(first, first);
            }
            while i < n
                invariant
                    i <= n == items@.len(),
                    *value == Value::Array(*items),
                    value.wf(),
                    rows.wf(),
                    rows.open(),
                    rows.kept() == old(rows).kept(),
                    rows.db().sound(),
                    first.sound(),
                    first == old(rows).db(),
                    first.grows(rows.db()),
                    first.adds(rows.db(), sizes(*value, i as nat)),
                    children@.len() == i,
                    forall|j: int|
                        0 <= j < i ==> rows.db().nodes.contains_key(#[trigger] children@[j])
                            && rows.db().tree(children@[j]) == items@[j].tree(),
                decreases n - i,
            {
                proof {
                    item_is_smaller(*value, i as int);
                    assert(value->Array_0@[i as int].wf());
                }
                let ghost before = rows.db();
                match insert_value(rows, &items[i]) {
                    Ok(child) => {
                        proof {
                            growing_twice(first, before, rows.db());
                            adding_twice(
                                first,
                                before,
                                rows.db(),
                                sizes(*value, i as nat),
                                size(entry_value(*value, i as int)),
                            );
                            assert forall|j: int| 0 <= j < i implies rows.db().nodes.contains_key(
                                #[trigger] children@[j],
                            ) && rows.db().tree(children@[j]) == items@[j].tree() by {
                                growing_keeps_trees(before, rows.db(), children@[j]);
                            }
                        }
                        children.push(child);
                    },
                    Err(e) => {
                        proof {
                            if e.unnumbered() {
                                an_entry_is_overlong(*value, i as int, n as nat);
                            }
                        }
                        return Err(e);
                    },
                }
                i += 1;
            }
            let ghost base = rows.db();
            match insert_array(rows, &children) {
                Ok(id) => {
                    proof {
                        growing_twice(old(rows).db(), base, rows.db());
                        adding_twice(old(rows).db(), base, rows.db(), sizes(*value, n as nat), 1);
                        array_tree(*items);
                        assert(rows.db().tree(id)->Array_0 =~= items_tree(items@));
                    }
                    Ok(id)
                },
                Err(e) => Err(e),
            }
        },
        _ => insert_leaf(rows, value),
    }
}

impl Db {
    /// Whether `tree` is a table of what `entries` name.
    pub open spec fn lists(self, entries: Seq<(String, i64)>, tree: Tree) -> bool {
        &&& tree is Table
        &&& forall|j: int|
            0 <= j < entries.len() ==> tree->Table_0.contains_key((#[trigger] entries[j]).0@)
                && tree->Table_0[entries[j].0@] == self.tree(entries[j].1)
        &&& forall|k: Seq<char>| #[trigger]
            tree->Table_0.contains_key(k) ==> exists|j: int|
                0 <= j < entries.len() && (#[trigger] entries[j]).0@ == k
    }
}

/// Stores a table of nodes that are there.
fn insert_table<R: Rows>(rows: &mut R, entries: &Vec<(String, i64)>) -> (id: Result<
    i64,
    RowError<R::Error>,
>)
    requires
        old(rows).wf(),
        old(rows).open(),
        old(rows).db().sound(),
        forall|j: int|
            0 <= j < entries@.len() ==> old(rows).db().nodes.contains_key(
                (#[trigger] entries@[j]).1,
            ),
        forall|a: int, b: int|
            0 <= a < b < entries@.len() ==> (#[trigger] entries@[a]).0@ != (
            #[trigger] entries@[b]).0@,
    ensures
        id matches Err(e) ==> e is Rows,
        final(rows).wf(),
        final(rows).open(),
        final(rows).kept() == old(rows).kept(),
        id matches Ok(id) ==> {
            &&& grown(*old(rows), *final(rows), id, 1)
            &&& old(rows).db().lists(entries@, final(rows).db().tree(id))
        },
{
    let ghost base = rows.db();
    let n: usize = entries.len();
    let id: i64 = match rows.insert_node(TABLE, None) {
        Ok(id) => id,
        Err(e) => {
            return Err(RowError::Rows(e));
        },
    };
    proof {
        a_bare_node_is_one_more(base, rows.db(), id, TABLE);
    }
    let mut i: usize = 0;
    while i < n
        invariant
            i <= n == entries@.len(),
            rows.wf(),
            rows.open(),
            rows.kept() == old(rows).kept(),
            base.sound(),
            base.one_more(rows.db(), id, TABLE),
            forall|j: int| 0 <= j < n ==> base.nodes.contains_key((#[trigger] entries@[j]).1),
            forall|a: int, b: int|
                0 <= a < b < n ==> (#[trigger] entries@[a]).0@ != (#[trigger] entries@[b]).0@,
            forall|j: int|
                0 <= j < i ==> rows.db().fields.contains_key((id, (#[trigger] entries@[j]).0@))
                    && rows.db().fields[(id, entries@[j].0@)] == entries@[j].1,
            forall|k: Seq<char>| #[trigger]
                rows.db().fields.contains_key((id, k)) ==> exists|j: int|
                    0 <= j < i && (#[trigger] entries@[j]).0@ == k,
        decreases n - i,
    {
        let ghost before = rows.db();
        let ghost name = entries@[i as int].0@;
        assert(base.nodes.contains_key(entries@[i as int].1));
        match rows.insert_field(id, &entries[i].0, entries[i].1) {
            Ok(_) => {},
            Err(e) => {
                return Err(RowError::Rows(e));
            },
        }
        proof {
            let m = choose|m: nat| before.spans(id, m) && m <= i64::MAX;
            assert(rows.db().spans(id, m));
            assert(base.one_more(rows.db(), id, TABLE));
            assert forall|k: Seq<char>| #[trigger]
                rows.db().fields.contains_key((id, k)) implies exists|j: int|
                0 <= j < i + 1 && (#[trigger] entries@[j]).0@ == k by {
                if k == name {
                    assert(entries@[i as int].0@ == k);
                } else {
                    assert(before.fields.contains_key((id, k)));
                }
            }
        }
        i += 1;
    }
    proof {
        one_more_is_sound(base, rows.db(), id, TABLE);
    }
    Ok(id)
}

/// Stores an array of nodes that are there.
fn insert_array<R: Rows>(rows: &mut R, children: &Vec<i64>) -> (id: Result<i64, RowError<R::Error>>)
    requires
        old(rows).wf(),
        old(rows).open(),
        old(rows).db().sound(),
        forall|j: int|
            0 <= j < children@.len() ==> old(rows).db().nodes.contains_key(
                #[trigger] children@[j],
            ),
    ensures
        id matches Err(e) ==> e is Rows || (e.unnumbered() && children@.len() > i64::MAX),
        final(rows).wf(),
        final(rows).open(),
        final(rows).kept() == old(rows).kept(),
        id matches Ok(id) ==> {
            &&& grown(*old(rows), *final(rows), id, 1)
            &&& final(rows).db().tree(id) == Tree::Array(
                children@.map_values(|child: i64| old(rows).db().tree(child)),
            )
        },
{
    let ghost base = rows.db();
    let n: usize = children.len();
    let id: i64 = match rows.insert_node(ARRAY, None) {
        Ok(id) => id,
        Err(e) => {
            return Err(RowError::Rows(e));
        },
    };
    proof {
        a_bare_node_is_one_more(base, rows.db(), id, ARRAY);
    }
    let mut i: usize = 0;
    while i < n
        invariant
            i <= n == children@.len(),
            i <= i64::MAX,
            rows.wf(),
            rows.open(),
            rows.kept() == old(rows).kept(),
            base.sound(),
            base.one_more(rows.db(), id, ARRAY),
            forall|j: int| 0 <= j < n ==> base.nodes.contains_key(#[trigger] children@[j]),
            rows.db().spans(id, i as nat),
            forall|j: int|
                0 <= j < i ==> rows.db().items[(id, j as i64)] == #[trigger] children@[j],
        decreases n - i,
    {
        if i as u64 >= i64::MAX as u64 {
            return Err(RowError::Corrupt("array lengths fit an i64"));
        }
        let ghost before = rows.db();
        assert(base.nodes.contains_key(children@[i as int]));
        match rows.insert_item(id, i as i64, children[i]) {
            Ok(_) => {},
            Err(e) => {
                return Err(RowError::Rows(e));
            },
        }
        proof {
            assert(rows.db().spans(id, (i + 1) as nat)) by {
                assert forall|j: i64| #[trigger] rows.db().items.contains_key((id, j)) <==> 0 <= j
                    < i + 1 by {
                    if j != i {
                        assert(rows.db().items.contains_key((id, j)) == before.items.contains_key(
                            (id, j),
                        ));
                    }
                }
            }
            assert(base.one_more(rows.db(), id, ARRAY));
        }
        i += 1;
    }
    proof {
        let after = rows.db();
        one_more_is_sound(base, after, id, ARRAY);
        one_length(after, id, n as nat);
        assert(after.tree(id)->Array_0 =~= children@.map_values(|child: i64| base.tree(child)));
    }
    Ok(id)
}

/// Materializes the value that `id` is the root of.
pub fn value_of<R: Rows>(rows: &R, id: i64) -> (value: Result<Value, RowError<R::Error>>)
    requires
        rows.wf(),
        rows.db().sound(),
        rows.db().nodes.contains_key(id),
    ensures
        value matches Err(e) ==> e is Rows || !rows.db().whole(),
        value matches Ok(value) ==> value.wf() && value.tree() == rows.db().tree(id),
    decreases rows.db().rank(id),
{
    let ghost db = rows.db();
    proof {
        assert(db.node_sound(id));
    }
    match node(rows, id) {
        Ok((NodeKind::Leaf, leaf)) => match leaf {
            Some(value) => match kind(&value) {
                NodeKind::Leaf => Ok(value),
                _ => Err(RowError::Corrupt("leaf node whose payload is no leaf")),
            },
            None => Err(RowError::Corrupt("leaf node without a payload")),
        },
        Ok((NodeKind::Table, _)) => {
            let children = match rows.fields(id) {
                Ok(children) => children,
                Err(e) => {
                    return Err(RowError::Rows(e));
                },
            };
            let n: usize = children.len();
            let mut read: SortedMap<String, Value> = SortedMap::new();
            let mut i: usize = 0;
            while i < n
                invariant
                    i <= n == children@.len(),
                    rows.wf(),
                    db == rows.db(),
                    db.sound(),
                    db.nodes.contains_key(id),
                    db.nodes[id].code == TABLE,
                    forall|j: int|
                        0 <= j < n ==> db.fields.contains_key((id, (#[trigger] children@[j]).0@))
                            && db.fields[(id, children@[j].0@)] == children@[j].1,
                    Value::Table(read).wf(),
                    forall|j: int|
                        0 <= j < i ==> read@.contains_key((#[trigger] children@[j]).0@),
                    forall|k: Seq<char>| #[trigger]
                        read@.contains_key(k) ==> db.fields.contains_key((id, k))
                            && read@[k].tree() == db.tree(db.fields[(id, k)]),
                decreases n - i,
            {
                let ghost name = children@[i as int].0@;
                proof {
                    assert(db.fields.contains_key((id, name)));
                }
                match value_of(rows, children[i].1) {
                    Ok(value) => {
                        let ghost before = read;
                        read.insert(children[i].0.clone(), value);
                        proof {
                            assert forall|j: int| 0 <= j < read.entries@.len() implies (
                            #[trigger] read.entries@[j]).1.wf() by {
                                let k = read.entries@[j].0@;
                                read.filed_once(j, k);
                                if k != name {
                                    before.filed_somewhere(k);
                                }
                            }
                        }
                    },
                    Err(e) => {
                        return Err(e);
                    },
                }
                i += 1;
            }
            proof {
                table_tree(read);
                let have = fields_tree(read);
                let want = db.tree(id)->Table_0;
                assert forall|k: Seq<char>|
                    #![trigger have.dom().contains(k)]
                    #![trigger want.dom().contains(k)]
                    #![trigger have[k]]
                    #![trigger want[k]]
                    have.dom().contains(k) == want.dom().contains(k) && (have.dom().contains(k)
                        ==> have[k] == want[k]) by {
                    if db.fields.contains_key((id, k)) {
                        let j = choose|j: int| 0 <= j < n && (#[trigger] children@[j]).0@ == k;
                        assert(read@.contains_key(children@[j].0@));
                    }
                }
                assert(have =~= want);
            }
            Ok(Value::Table(read))
        },
        Ok((NodeKind::Array, _)) => {
            let children = match rows.items(id) {
                Ok(children) => children,
                Err(e) => {
                    return Err(RowError::Rows(e));
                },
            };
            let n: usize = children.len();
            proof {
                let m = choose|m: nat| db.spans(id, m) && m <= i64::MAX;
                one_length(db, id, m);
                if m < n {
                    assert(!db.items.contains_key((id, m as i64)));
                }
                if n < m {
                    assert(db.items.contains_key((id, n as i64)));
                }
                assert(m == n);
            }
            let mut read: Vec<Value> = Vec::new();
            let mut i: usize = 0;
            while i < n
                invariant
                    i <= n == children@.len(),
                    n <= i64::MAX,
                    rows.wf(),
                    db == rows.db(),
                    db.sound(),
                    db.spans(id, n as nat),
                    forall|j: int|
                        0 <= j < n ==> db.items[(id, j as i64)] == #[trigger] children@[j],
                    read@.len() == i,
                    forall|j: int|
                        0 <= j < i ==> (#[trigger] read@[j]).wf() && read@[j].tree() == db.tree(
                            children@[j],
                        ),
                decreases n - i,
            {
                proof {
                    assert(db.items.contains_key((id, i as i64)));
                }
                match value_of(rows, children[i]) {
                    Ok(value) => {
                        read.push(value);
                    },
                    Err(e) => {
                        return Err(e);
                    },
                }
                i += 1;
            }
            proof {
                array_tree(read);
                let want = db.tree(id)->Array_0;
                assert forall|j: int| 0 <= j < n implies items_tree(read@)[j] == #[trigger] want[j] by {
                    assert(db.items.contains_key((id, j as i64)));
                    assert(children@[j] == db.items[(id, j as i64)]);
                }
                assert(items_tree(read@) =~= want);
            }
            Ok(Value::Array(read))
        },
        Err(e) => Err(e),
    }
}

/// What a node's edges say of its tree.
proof fn edges_are_children(db: Db, id: i64)
    requires
        db.sound(),
        db.nodes.contains_key(id),
    ensures
        db.nodes[id].code == TABLE ==> {
            &&& db.tree(id) is Table
            &&& forall|k: Seq<char>| #[trigger]
                db.fields.contains_key((id, k)) <==> db.tree(id)->Table_0.contains_key(k)
            &&& forall|k: Seq<char>| #[trigger]
                db.fields.contains_key((id, k)) ==> db.nodes.contains_key(db.fields[(id, k)])
                    && db.tree(id)->Table_0[k] == db.tree(db.fields[(id, k)])
        },
        db.nodes[id].code == ARRAY ==> {
            &&& db.tree(id) is Array
            &&& db.spans(id, db.tree(id)->Array_0.len())
            &&& db.tree(id)->Array_0.len() <= i64::MAX
            &&& forall|i: i64| #[trigger]
                db.items.contains_key((id, i)) ==> db.nodes.contains_key(db.items[(id, i)])
                    && db.tree(id)->Array_0[i as int] == db.tree(db.items[(id, i)])
        },
        db.nodes[id].code == LEAF ==> kind_of(db.tree(id)) == NodeKind::Leaf,
{
    assert(db.node_sound(id));
    if db.nodes[id].code == TABLE {
        assert forall|k: Seq<char>| #[trigger]
            db.fields.contains_key((id, k)) implies db.nodes.contains_key(db.fields[(id, k)])
            && db.tree(id)->Table_0[k] == db.tree(db.fields[(id, k)]) by {
        }
    } else if db.nodes[id].code == ARRAY {
        let n = choose|n: nat| db.spans(id, n) && n <= i64::MAX;
        one_length(db, id, n);
        assert forall|i: i64| #[trigger]
            db.items.contains_key((id, i)) implies db.nodes.contains_key(db.items[(id, i)])
            && db.tree(id)->Array_0[i as int] == db.tree(db.items[(id, i)]) by {
        }
    }
}

/// The child that a step leads to from a node of a kind it fits.
pub fn child_of<R: Rows>(rows: &R, id: i64, segment: &Subkey) -> (below: Result<
    Option<i64>,
    RowError<R::Error>,
>)
    requires
        rows.wf(),
        rows.db().sound(),
        rows.db().nodes.contains_key(id),
    ensures
        below matches Err(e) ==> e is Rows || !rows.db().legible(id),
        below matches Ok(below) ==> match below {
            Some(below) => {
                &&& rows.db().nodes.contains_key(below)
                &&& child(rows.db().tree(id), segment@) == Some(rows.db().tree(below))
            },
            None => child(rows.db().tree(id), segment@) is None,
        },
{
    proof {
        edges_are_children(rows.db(), id);
    }
    match node_kind(rows, id) {
        Ok(kind) => match (kind, segment) {
            (NodeKind::Table, Subkey::Key(name)) => match rows.field(id, name) {
                Ok(below) => Ok(below),
                Err(e) => Err(RowError::Rows(e)),
            },
            (NodeKind::Array, Subkey::Index(index)) => match rows.item(id, *index) {
                Ok(below) => Ok(below),
                Err(e) => Err(RowError::Rows(e)),
            },
            _ => Ok(None),
        },
        Err(e) => Err(e),
    }
}

/// A new table with the edges of `old`, the one under `name` leading to
/// `child` instead, or gone.
fn table_with<R: Rows>(rows: &mut R, table: i64, name: &String, child: Option<i64>) -> (id: Result<
    i64,
    RowError<R::Error>,
>)
    requires
        old(rows).wf(),
        old(rows).open(),
        old(rows).db().sound(),
        old(rows).db().nodes.contains_key(table),
        old(rows).db().nodes[table].code == TABLE,
        child matches Some(child) ==> old(rows).db().nodes.contains_key(child),
    ensures
        id matches Err(e) ==> e is Rows,
        final(rows).wf(),
        final(rows).open(),
        final(rows).kept() == old(rows).kept(),
        id matches Ok(id) ==> {
            &&& grown(*old(rows), *final(rows), id, 1)
            &&& final(rows).db().tree(id) == match child {
                Some(child) => with_child(
                    old(rows).db().tree(table),
                    Step::Key(name@),
                    old(rows).db().tree(child),
                ),
                None => without_child(old(rows).db().tree(table), Step::Key(name@)),
            }
        },
{
    let ghost base = rows.db();
    proof {
        edges_are_children(base, table);
    }
    let id: i64 = match rows.insert_node(TABLE, None) {
        Ok(id) => id,
        Err(e) => {
            return Err(RowError::Rows(e));
        },
    };
    let ghost bare = rows.db();
    proof {
        a_bare_node_is_one_more(base, bare, id, TABLE);
        assert(base.nodes.contains_key(table));
    }
    match rows.copy_fields(id, table, name) {
        Ok(_) => {},
        Err(e) => {
            return Err(RowError::Rows(e));
        },
    }
    let ghost copied = rows.db();
    if let Some(child) = child {
        match rows.insert_field(id, name, child) {
            Ok(_) => {},
            Err(e) => {
                return Err(RowError::Rows(e));
            },
        }
    }
    proof {
        let after = rows.db();
        assert(after.items == bare.items);
        let m = choose|m: nat| bare.spans(id, m) && m <= i64::MAX;
        assert(after.spans(id, m));
        assert forall|k: Seq<char>| #[trigger]
            after.fields.contains_key((id, k)) implies base.nodes.contains_key(
            after.fields[(id, k)],
        ) by {
            if k != name@ {
                assert(copied.fields.contains_key((id, k)));
                assert(base.fields.contains_key((table, k)));
            }
        }
        assert forall|p: i64, k: Seq<char>|
            #![trigger after.fields.contains_key((p, k))]
            #![trigger base.fields.contains_key((p, k))]
            p != id implies after.fields.contains_key((p, k)) == base.fields.contains_key((p, k))
            && (base.fields.contains_key((p, k)) ==> after.fields[(p, k)] == base.fields[(p, k)]) by {
            assert(copied.fields.contains_key((p, k)) == bare.fields.contains_key((p, k)));
        }
        assert(base.one_more(after, id, TABLE));
        one_more_is_sound(base, after, id, TABLE);
        let have = after.tree(id)->Table_0;
        let want = match child {
            Some(child) => base.tree(table)->Table_0.insert(name@, base.tree(child)),
            None => base.tree(table)->Table_0.remove(name@),
        };
        assert forall|k: Seq<char>|
            #![trigger have.dom().contains(k)]
            #![trigger want.dom().contains(k)]
            #![trigger have[k]]
            #![trigger want[k]]
            have.dom().contains(k) == want.dom().contains(k) && (have.dom().contains(k) ==> have[k]
                == want[k]) by {
            if k != name@ {
                assert(after.fields.contains_key((id, k)) == copied.fields.contains_key((id, k)));
                assert(copied.fields.contains_key((id, k)) == base.fields.contains_key((table, k)));
            } else {
                assert(!copied.fields.contains_key((id, k)));
            }
        }
        assert(have =~= want);
    }
    Ok(id)
}

/// A new array with the edges of `array`, the one at `index` leading to
/// `child` instead, or gone, later ones moved down.
fn array_with<R: Rows>(rows: &mut R, array: i64, index: u32, child: Option<i64>) -> (id: Result<
    i64,
    RowError<R::Error>,
>)
    requires
        old(rows).wf(),
        old(rows).open(),
        old(rows).db().sound(),
        old(rows).db().nodes.contains_key(array),
        old(rows).db().nodes[array].code == ARRAY,
        old(rows).db().items.contains_key((array, index as i64)),
        child matches Some(child) ==> old(rows).db().nodes.contains_key(child),
    ensures
        id matches Err(e) ==> e is Rows,
        final(rows).wf(),
        final(rows).open(),
        final(rows).kept() == old(rows).kept(),
        id matches Ok(id) ==> {
            &&& grown(*old(rows), *final(rows), id, 1)
            &&& final(rows).db().tree(id) == match child {
                Some(child) => with_child(
                    old(rows).db().tree(array),
                    Step::Index(index),
                    old(rows).db().tree(child),
                ),
                None => without_child(old(rows).db().tree(array), Step::Index(index)),
            }
        },
{
    let ghost base = rows.db();
    let ghost n = base.tree(array)->Array_0.len();
    proof {
        edges_are_children(base, array);
    }
    let id: i64 = match rows.insert_node(ARRAY, None) {
        Ok(id) => id,
        Err(e) => {
            return Err(RowError::Rows(e));
        },
    };
    let ghost bare = rows.db();
    proof {
        a_bare_node_is_one_more(base, bare, id, ARRAY);
        assert(base.nodes.contains_key(array));
        assert(bare.spans(array, n));
    }
    let done = match child {
        Some(child) => rows.copy_items_replacing(id, array, index, child),
        None => rows.copy_items_removing(id, array, index),
    };
    if let Err(e) = done {
        return Err(RowError::Rows(e));
    }
    proof {
        let after = rows.db();
        let m: nat = match child {
            Some(_) => n,
            None => (n - 1) as nat,
        };
        assert(after.spans(id, m)) by {
            assert forall|i: i64| #[trigger] after.items.contains_key((id, i)) <==> 0 <= i < m by {
                match child {
                    Some(_) => {
                        assert(bare.items.contains_key((array, i)) <==> 0 <= i < n);
                    },
                    None => {
                        if i < i64::MAX {
                            let from = crate::storage::rows::before_gap(i, index as i64);
                            assert(bare.items.contains_key((array, from)) <==> 0 <= from < n);
                        }
                    },
                }
            }
        }
        assert forall|i: i64| #[trigger] after.items.contains_key((id, i)) implies base.nodes.contains_key(
            after.items[(id, i)],
        ) by {
            match child {
                Some(_) => {
                    if i != index {
                        assert(base.items.contains_key((array, i)));
                    }
                },
                None => {
                    let from = crate::storage::rows::before_gap(i, index as i64);
                    assert(base.items.contains_key((array, from)));
                },
            }
        }
        assert forall|p: i64, i: i64|
            #![trigger after.items.contains_key((p, i))]
            #![trigger base.items.contains_key((p, i))]
            p != id implies after.items.contains_key((p, i)) == base.items.contains_key((p, i)) && (
        base.items.contains_key((p, i)) ==> after.items[(p, i)] == base.items[(p, i)]) by {
            assert(bare.items.contains_key((p, i)) == base.items.contains_key((p, i)));
        }
        assert(base.one_more(after, id, ARRAY));
        one_more_is_sound(base, after, id, ARRAY);
        one_length(after, id, m);
        let have = after.tree(id)->Array_0;
        let items = base.tree(array)->Array_0;
        let want = match child {
            Some(child) => items.update(index as int, base.tree(child)),
            None => items.remove(index as int),
        };
        assert forall|i: int| 0 <= i < m implies have[i] == #[trigger] want[i] by {
            match child {
                Some(_) => {
                    if i != index {
                        assert(base.items.contains_key((array, i as i64)));
                    }
                },
                None => {
                    let from = crate::storage::rows::before_gap(i as i64, index as i64);
                    assert(base.items.contains_key((array, from)));
                },
            }
        }
        assert(have =~= want);
    }
    Ok(id)
}

/// Copies the nodes along the rest of `path`, the first `depth` segments of
/// which led here, and sets or clears what it addresses.
pub fn set_node<R: Rows>(
    rows: &mut R,
    id: i64,
    path: &Vec<Subkey>,
    depth: usize,
    value: &Option<Value>,
) -> (root: Result<i64, RowError<R::Error>>)
    requires
        old(rows).wf(),
        old(rows).open(),
        old(rows).db().sound(),
        old(rows).db().nodes.contains_key(id),
        depth < path@.len(),
        value matches Some(value) ==> value.wf(),
        set_fits(old(rows).db().tree(id), steps(path@).skip(depth as int), value is Some),
    ensures
        root matches Err(e) ==> e is Rows || !old(rows).db().whole() || (e.unnumbered() && value is Some && overlong(
            value->0,
        )),
        final(rows).wf(),
        final(rows).open(),
        final(rows).kept() == old(rows).kept(),
        root matches Ok(root) ==> {
            &&& grown(*old(rows), *final(rows), root, (path@.len() - depth + set_size(*value)) as nat)
            &&& final(rows).db().tree(root) == written(
                old(rows).db().tree(id),
                steps(path@).skip(depth as int),
                value_view(*value),
            )
        },
    decreases path@.len() - depth,
{
    let ghost first = rows.db();
    let ghost rest = steps(path@).skip(depth as int);
    proof {
        edges_are_children(first, id);
        growing_by_nothing(first);
        adding_nothing(first, first);
        assert(rest[0] == path@[depth as int]@);
        assert(rest.skip(1) =~= steps(path@).skip(depth + 1));
        if rest.len() > 1 {
            set_fits_below(first.tree(id), rest, value is Some);
        } else {
            assert(rest.drop_last().len() == 0);
            assert(rest.last() == rest[0]);
        }
    }
    let below = match child_of(rows, id, &path[depth]) {
        Ok(below) => below,
        Err(e) => {
            return Err(e);
        },
    };
    // What takes the place of the child: nothing, where it is cleared.
    let last: bool = depth == path.len() - 1;
    let replacement: Option<i64> = if last {
        match value {
            Some(value) => match insert_value(rows, value) {
                Ok(child) => Some(child),
                Err(e) => {
                    return Err(e);
                },
            },
            None => None,
        }
    } else {
        match below {
            Some(below) => match set_node(rows, below, path, depth + 1, value) {
                Ok(child) => Some(child),
                Err(e) => {
                    return Err(e);
                },
            },
            None => {
                assert(false);
                return Err(RowError::Corrupt("every parent exists"));
            },
        }
    };
    let ghost base = rows.db();
    let ghost below_cost: nat = (path@.len() - depth - 1 + set_size(*value)) as nat;
    assert(first.adds(base, below_cost));
    proof {
        growing_keeps_trees(first, base, id);
        edges_are_children(base, id);
    }
    let done = match &path[depth] {
        Subkey::Key(name) => table_with(rows, id, name, replacement),
        Subkey::Index(index) => array_with(rows, id, *index, replacement),
    };
    match done {
        Ok(root) => {
            proof {
                growing_twice(first, base, rows.db());
                adding_twice(first, base, rows.db(), below_cost, 1);
            }
            Ok(root)
        },
        Err(e) => Err(e),
    }
}

/// Appends an entry to an array.
fn append_entry<R: Rows>(rows: &mut R, id: i64, entry: &Value) -> (root: Result<
    i64,
    RowError<R::Error>,
>)
    requires
        old(rows).wf(),
        old(rows).open(),
        old(rows).db().sound(),
        old(rows).db().nodes.contains_key(id),
        old(rows).db().tree(id) is Array,
        entry.wf(),
    ensures
        root matches Err(e) ==> e is Rows || !old(rows).db().whole() || (e.unnumbered() && (overlong(*entry) || old(
            rows,
        ).db().tree(id)->Array_0.len() >= i64::MAX)),
        final(rows).wf(),
        final(rows).open(),
        final(rows).kept() == old(rows).kept(),
        root matches Ok(root) ==> {
            &&& grown(*old(rows), *final(rows), root, size(*entry) + 1)
            &&& final(rows).db().tree(root) == amended_here(
                old(rows).db().tree(id),
                Amendment::Append(entry.tree()),
            )
        },
{
    let ghost first = rows.db();
    let added: i64 = match insert_value(rows, entry) {
        Ok(added) => added,
        Err(e) => {
            return Err(e);
        },
    };
    let ghost base = rows.db();
    proof {
        growing_keeps_trees(first, base, id);
        edges_are_children(base, id);
        assert(base.node_sound(id));
    }
    let mut children = match rows.items(id) {
        Ok(children) => children,
        Err(e) => {
            return Err(RowError::Rows(e));
        },
    };
    let ghost listed = children@;
    proof {
        let n = base.tree(id)->Array_0.len();
        spans_agree(base, id, n, listed.len());
        assert forall|j: int| 0 <= j < listed.len() implies base.nodes.contains_key(
            #[trigger] listed[j],
        ) && base.tree(listed[j]) == base.tree(id)->Array_0[j] by {
            assert(base.items.contains_key((id, j as i64)));
        }
    }
    children.push(added);
    match insert_array(rows, &children) {
        Ok(root) => {
            proof {
                growing_twice(first, base, rows.db());
                adding_twice(first, base, rows.db(), size(*entry), 1);
                assert(rows.db().tree(root)->Array_0 =~= base.tree(id)->Array_0.push(
                    entry.tree(),
                ));
            }
            Ok(root)
        },
        Err(e) => Err(e),
    }
}

/// An array is as long one way as another.
proof fn spans_agree(db: Db, id: i64, n: nat, m: nat)
    requires
        db.spans(id, n),
        db.spans(id, m),
        n <= i64::MAX,
    ensures
        n == m,
{
    if n < m {
        assert(!db.items.contains_key((id, n as i64)));
    }
    if m < n {
        assert(db.items.contains_key((id, m as i64)));
    }
}

/// Adds to an integer.
fn increment_leaf<R: Rows>(rows: &mut R, id: i64, op: &IncrementDecrement) -> (root: Result<
    i64,
    RowError<R::Error>,
>)
    requires
        old(rows).wf(),
        old(rows).open(),
        old(rows).db().sound(),
        old(rows).db().nodes.contains_key(id),
        amend_fits_here(old(rows).db().tree(id), Amendment::Increment(*op)),
    ensures
        root matches Err(e) ==> e is Rows || !old(rows).db().whole(),
        final(rows).wf(),
        final(rows).open(),
        final(rows).kept() == old(rows).kept(),
        root matches Ok(root) ==> {
            &&& grown(*old(rows), *final(rows), root, 1)
            &&& final(rows).db().tree(root) == amended_here(
                old(rows).db().tree(id),
                Amendment::Increment(*op),
            )
        },
{
    match node(rows, id) {
        Ok((_, Some(Value::Int(n)))) => match op.apply(n) {
            Some(sum) => insert_leaf(rows, &Value::Int(sum)),
            None => Err(RowError::Corrupt("the sum fits an i64 or clamps")),
        },
        Ok(_) => Err(RowError::Corrupt("leaf node without a payload")),
        Err(e) => Err(e),
    }
}

/// Deletes the entries of a table that `predicate` matches.
fn delete_fields<R: Rows>(rows: &mut R, id: i64, predicate: &Predicate) -> (root: Result<
    i64,
    RowError<R::Error>,
>)
    requires
        old(rows).wf(),
        old(rows).open(),
        old(rows).db().sound(),
        old(rows).db().nodes.contains_key(id),
        old(rows).db().tree(id) is Table,
        predicate.wf(),
    ensures
        root matches Err(e) ==> e is Rows || !old(rows).db().whole(),
        final(rows).wf(),
        final(rows).open(),
        final(rows).kept() == old(rows).kept(),
        root matches Ok(root) ==> {
            &&& grown(*old(rows), *final(rows), root, 1)
            &&& final(rows).db().tree(root) == amended_here(
                old(rows).db().tree(id),
                Amendment::DeleteMatching(predicate@),
            )
        },
{
    let ghost base = rows.db();
    let ghost keep = spared(predicate@);
    proof {
        edges_are_children(base, id);
        assert(base.node_sound(id));
    }
    let children = match rows.fields(id) {
        Ok(children) => children,
        Err(e) => {
            return Err(RowError::Rows(e));
        },
    };
    let n: usize = children.len();
    let mut kept: SortedMap<String, i64> = SortedMap::new();
    let mut i: usize = 0;
    while i < n
        invariant
            i <= n == children@.len(),
            rows.wf(),
            rows.open(),
            rows.kept() == old(rows).kept(),
            rows.db() == base,
            base.sound(),
            predicate.wf(),
            keep == spared(predicate@),
            forall|j: int|
                0 <= j < n ==> base.fields.contains_key((id, (#[trigger] children@[j]).0@))
                    && base.fields[(id, children@[j].0@)] == children@[j].1
                    && base.nodes.contains_key(children@[j].1),
            kept.wf(),
            forall|k: Seq<char>| #[trigger]
                kept@.contains_key(k) ==> base.fields.contains_key((id, k)) && kept@[k]
                    == base.fields[(id, k)] && keep(base.tree(kept@[k])),
            forall|m: int|
                0 <= m < i && keep(base.tree((#[trigger] children@[m]).1)) ==> kept@.contains_key(
                    children@[m].0@,
                ),
        decreases n - i,
    {
        assert(base.nodes.contains_key(children@[i as int].1));
        let value = match value_of(rows, children[i].1) {
            Ok(value) => value,
            Err(e) => {
                return Err(e);
            },
        };
        if !predicate.matches(&value) {
            kept.insert(children[i].0.clone(), children[i].1);
        }
        i += 1;
    }
    let ghost entries = kept.entries@;
    proof {
        assert forall|j: int| 0 <= j < entries.len() implies base.nodes.contains_key(
            (#[trigger] entries[j]).1,
        ) by {
            kept.filed_once(j, entries[j].0@);
            assert(base.fields.contains_key((id, entries[j].0@)));
        }
        assert forall|a: int, b: int| 0 <= a < b < entries.len() implies (
        #[trigger] entries[a]).0@ != (#[trigger] entries[b]).0@ by {
            if entries[a].0@ == entries[b].0@ {
                kept.filed_once(a, entries[a].0@);
                kept.filed_once(b, entries[a].0@);
            }
        }
    }
    match insert_table(rows, &kept.entries) {
        Ok(root) => {
            proof {
                let have = rows.db().tree(root)->Table_0;
                let want = amended_here(
                    base.tree(id),
                    Amendment::DeleteMatching(predicate@),
                )->Table_0;
                assert forall|k: Seq<char>|
                    #![trigger have.dom().contains(k)]
                    #![trigger want.dom().contains(k)]
                    #![trigger have[k]]
                    #![trigger want[k]]
                    have.dom().contains(k) == want.dom().contains(k) && (have.dom().contains(k)
                        ==> have[k] == want[k]) by {
                    if have.contains_key(k) {
                        let j = choose|j: int|
                            0 <= j < entries.len() && (#[trigger] entries[j]).0@ == k;
                        kept.filed_once(j, k);
                        assert(base.fields.contains_key((id, k)));
                    }
                    if want.contains_key(k) {
                        assert(base.fields.contains_key((id, k)));
                        let m = choose|m: int| 0 <= m < n && (#[trigger] children@[m]).0@ == k;
                        assert(keep(base.tree(children@[m].1)));
                        assert(kept@.contains_key(children@[m].0@));
                        kept.filed_somewhere(k);
                        assert(have.contains_key(entries[kept.index_of(k)].0@));
                    }
                }
                assert(have =~= want);
            }
            Ok(root)
        },
        Err(e) => Err(e),
    }
}

/// Deletes the items of an array that `predicate` matches.
fn delete_items<R: Rows>(rows: &mut R, id: i64, predicate: &Predicate) -> (root: Result<
    i64,
    RowError<R::Error>,
>)
    requires
        old(rows).wf(),
        old(rows).open(),
        old(rows).db().sound(),
        old(rows).db().nodes.contains_key(id),
        old(rows).db().tree(id) is Array,
        predicate.wf(),
    ensures
        root matches Err(e) ==> e is Rows || !old(rows).db().whole(),
        final(rows).wf(),
        final(rows).open(),
        final(rows).kept() == old(rows).kept(),
        root matches Ok(root) ==> {
            &&& grown(*old(rows), *final(rows), root, 1)
            &&& final(rows).db().tree(root) == amended_here(
                old(rows).db().tree(id),
                Amendment::DeleteMatching(predicate@),
            )
        },
{
    let ghost base = rows.db();
    let ghost keep = spared(predicate@);
    let ghost trees = base.tree(id)->Array_0;
    proof {
        edges_are_children(base, id);
        assert(base.node_sound(id));
    }
    let children = match rows.items(id) {
        Ok(children) => children,
        Err(e) => {
            return Err(RowError::Rows(e));
        },
    };
    let n: usize = children.len();
    proof {
        spans_agree(base, id, trees.len(), n as nat);
        assert forall|j: int| 0 <= j < n implies base.nodes.contains_key(#[trigger] children@[j])
            && base.tree(children@[j]) == trees[j] by {
            assert(base.items.contains_key((id, j as i64)));
        }
        reveal(Seq::filter);
        assert(trees.take(0).filter(keep) =~= Seq::<Tree>::empty());
    }
    let mut kept: Vec<i64> = Vec::new();
    let mut i: usize = 0;
    assert(kept@.map_values(|child: i64| base.tree(child)) =~= Seq::<Tree>::empty());
    while i < n
        invariant
            i <= n == children@.len(),
            n == trees.len() <= i64::MAX,
            kept@.len() <= i,
            rows.wf(),
            rows.open(),
            rows.kept() == old(rows).kept(),
            rows.db() == base,
            base.sound(),
            predicate.wf(),
            keep == spared(predicate@),
            forall|j: int|
                0 <= j < n ==> base.nodes.contains_key(#[trigger] children@[j]) && base.tree(
                    children@[j],
                ) == trees[j],
            forall|j: int| 0 <= j < kept@.len() ==> base.nodes.contains_key(#[trigger] kept@[j]),
            kept@.map_values(|child: i64| base.tree(child)) == trees.take(i as int).filter(keep),
        decreases n - i,
    {
        assert(base.nodes.contains_key(children@[i as int]));
        let value = match value_of(rows, children[i]) {
            Ok(value) => value,
            Err(e) => {
                return Err(e);
            },
        };
        let ghost before = kept@;
        if !predicate.matches(&value) {
            kept.push(children[i]);
        }
        proof {
            reveal(Seq::filter);
            assert(trees.take(i + 1).drop_last() =~= trees.take(i as int));
            assert(trees.take(i + 1).last() == trees[i as int]);
            assert(kept@.map_values(|child: i64| base.tree(child)) =~= trees.take(i + 1).filter(
                keep,
            ));
        }
        i += 1;
    }
    assert(trees.take(n as int) =~= trees);
    insert_array(rows, &kept)
}

/// Changes the value rooted at `id`, yielding the new root.
fn amend_here<R: Rows>(rows: &mut R, id: i64, op: &AmendOp) -> (root: Result<
    i64,
    RowError<R::Error>,
>)
    requires
        old(rows).wf(),
        old(rows).open(),
        old(rows).db().sound(),
        old(rows).db().nodes.contains_key(id),
        op.wf(),
        amend_fits_here(old(rows).db().tree(id), op@),
    ensures
        root matches Err(e) ==> e is Rows || !old(rows).db().whole() || (e.unnumbered() && outgrows(
            old(rows).db().tree(id),
            Seq::empty(),
            *op,
        )),
        final(rows).wf(),
        final(rows).open(),
        final(rows).kept() == old(rows).kept(),
        root matches Ok(root) ==> {
            &&& grown(*old(rows), *final(rows), root, amend_size(*op))
            &&& final(rows).db().tree(root) == amended_here(old(rows).db().tree(id), op@)
        },
{
    match op {
        AmendOp::AppendEntry(entry) => append_entry(rows, id, entry),
        AmendOp::IncrementDecrement(op) => increment_leaf(rows, id, op),
        AmendOp::DeleteMatching(predicate) => match node_kind(rows, id) {
            Ok(NodeKind::Table) => delete_fields(rows, id, predicate),
            Ok(_) => delete_items(rows, id, predicate),
            Err(e) => Err(e),
        },
    }
}

/// Copies the nodes along the rest of `path`, the first `depth` segments of
/// which led here, and changes what it addresses.
pub fn amend_node<R: Rows>(
    rows: &mut R,
    id: i64,
    path: &Vec<Subkey>,
    depth: usize,
    op: &AmendOp,
) -> (root: Result<i64, RowError<R::Error>>)
    requires
        old(rows).wf(),
        old(rows).open(),
        old(rows).db().sound(),
        old(rows).db().nodes.contains_key(id),
        depth <= path@.len(),
        op.wf(),
        amend_fits(old(rows).db().tree(id), steps(path@).skip(depth as int), op@),
    ensures
        root matches Err(e) ==> e is Rows || !old(rows).db().whole() || (e.unnumbered() && outgrows(
            old(rows).db().tree(id),
            steps(path@).skip(depth as int),
            *op,
        )),
        final(rows).wf(),
        final(rows).open(),
        final(rows).kept() == old(rows).kept(),
        root matches Ok(root) ==> {
            &&& grown(*old(rows), *final(rows), root, (path@.len() - depth + amend_size(*op)) as nat)
            &&& final(rows).db().tree(root) == amended(
                old(rows).db().tree(id),
                steps(path@).skip(depth as int),
                op@,
            )
        },
    decreases path@.len() - depth,
{
    if depth == path.len() {
        return amend_here(rows, id, op);
    }
    let ghost first = rows.db();
    let ghost rest = steps(path@).skip(depth as int);
    proof {
        edges_are_children(first, id);
        assert(rest[0] == path@[depth as int]@);
        assert(rest.skip(1) =~= steps(path@).skip(depth + 1));
        amend_fits_below(first.tree(id), rest, op@);
    }
    let below = match child_of(rows, id, &path[depth]) {
        Ok(below) => below,
        Err(e) => {
            return Err(e);
        },
    };
    let child: i64 = match below {
        Some(below) => match amend_node(rows, below, path, depth + 1, op) {
            Ok(child) => child,
            Err(e) => {
                return Err(e);
            },
        },
        // What is missing is a fresh array of one entry, under a table.
        None => match op {
            AmendOp::AppendEntry(entry) => match insert_value(rows, entry) {
                Ok(added) => {
                    let ghost base = rows.db();
                    let mut entries: Vec<i64> = Vec::new();
                    entries.push(added);
                    match insert_array(rows, &entries) {
                        Ok(array) => {
                            proof {
                                growing_twice(first, base, rows.db());
                                adding_twice(first, base, rows.db(), size(*entry), 1);
                                assert(rows.db().tree(array)->Array_0 =~= seq![entry.tree()]);
                            }
                            array
                        },
                        Err(e) => {
                            return Err(e);
                        },
                    }
                },
                Err(e) => {
                    return Err(e);
                },
            },
            _ => {
                assert(false);
                return Err(RowError::Corrupt("the target exists"));
            },
        },
    };
    let ghost base = rows.db();
    let ghost below_cost: nat = (path@.len() - depth - 1 + amend_size(*op)) as nat;
    assert(first.adds(base, below_cost));
    proof {
        growing_keeps_trees(first, base, id);
        edges_are_children(base, id);
    }
    let done = match &path[depth] {
        Subkey::Key(name) => table_with(rows, id, name, Some(child)),
        Subkey::Index(index) => array_with(rows, id, *index, Some(child)),
    };
    match done {
        Ok(root) => {
            proof {
                growing_twice(first, base, rows.db());
                adding_twice(first, base, rows.db(), below_cost, 1);
            }
            Ok(root)
        },
        Err(e) => Err(e),
    }
}

} // verus!
