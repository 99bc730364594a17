//! Walks over a namespace's value in memory, shared by every backend that
//! holds a namespace as one tree.

use vstd::prelude::*;

use crate::msg::{all_hold, path_view, steps_of, AmendOp, Amendment, Condition, Predicate};
use crate::order::SortedMap;
use crate::storage::{NodeKind, Resolution, ValueMeta};
use crate::subkey::{steps, Step, Subkey, SubkeyPath};
use crate::tree::{child, walked, with_child, without_child};
use crate::value::{array_tree, fields_tree, items_tree, table_tree, Tree, Value};

verus! {

/// The kind of node `tree` is.
pub open spec fn kind_of(tree: Tree) -> NodeKind {
    match tree {
        Tree::Table(_) => NodeKind::Table,
        Tree::Array(_) => NodeKind::Array,
        _ => NodeKind::Leaf,
    }
}

/// The kind of node `value` is.
pub fn kind(value: &Value) -> (kind: NodeKind)
    ensures
        kind == kind_of(value.tree()),
{
    match value {
        Value::Table(_) => NodeKind::Table,
        Value::Array(_) => NodeKind::Array,
        Value::String(_) | Value::Int(_) | Value::Bool(_) | Value::Key(_) => NodeKind::Leaf,
    }
}

/// How far a walk of `path` from `tree` gets, `depth` segments having been
/// walked to reach it.
pub open spec fn resolved(tree: Tree, path: Seq<Step>, depth: int) -> Resolution
    decreases path.len(),
{
    if path.len() == 0 {
        Resolution::Node(kind_of(tree))
    } else {
        match child(tree, path[0]) {
            Some(below) => resolved(below, path.skip(1), depth + 1),
            None => match (tree, path[0]) {
                (Tree::Table(_), Step::Key(_)) => Resolution::Missing {
                    depth: depth as usize,
                    at: NodeKind::Table,
                },
                (Tree::Array(_), Step::Index(_)) => Resolution::Missing {
                    depth: depth as usize,
                    at: NodeKind::Array,
                },
                _ => Resolution::Mismatch { depth: depth as usize },
            },
        }
    }
}

/// What the field named `name` of a table holds.
fn field<'a>(fields: &'a SortedMap<String, Value>, name: &String) -> (found: Option<&'a Value>)
    requires
        Value::Table(*fields).wf(),
    ensures
        match found {
            Some(below) => below.wf() && child(Value::Table(*fields).tree(), Step::Key(name@))
                == Some(below.tree()),
            None => child(Value::Table(*fields).tree(), Step::Key(name@)) is None,
        },
{
    proof {
        table_tree(*fields);
    }
    match fields.find(name) {
        Ok(i) => {
            assert(fields.entries@[i as int].0@ == name@);
            Some(&fields.entries[i].1)
        },
        Err(_) => None,
    }
}

/// What one step down from `node` reaches.
fn below<'a>(node: &'a Value, segment: &Subkey) -> (found: Option<&'a Value>)
    requires
        node.wf(),
    ensures
        match found {
            Some(below) => below.wf() && child(node.tree(), segment@) == Some(below.tree()),
            None => child(node.tree(), segment@) is None,
        },
{
    match (node, segment) {
        (Value::Table(fields), Subkey::Key(name)) => field(fields, name),
        (Value::Array(items), Subkey::Index(index)) => {
            proof {
                array_tree(*items);
            }
            if (*index as usize) < items.len() {
                Some(&items[*index as usize])
            } else {
                None
            }
        },
        _ => None,
    }
}

/// Walks `path` from `root`, yielding the value it addresses.
pub fn walk<'a>(root: &'a Value, path: &Vec<Subkey>) -> (found: Option<&'a Value>)
    requires
        root.wf(),
    ensures
        match found {
            Some(below) => below.wf() && walked(root.tree(), steps(path@)) == Some(below.tree()),
            None => walked(root.tree(), steps(path@)) is None,
        },
{
    let mut node = root;
    let mut depth: usize = 0;
    assert(steps(path@).skip(0) =~= steps(path@));
    while depth < path.len()
        invariant
            depth <= path@.len(),
            node.wf(),
            walked(root.tree(), steps(path@)) == walked(
                node.tree(),
                steps(path@).skip(depth as int),
            ),
        decreases path@.len() - depth,
    {
        assert(steps(path@).skip(depth as int).skip(1) =~= steps(path@).skip(depth + 1));
        assert(steps(path@).skip(depth as int)[0] == path@[depth as int]@);
        match below(node, &path[depth]) {
            Some(next) => {
                node = next;
            },
            None => {
                return None;
            },
        }
        depth += 1;
    }
    Some(node)
}

/// Walks `path` from `root`, reporting how far it got.
pub fn resolve(root: &Value, path: &Vec<Subkey>) -> (resolution: Resolution)
    requires
        root.wf(),
    ensures
        resolution == resolved(root.tree(), steps(path@), 0),
{
    let mut node = root;
    let mut depth: usize = 0;
    assert(steps(path@).skip(0) =~= steps(path@));
    while depth < path.len()
        invariant
            depth <= path@.len(),
            node.wf(),
            resolved(root.tree(), steps(path@), 0) == resolved(
                node.tree(),
                steps(path@).skip(depth as int),
                depth as int,
            ),
        decreases path@.len() - depth,
    {
        assert(steps(path@).skip(depth as int).skip(1) =~= steps(path@).skip(depth + 1));
        assert(steps(path@).skip(depth as int)[0] == path@[depth as int]@);
        match below(node, &path[depth]) {
            Some(next) => {
                node = next;
            },
            None => {
                return match (node, &path[depth]) {
                    (Value::Table(_), Subkey::Key(_)) => Resolution::Missing {
                        depth,
                        at: NodeKind::Table,
                    },
                    (Value::Array(_), Subkey::Index(_)) => Resolution::Missing {
                        depth,
                        at: NodeKind::Array,
                    },
                    _ => Resolution::Mismatch { depth },
                };
            },
        }
        depth += 1;
    }
    Resolution::Node(kind(node))
}

/// What a value is and what lies right below it.
pub fn meta(value: &Value) -> (meta: ValueMeta)
    requires
        value.wf(),
    ensures
        meta.describes(value.tree()),
{
    match value {
        Value::Table(fields) => {
            let mut keys: Vec<String> = Vec::new();
            let mut i: usize = 0;
            while i < fields.entries.len()
                invariant
                    i <= fields.entries@.len(),
                    keys@.len() == i,
                    forall|j: int| 0 <= j < i ==> (#[trigger] keys@[j])@ == fields.entries@[j].0@,
                decreases fields.entries@.len() - i,
            {
                keys.push(fields.entries[i].0.clone());
                i += 1;
            }
            proof {
                table_tree(*fields);
                let names = keys@.map_values(|key: String| key@);
                let trees = fields_tree(*fields);
                assert forall|a: int, b: int| 0 <= a < b < names.len() implies crate::text::text_lt(
                    #[trigger] names[a],
                    #[trigger] names[b],
                ) by {
                    assert(keys@[a]@ == fields.entries@[a].0@);
                    assert(keys@[b]@ == fields.entries@[b].0@);
                }
                assert forall|name: Seq<char>| #[trigger]
                    trees.contains_key(name) <==> names.contains(name) by {
                    if fields.has(name) {
                        let j = fields.index_of(name);
                        assert(fields.filed(j, name));
                        assert(keys@[j]@ == fields.entries@[j].0@);
                        assert(names[j] == name);
                    }
                    if names.contains(name) {
                        let j = choose|j: int| 0 <= j < names.len() && names[j] == name;
                        assert(keys@[j]@ == fields.entries@[j].0@);
                        assert(fields.filed(j, name));
                    }
                }
            }
            ValueMeta::Table { keys }
        },
        Value::Array(items) => {
            proof {
                array_tree(*items);
            }
            ValueMeta::Array { len: items.len() }
        },
        Value::String(_) | Value::Int(_) | Value::Bool(_) | Value::Key(_) => ValueMeta::Leaf,
    }
}

/// `tree` after a write of `value` at `path`; `None` clears what is there.
pub open spec fn written(tree: Tree, path: Seq<Step>, value: Option<Tree>) -> Tree
    decreases path.len(),
{
    if path.len() == 0 {
        tree
    } else if path.len() == 1 {
        match value {
            Some(value) => with_child(tree, path[0], value),
            None => without_child(tree, path[0]),
        }
    } else {
        match child(tree, path[0]) {
            Some(below) => with_child(tree, path[0], written(below, path.skip(1), value)),
            None => tree,
        }
    }
}

/// Whether one step from `parent` may be written: it names a field or an
/// item there, or a fresh field of a table that is being set.
pub open spec fn step_fits(parent: Tree, step: Step, setting: bool) -> bool {
    match (parent, step) {
        (Tree::Table(fields), Step::Key(name)) => setting || fields.contains_key(name),
        (Tree::Array(items), Step::Index(index)) => index < items.len(),
        _ => false,
    }
}

/// Whether a write at `path` is legal: every parent is there, and the last
/// step may be written.
pub open spec fn set_fits(tree: Tree, path: Seq<Step>, setting: bool) -> bool {
    path.len() > 0 && match walked(tree, path.drop_last()) {
        Some(parent) => step_fits(parent, path.last(), setting),
        None => false,
    }
}

/// A legal write is a legal write one step down.
pub proof fn set_fits_below(tree: Tree, path: Seq<Step>, setting: bool)
    requires
        set_fits(tree, path, setting),
        path.len() > 1,
    ensures
        child(tree, path[0]) is Some,
        set_fits(child(tree, path[0])->0, path.skip(1), setting),
{
    assert(path.drop_last()[0] == path[0]);
    assert(path.drop_last().skip(1) =~= path.skip(1).drop_last());
    assert(path.skip(1).last() == path.last());
}

/// The field at `i` of a table replaced is the child under its name
/// replaced.
proof fn field_replaced(
    before: SortedMap<String, Value>,
    after: SortedMap<String, Value>,
    i: int,
    value: Value,
)
    requires
        Value::Table(before).wf(),
        0 <= i < before.entries@.len(),
        after.entries@ == before.entries@.update(i, (before.entries@[i].0, value)),
        value.wf(),
    ensures
        Value::Table(after).wf(),
        Value::Table(after).tree() == with_child(
            Value::Table(before).tree(),
            Step::Key(before.entries@[i].0@),
            value.tree(),
        ),
{
    let name = before.entries@[i].0@;
    before.replaced_is_inserted(&after, i, (before.entries@[i].0, value));
    table_tree(before);
    table_tree(after);
    assert(fields_tree(after) =~= fields_tree(before).insert(name, value.tree()));
    assert forall|j: int| 0 <= j < after.entries@.len() implies (
    #[trigger] after.entries@[j]).1.wf() by {
        if j != i {
            assert(after.entries@[j] == before.entries@[j]);
        }
    }
}

/// A field filed in a table is the child under its name replaced.
proof fn field_inserted(
    before: SortedMap<String, Value>,
    after: SortedMap<String, Value>,
    name: Seq<char>,
    value: Value,
)
    requires
        Value::Table(before).wf(),
        after.wf(),
        after@ == before@.insert(name, value),
        value.wf(),
    ensures
        Value::Table(after).wf(),
        Value::Table(after).tree() == with_child(
            Value::Table(before).tree(),
            Step::Key(name),
            value.tree(),
        ),
{
    table_tree(before);
    table_tree(after);
    assert(fields_tree(after) =~= fields_tree(before).insert(name, value.tree()));
    assert forall|j: int| 0 <= j < after.entries@.len() implies (
    #[trigger] after.entries@[j]).1.wf() by {
        let k = after.entries@[j].0@;
        after.filed_once(j, k);
        if k != name {
            before.filed_somewhere(k);
            assert(before.entries@[before.index_of(k)].1.wf());
        }
    }
}

/// A field taken out of a table is the child under its name gone.
proof fn field_removed(
    before: SortedMap<String, Value>,
    after: SortedMap<String, Value>,
    name: Seq<char>,
)
    requires
        Value::Table(before).wf(),
        after.wf(),
        after@ == before@.remove(name),
    ensures
        Value::Table(after).wf(),
        Value::Table(after).tree() == without_child(
            Value::Table(before).tree(),
            Step::Key(name),
        ),
{
    table_tree(before);
    table_tree(after);
    assert(fields_tree(after) =~= fields_tree(before).remove(name));
    assert forall|j: int| 0 <= j < after.entries@.len() implies (
    #[trigger] after.entries@[j]).1.wf() by {
        let k = after.entries@[j].0@;
        after.filed_once(j, k);
        before.filed_somewhere(k);
        assert(before.entries@[before.index_of(k)].1.wf());
    }
}

/// The item at `i` of an array replaced is the child at that place
/// replaced.
proof fn item_replaced(before: Vec<Value>, after: Vec<Value>, i: u32, value: Value)
    requires
        Value::Array(before).wf(),
        i < before@.len(),
        after@ == before@.update(i as int, value),
        value.wf(),
    ensures
        Value::Array(after).wf(),
        Value::Array(after).tree() == with_child(
            Value::Array(before).tree(),
            Step::Index(i),
            value.tree(),
        ),
{
    array_tree(before);
    array_tree(after);
    assert(items_tree(after@) =~= items_tree(before@).update(i as int, value.tree()));
}

/// Applies a write to the tree below `node`, the first `depth` segments of
/// `path` having led there.
fn set_from(node: &mut Value, path: &Vec<Subkey>, depth: usize, value: Option<Value>)
    requires
        old(node).wf(),
        depth < path@.len(),
        value matches Some(v) ==> v.wf(),
        set_fits(old(node).tree(), steps(path@).skip(depth as int), value is Some),
    ensures
        final(node).wf(),
        final(node).tree() == written(
            old(node).tree(),
            steps(path@).skip(depth as int),
            crate::msg::value_view(value),
        ),
    decreases path@.len() - depth,
{
    let ghost rest = steps(path@).skip(depth as int);
    let ghost before = *node;
    let last: bool = depth == path.len() - 1;
    assert(rest[0] == path@[depth as int]@);
    assert(rest.skip(1) =~= steps(path@).skip(depth + 1));
    proof {
        if last {
            assert(rest.drop_last().len() == 0);
            assert(rest.last() == rest[0]);
        } else {
            set_fits_below(before.tree(), rest, value is Some);
        }
    }
    match (node, &path[depth]) {
        (Value::Table(fields), Subkey::Key(name)) => {
            let ghost was = *fields;
            proof {
                table_tree(was);
            }
            if last {
                match value {
                    Some(value) => {
                        fields.insert(name.clone(), value);
                        proof {
                            field_inserted(was, *fields, name@, value);
                        }
                    },
                    None => {
                        let _ = fields.remove(name);
                        proof {
                            field_removed(was, *fields, name@);
                        }
                    },
                }
            } else {
                match fields.find(name) {
                    Ok(i) => {
                        assert(was.entries@[i as int].0@ == name@);
                        set_from(&mut fields.entries[i].1, path, depth + 1, value);
                        proof {
                            field_replaced(was, *fields, i as int, fields.entries@[i as int].1);
                        }
                    },
                    Err(_) => {
                        assert(false);
                    },
                }
            }
        },
        (Value::Array(items), Subkey::Index(index)) => {
            let ghost was = *items;
            let i: usize = *index as usize;
            proof {
                array_tree(was);
            }
            if last {
                match value {
                    Some(value) => {
                        items[i] = value;
                        proof {
                            item_replaced(was, *items, *index, value);
                        }
                    },
                    None => {
                        let _ = items.remove(i);
                        proof {
                            array_tree(*items);
                            assert(items_tree(items@) =~= items_tree(was@).remove(i as int));
                        }
                    },
                }
            } else {
                set_from(&mut items[i], path, depth + 1, value);
                proof {
                    item_replaced(was, *items, *index, items@[i as int]);
                }
            }
        },
        _ => {
            assert(false);
        },
    }
}

/// Applies a legal write to a tree: `value` lands where `path` addresses,
/// or what is there is cleared.
pub fn set_at(root: &mut Value, path: &SubkeyPath, value: Option<Value>)
    requires
        old(root).wf(),
        value matches Some(v) ==> v.wf(),
        set_fits(old(root).tree(), path@, value is Some),
    ensures
        final(root).wf(),
        final(root).tree() == written(old(root).tree(), path@, crate::msg::value_view(value)),
{
    assert(path@.skip(0) =~= path@);
    set_from(root, &path.segments, 0, value);
}

/// Which entries a deletion keeps: those that miss a condition.
pub open spec fn spared(conditions: Seq<Condition>) -> spec_fn(Tree) -> bool {
    |entry: Tree| !all_hold(conditions, entry)
}

/// `tree` itself changed in place.
pub open spec fn amended_here(tree: Tree, op: Amendment) -> Tree {
    match (tree, op) {
        (Tree::Array(items), Amendment::Append(entry)) => Tree::Array(items.push(entry)),
        (Tree::Int(n), Amendment::Increment(op)) => match op.applied(n) {
            Some(sum) => Tree::Int(sum),
            None => tree,
        },
        (Tree::Table(fields), Amendment::DeleteMatching(conditions)) => Tree::Table(
            Map::new(
                |k: Seq<char>| fields.contains_key(k) && spared(conditions)(fields[k]),
                |k: Seq<char>| fields[k],
            ),
        ),
        (Tree::Array(items), Amendment::DeleteMatching(conditions)) => Tree::Array(
            items.filter(spared(conditions)),
        ),
        _ => tree,
    }
}

/// `tree` with what `path` addresses changed in place. An append to a field
/// that is not there puts an array of the one entry there.
pub open spec fn amended(tree: Tree, path: Seq<Step>, op: Amendment) -> Tree
    decreases path.len(),
{
    if path.len() == 0 {
        amended_here(tree, op)
    } else {
        match child(tree, path[0]) {
            Some(below) => with_child(tree, path[0], amended(below, path.skip(1), op)),
            None => match op {
                Amendment::Append(entry) => with_child(tree, path[0], Tree::Array(seq![entry])),
                _ => tree,
            },
        }
    }
}

/// Whether `tree` itself can be changed so.
pub open spec fn amend_fits_here(tree: Tree, op: Amendment) -> bool {
    match (tree, op) {
        (Tree::Array(_), Amendment::Append(_)) => true,
        (Tree::Int(n), Amendment::Increment(op)) => op.applied(n) is Some,
        (Tree::Table(_), Amendment::DeleteMatching(_)) => true,
        (Tree::Array(_), Amendment::DeleteMatching(_)) => true,
        _ => false,
    }
}

/// Whether a change at `path` is legal: what it addresses can be changed
/// so, or it is an append to a fresh field of a table.
pub open spec fn amend_fits(tree: Tree, path: Seq<Step>, op: Amendment) -> bool {
    match walked(tree, path) {
        Some(target) => amend_fits_here(target, op),
        None => {
            &&& op is Append
            &&& path.len() > 0
            &&& path.last() is Key
            &&& walked(tree, path.drop_last()) is Some
            &&& walked(tree, path.drop_last())->0 is Table
        },
    }
}

/// A legal change is a legal change one step down, or an append to a fresh
/// field right here.
pub proof fn amend_fits_below(tree: Tree, path: Seq<Step>, op: Amendment)
    requires
        amend_fits(tree, path, op),
        path.len() > 0,
    ensures
        match child(tree, path[0]) {
            Some(below) => amend_fits(below, path.skip(1), op),
            None => path.len() == 1 && op is Append && tree is Table && path[0] is Key,
        },
{
    match child(tree, path[0]) {
        Some(below) => {
            if walked(tree, path) is None {
                if path.len() == 1 {
                    assert(path.skip(1).len() == 0);
                } else {
                    assert(path.drop_last()[0] == path[0]);
                    assert(path.drop_last().skip(1) =~= path.skip(1).drop_last());
                    assert(path.skip(1).last() == path.last());
                }
            }
        },
        None => {
            if path.len() > 1 {
                assert(path.drop_last()[0] == path[0]);
            } else {
                assert(path.drop_last().len() == 0);
                assert(path.last() == path[0]);
            }
        },
    }
}

/// Deletes the fields of a table whose value `predicate` matches.
fn delete_fields(fields: &mut SortedMap<String, Value>, predicate: &Predicate)
    requires
        Value::Table(*old(fields)).wf(),
        predicate.wf(),
    ensures
        Value::Table(*final(fields)).wf(),
        Value::Table(*final(fields)).tree() == amended_here(
            Value::Table(*old(fields)).tree(),
            Amendment::DeleteMatching(predicate@),
        ),
{
    let ghost was = *fields;
    let ghost trees = fields_tree(was);
    let ghost keep = spared(predicate@);
    proof {
        table_tree(was);
    }
    let mut i: usize = 0;
    while i < fields.entries.len()
        invariant
            i <= fields.entries@.len(),
            predicate.wf(),
            keep == spared(predicate@),
            fields.wf(),
            was.wf(),
            trees == fields_tree(was),
            forall|j: int|
                0 <= j < fields.entries@.len() ==> (#[trigger] fields.entries@[j]).1.wf(),
            forall|j: int|
                0 <= j < i ==> keep((#[trigger] fields.entries@[j]).1.tree()),
            forall|k: Seq<char>| #[trigger] fields@.contains_key(k) ==> was@.contains_key(k)
                && fields@[k] == was@[k],
            forall|k: Seq<char>| #[trigger] was@.contains_key(k) && keep(was@[k].tree())
                ==> fields@.contains_key(k),
        decreases fields.entries@.len() - i,
    {
        let ghost held = fields@;
        let ghost k = fields.entries@[i as int].0@;
        proof {
            fields.filed_once(i as int, k);
        }
        if predicate.matches(&fields.entries[i].1) {
            let ghost listed = fields.entries@;
            let _ = fields.remove_at(i);
            assert forall|j: int| 0 <= j < fields.entries@.len() implies (
            #[trigger] fields.entries@[j]).1.wf() by {
                if j < i {
                    assert(fields.entries@[j] == listed[j]);
                } else {
                    assert(fields.entries@[j] == listed[j + 1]);
                }
            }
            assert forall|j: int| 0 <= j < i implies keep(
                (#[trigger] fields.entries@[j]).1.tree(),
            ) by {
                assert(fields.entries@[j] == listed[j]);
            }
            assert forall|q: Seq<char>| #[trigger] was@.contains_key(q) && keep(
                was@[q].tree(),
            ) implies fields@.contains_key(q) by {
                if q == k {
                    assert(held[k] == was@[k]);
                }
            }
        } else {
            i += 1;
        }
    }
    proof {
        table_tree(*fields);
        let left = fields_tree(*fields);
        let right = amended_here(Tree::Table(trees), Amendment::DeleteMatching(predicate@))->Table_0;
        assert forall|k: Seq<char>|
            #![trigger left.dom().contains(k)]
            #![trigger right.dom().contains(k)]
            #![trigger left[k]]
            #![trigger right[k]]
            left.dom().contains(k) == right.dom().contains(k) && (left.dom().contains(k)
                ==> left[k] == right[k]) by {
            if fields@.contains_key(k) {
                fields.filed_somewhere(k);
                let j = fields.index_of(k);
                assert(keep(fields.entries@[j].1.tree()));
                assert(was@.contains_key(k));
            }
            if was@.contains_key(k) && keep(was@[k].tree()) {
                assert(fields@.contains_key(k));
            }
        }
        assert(left =~= right);
    }
}

/// Deletes the items of an array that `predicate` matches.
fn delete_items(items: &mut Vec<Value>, predicate: &Predicate)
    requires
        Value::Array(*old(items)).wf(),
        predicate.wf(),
    ensures
        Value::Array(*final(items)).wf(),
        Value::Array(*final(items)).tree() == amended_here(
            Value::Array(*old(items)).tree(),
            Amendment::DeleteMatching(predicate@),
        ),
{
    let ghost was = *items;
    let ghost trees = items_tree(was@);
    let ghost keep = spared(predicate@);
    let ghost mut seen: int = 0;
    proof {
        array_tree(was);
        assert(trees.take(0) =~= Seq::<Tree>::empty());
        reveal(Seq::filter);
        assert(trees.take(0).filter(keep) =~= Seq::<Tree>::empty());
        assert(items_tree(items@.take(0)) =~= Seq::<Tree>::empty());
        assert(items@.skip(0) =~= was@.skip(0));
    }
    let mut i: usize = 0;
    while i < items.len()
        invariant
            i <= items@.len(),
            0 <= seen <= was@.len(),
            predicate.wf(),
            keep == spared(predicate@),
            trees == items_tree(was@),
            items@.len() - i == was@.len() - seen,
            items@.skip(i as int) == was@.skip(seen),
            items_tree(items@.take(i as int)) == trees.take(seen).filter(keep),
            forall|j: int| 0 <= j < items@.len() ==> (#[trigger] items@[j]).wf(),
        decreases items@.len() - i,
    {
        let ghost listed = items@;
        proof {
            assert(items@[i as int] == items@.skip(i as int)[0]);
            assert(was@[seen] == was@.skip(seen)[0]);
            assert(trees[seen] == items@[i as int].tree());
            assert(trees.take(seen + 1).drop_last() =~= trees.take(seen));
            assert(trees.take(seen + 1).last() == trees[seen]);
            reveal(Seq::filter);
            assert(was@.skip(seen).skip(1) =~= was@.skip(seen + 1));
        }
        if predicate.matches(&items[i]) {
            let _ = items.remove(i);
            assert(items@.take(i as int) =~= listed.take(i as int));
            assert(items@.skip(i as int) =~= listed.skip(i as int).skip(1));
        } else {
            assert(listed.skip(i + 1) =~= listed.skip(i as int).skip(1));
            assert(items_tree(listed.take(i + 1)) =~= items_tree(listed.take(i as int)).push(
                listed[i as int].tree(),
            ));
            i += 1;
        }
        proof {
            seen = seen + 1;
        }
    }
    proof {
        array_tree(*items);
        assert(items@.take(i as int) =~= items@);
        assert(trees.take(seen) =~= trees);
    }
}

/// Changes `node` itself in place.
fn amend_here(node: &mut Value, op: AmendOp)
    requires
        old(node).wf(),
        op.wf(),
        amend_fits_here(old(node).tree(), op@),
    ensures
        final(node).wf(),
        final(node).tree() == amended_here(old(node).tree(), op@),
{
    match (node, op) {
        (Value::Array(items), AmendOp::AppendEntry(entry)) => {
            let ghost was = *items;
            items.push(entry);
            proof {
                array_tree(was);
                array_tree(*items);
                assert(items_tree(items@) =~= items_tree(was@).push(entry.tree()));
            }
        },
        (Value::Int(n), AmendOp::IncrementDecrement(op)) => {
            match op.apply(*n) {
                Some(sum) => {
                    *n = sum;
                },
                None => {
                    assert(false);
                },
            }
        },
        (Value::Table(fields), AmendOp::DeleteMatching(predicate)) => {
            delete_fields(fields, &predicate);
        },
        (Value::Array(items), AmendOp::DeleteMatching(predicate)) => {
            delete_items(items, &predicate);
        },
        _ => {
            assert(false);
        },
    }
}

/// Applies a change to the tree below `node`, the first `depth` segments of
/// `path` having led there.
fn amend_from(node: &mut Value, path: &Vec<Subkey>, depth: usize, op: AmendOp)
    requires
        old(node).wf(),
        depth <= path@.len(),
        op.wf(),
        amend_fits(old(node).tree(), steps(path@).skip(depth as int), op@),
    ensures
        final(node).wf(),
        final(node).tree() == amended(old(node).tree(), steps(path@).skip(depth as int), op@),
    decreases path@.len() - depth,
{
    let ghost rest = steps(path@).skip(depth as int);
    let ghost before = *node;
    if depth == path.len() {
        amend_here(node, op);
        return;
    }
    assert(rest[0] == path@[depth as int]@);
    assert(rest.skip(1) =~= steps(path@).skip(depth + 1));
    proof {
        amend_fits_below(before.tree(), rest, op@);
    }
    match (node, &path[depth]) {
        (Value::Table(fields), Subkey::Key(name)) => {
            let ghost was = *fields;
            proof {
                table_tree(was);
            }
            match fields.find(name) {
                Ok(i) => {
                    assert(was.entries@[i as int].0@ == name@);
                    amend_from(&mut fields.entries[i].1, path, depth + 1, op);
                    proof {
                        field_replaced(was, *fields, i as int, fields.entries@[i as int].1);
                    }
                },
                Err(_) => {
                    match op {
                        AmendOp::AppendEntry(entry) => {
                            let mut items: Vec<Value> = Vec::new();
                            items.push(entry);
                            let array = Value::Array(items);
                            proof {
                                array_tree(items);
                                assert(items_tree(items@) =~= seq![entry.tree()]);
                            }
                            fields.insert(name.clone(), array);
                            proof {
                                field_inserted(was, *fields, name@, array);
                            }
                        },
                        _ => {
                            assert(false);
                        },
                    }
                },
            }
        },
        (Value::Array(items), Subkey::Index(index)) => {
            let ghost was = *items;
            let i: usize = *index as usize;
            proof {
                array_tree(was);
            }
            amend_from(&mut items[i], path, depth + 1, op);
            proof {
                item_replaced(was, *items, *index, items@[i as int]);
            }
        },
        _ => {
            assert(false);
        },
    }
}

/// Applies a legal change to a tree: what `path` addresses is changed in
/// place, the root itself for no path.
pub fn amend_at(root: &mut Value, path: &Option<SubkeyPath>, op: AmendOp)
    requires
        old(root).wf(),
        op.wf(),
        amend_fits(old(root).tree(), steps_of(path_view(*path)), op@),
    ensures
        final(root).wf(),
        final(root).tree() == amended(old(root).tree(), steps_of(path_view(*path)), op@),
{
    match path {
        Some(path) => {
            assert(path@.skip(0) =~= path@);
            amend_from(root, &path.segments, 0, op);
        },
        None => {
            amend_here(root, op);
        },
    }
}

} // verus!
