//! What writes to a tree leave there, and what they leave alone.

use vstd::prelude::*;

use crate::msg::Amendment;
use crate::storage::ValueMeta;
use crate::storage::value::{amend_fits, amended, amended_here, set_fits, written};
use crate::subkey::Step;
use crate::text::text_lt;
use crate::tree::{child, walked};
use crate::value::Tree;

verus! {

/// A value that is set is what is read back at its path.
pub proof fn set_reads_back(tree: Tree, path: Seq<Step>, value: Tree)
    requires
        set_fits(tree, path, true),
    ensures
        walked(written(tree, path, Some(value)), path) == Some(value),
    decreases path.len(),
{
    let after = written(tree, path, Some(value));
    if path.len() == 1 {
        assert(path.drop_last().len() == 0);
        assert(child(after, path[0]) == Some(value));
        assert(walked(value, path.skip(1)) == Some(value));
    } else {
        assert(path.drop_last()[0] == path[0]);
        assert(path.drop_last().skip(1) =~= path.skip(1).drop_last());
        assert(path.skip(1).last() == path.last());
        let below = child(tree, path[0])->0;
        set_reads_back(below, path.skip(1), value);
        assert(child(after, path[0]) == Some(written(below, path.skip(1), Some(value))));
    }
}

/// A field that is removed is gone.
pub proof fn removed_is_gone(tree: Tree, path: Seq<Step>)
    requires
        set_fits(tree, path, false),
        path.last() is Key,
    ensures
        walked(written(tree, path, None), path) is None,
    decreases path.len(),
{
    let after = written(tree, path, None);
    if path.len() == 1 {
        assert(path.drop_last().len() == 0);
        assert(child(after, path[0]) is None);
    } else {
        assert(path.drop_last()[0] == path[0]);
        assert(path.drop_last().skip(1) =~= path.skip(1).drop_last());
        assert(path.skip(1).last() == path.last());
        let below = child(tree, path[0])->0;
        removed_is_gone(below, path.skip(1));
        assert(child(after, path[0]) == Some(written(below, path.skip(1), None)));
    }
}

/// An entry removed from an array closes the gap: those after it move up,
/// those before it stay.
pub proof fn removed_items_close_up(tree: Tree, path: Seq<Step>, items: Seq<Tree>, index: u32)
    requires
        path.len() > 0,
        path.last() == Step::Index(index),
        walked(tree, path.drop_last()) == Some(Tree::Array(items)),
        index < items.len(),
    ensures
        walked(written(tree, path, None), path.drop_last()) == Some(
            Tree::Array(items.remove(index as int)),
        ),
    decreases path.len(),
{
    let after = written(tree, path, None);
    if path.len() == 1 {
        assert(path.drop_last().len() == 0);
    } else {
        assert(path.drop_last()[0] == path[0]);
        assert(path.drop_last().skip(1) =~= path.skip(1).drop_last());
        assert(path.skip(1).last() == path.last());
        let below = child(tree, path[0])->0;
        removed_items_close_up(below, path.skip(1), items, index);
        assert(child(after, path[0]) == Some(written(below, path.skip(1), None)));
    }
}

/// A change in place is what is read back at its path.
pub proof fn amended_reads_back(tree: Tree, path: Seq<Step>, op: Amendment)
    requires
        amend_fits(tree, path, op),
    ensures
        walked(amended(tree, path, op), path) == Some(
            match walked(tree, path) {
                Some(target) => amended_here(target, op),
                None => Tree::Array(seq![op->Append_0]),
            },
        ),
    decreases path.len(),
{
    let after = amended(tree, path, op);
    if path.len() > 0 {
        match child(tree, path[0]) {
            Some(below) => {
                if path.len() > 1 {
                    assert(path.drop_last()[0] == path[0]);
                    assert(path.drop_last().skip(1) =~= path.skip(1).drop_last());
                    assert(path.skip(1).last() == path.last());
                }
                amended_reads_back(below, path.skip(1), op);
                assert(child(after, path[0]) == Some(amended(below, path.skip(1), op)));
            },
            None => {
                if path.len() > 1 {
                    assert(path.drop_last()[0] == path[0]);
                }
                assert(path.drop_last().len() == 0 ==> walked(tree, path.drop_last()) == Some(tree));
                assert(child(after, path[0]) == Some(Tree::Array(seq![op->Append_0])));
                let fresh = Tree::Array(seq![op->Append_0]);
                assert(walked(fresh, path.skip(1)) == Some(fresh));
            },
        }
    }
}

/// Whether two paths part ways: neither leads through where the other ends.
pub open spec fn apart(a: Seq<Step>, b: Seq<Step>) -> bool
    decreases a.len(),
{
    a.len() > 0 && b.len() > 0 && (a[0] != b[0] || apart(a.skip(1), b.skip(1)))
}

/// A value that is set leaves alone what lies on other paths.
pub proof fn set_spares_others(tree: Tree, path: Seq<Step>, value: Tree, other: Seq<Step>)
    requires
        apart(path, other),
    ensures
        walked(written(tree, path, Some(value)), other) == walked(tree, other),
    decreases path.len(),
{
    if path[0] == other[0] && path.len() > 1 {
        match child(tree, path[0]) {
            Some(below) => {
                set_spares_others(below, path.skip(1), value, other.skip(1));
                assert(child(written(tree, path, Some(value)), path[0]) == Some(
                    written(below, path.skip(1), Some(value)),
                ));
            },
            None => {},
        }
    } else {
        if path.len() == 1 {
            assert(!apart(path.skip(1), other.skip(1)));
        }
        assert(child(written(tree, path, Some(value)), other[0]) == child(tree, other[0]));
    }
}

/// A field that is removed leaves alone what lies on other paths.
pub proof fn removal_spares_others(tree: Tree, path: Seq<Step>, other: Seq<Step>)
    requires
        apart(path, other),
        path.last() is Key,
    ensures
        walked(written(tree, path, None), other) == walked(tree, other),
    decreases path.len(),
{
    if path[0] == other[0] && path.len() > 1 {
        assert(path.skip(1).last() == path.last());
        match child(tree, path[0]) {
            Some(below) => {
                removal_spares_others(below, path.skip(1), other.skip(1));
                assert(child(written(tree, path, None), path[0]) == Some(
                    written(below, path.skip(1), None),
                ));
            },
            None => {},
        }
    } else {
        if path.len() == 1 {
            assert(!apart(path.skip(1), other.skip(1)));
        }
        assert(child(written(tree, path, None), other[0]) == child(tree, other[0]));
    }
}

/// A change in place leaves alone what lies on other paths.
pub proof fn amending_spares_others(tree: Tree, path: Seq<Step>, op: Amendment, other: Seq<Step>)
    requires
        amend_fits(tree, path, op),
        apart(path, other),
    ensures
        walked(amended(tree, path, op), other) == walked(tree, other),
    decreases path.len(),
{
    if path[0] == other[0] {
        match child(tree, path[0]) {
            Some(below) => {
                if path.len() > 1 {
                    assert(path.drop_last()[0] == path[0]);
                    assert(path.drop_last().skip(1) =~= path.skip(1).drop_last());
                    assert(path.skip(1).last() == path.last());
                }
                amending_spares_others(below, path.skip(1), op, other.skip(1));
                assert(child(amended(tree, path, op), path[0]) == Some(
                    amended(below, path.skip(1), op),
                ));
            },
            None => {
                if path.len() > 1 {
                    assert(path.drop_last()[0] == path[0]);
                } else {
                    assert(!apart(path.skip(1), other.skip(1)));
                }
            },
        }
    } else {
        assert(child(amended(tree, path, op), other[0]) == child(tree, other[0]));
    }
}

/// What a node is told to be is what it is: a table with the names of its
/// fields, each once and in order, an array with the number of its items, or
/// neither.
pub proof fn a_node_is_what_it_is_told(meta: ValueMeta, tree: Tree)
    requires
        meta.describes(tree),
    ensures
        meta is Table <==> tree is Table,
        meta is Array <==> tree is Array,
        meta matches ValueMeta::Array { len } ==> len == tree->Array_0.len(),
        meta matches ValueMeta::Table { keys } ==> {
            &&& forall|i: int| 0 <= i < keys@.len() ==> tree->Table_0.contains_key(
                (#[trigger] keys@[i])@,
            )
            &&& forall|name: Seq<char>| #[trigger]
                tree->Table_0.contains_key(name) ==> exists|i: int|
                    0 <= i < keys@.len() && (#[trigger] keys@[i])@ == name
            &&& forall|i: int, j: int|
                0 <= i < j < keys@.len() ==> text_lt(
                    (#[trigger] keys@[i])@,
                    (#[trigger] keys@[j])@,
                )
        },
{
    if meta is Table {
        let keys = meta->keys;
        let names = keys@.map_values(|key: String| key@);
        assert forall|i: int| 0 <= i < keys@.len() implies tree->Table_0.contains_key(
            (#[trigger] keys@[i])@,
        ) by {
            assert(names[i] == keys@[i]@);
            assert(names.contains(names[i]));
        }
        assert forall|name: Seq<char>| #[trigger] tree->Table_0.contains_key(name) implies exists|
            i: int,
        |
            0 <= i < keys@.len() && (#[trigger] keys@[i])@ == name by {
            let i = choose|i: int| 0 <= i < names.len() && names[i] == name;
            assert(keys@[i]@ == name);
        }
        assert forall|i: int, j: int| 0 <= i < j < keys@.len() implies text_lt(
            (#[trigger] keys@[i])@,
            (#[trigger] keys@[j])@,
        ) by {
            assert(names[i] == keys@[i]@ && names[j] == keys@[j]@);
        }
    }
}

} // verus!
