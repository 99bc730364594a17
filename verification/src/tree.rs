//! Walks over what a value is.

use vstd::prelude::*;

use crate::subkey::Step;
use crate::value::Tree;

verus! {

/// What one step down from `tree` reaches.
pub open spec fn child(tree: Tree, step: Step) -> Option<Tree> {
    match (tree, step) {
        (Tree::Table(fields), Step::Key(name)) => if fields.contains_key(name) {
            Some(fields[name])
        } else {
            None
        },
        (Tree::Array(items), Step::Index(index)) => if index < items.len() {
            Some(items[index as int])
        } else {
            None
        },
        _ => None,
    }
}

/// What `path` addresses in `tree`.
pub open spec fn walked(tree: Tree, path: Seq<Step>) -> Option<Tree>
    decreases path.len(),
{
    if path.len() == 0 {
        Some(tree)
    } else {
        match child(tree, path[0]) {
            Some(below) => walked(below, path.skip(1)),
            None => None,
        }
    }
}

/// `tree` with the child one step down replaced.
pub open spec fn with_child(tree: Tree, step: Step, below: Tree) -> Tree {
    match (tree, step) {
        (Tree::Table(fields), Step::Key(name)) => Tree::Table(fields.insert(name, below)),
        (Tree::Array(items), Step::Index(index)) => if index < items.len() {
            Tree::Array(items.update(index as int, below))
        } else {
            tree
        },
        _ => tree,
    }
}

/// `tree` without the child one step down; what followed it in an array
/// moves up.
pub open spec fn without_child(tree: Tree, step: Step) -> Tree {
    match (tree, step) {
        (Tree::Table(fields), Step::Key(name)) => Tree::Table(fields.remove(name)),
        (Tree::Array(items), Step::Index(index)) => if index < items.len() {
            Tree::Array(items.remove(index as int))
        } else {
            tree
        },
        _ => tree,
    }
}

/// A walk is a walk to the parent and one step more.
pub proof fn walked_last(tree: Tree, path: Seq<Step>)
    requires
        path.len() > 0,
    ensures
        walked(tree, path) == match walked(tree, path.drop_last()) {
            Some(parent) => child(parent, path.last()),
            None => None,
        },
    decreases path.len(),
{
    if path.len() == 1 {
        assert(path.drop_last().len() == 0);
        match child(tree, path[0]) {
            Some(below) => {
                assert(path.skip(1).len() == 0);
            },
            None => {},
        }
    } else {
        assert(path.drop_last()[0] == path[0]);
        match child(tree, path[0]) {
            Some(below) => {
                walked_last(below, path.skip(1));
                assert(path.skip(1).drop_last() =~= path.drop_last().skip(1));
            },
            None => {},
        }
    }
}

} // verus!
