//! The values namespaces hold.

use vstd::prelude::*;

use crate::digest::KeyId;
use crate::order::SortedMap;

verus! {

/// A public key, by its scheme.
#[derive(Debug, Clone, Copy, PartialEq, Eq)]
pub enum PublicKey {
    Ed25519([u8; 32]),
}

/// A key the ledger may trust, and what a signature of it is worth.
#[derive(Debug, Clone, Copy, PartialEq, Eq)]
pub struct Key {
    /// The key signatures are checked with.
    pub public: PublicKey,
    /// The id `public` derives to.
    pub id: KeyId,
    /// What a signature by this key is worth.
    pub weight: u32,
}

fn array_same(a: &[u8; 32], b: &[u8; 32]) -> (same: bool)
    ensures
        same == (a == b),
{
    let left = KeyId { bytes: *a };
    let right = KeyId { bytes: *b };
    left == right
}

impl Key {
    /// A key filed under the id its public half derives to.
    pub fn new(public: PublicKey, id: KeyId, weight: u32) -> (key: Self)
        ensures
            key == (Key { public, id, weight }),
    {
        Key { public, id, weight }
    }

    /// The id this key derives to.
    pub fn id(&self) -> (id: KeyId)
        ensures
            id == self.id,
    {
        self.id
    }

    /// What a signature by this key is worth.
    pub fn weight(&self) -> (weight: u32)
        ensures
            weight == self.weight,
    {
        self.weight
    }

    /// Whether two keys agree in every part.
    pub fn same(&self, other: &Self) -> (same: bool)
        ensures
            same == (*self == *other),
    {
        let PublicKey::Ed25519(a) = self.public;
        let PublicKey::Ed25519(b) = other.public;
        array_same(&a, &b) && self.id == other.id && self.weight == other.weight
    }
}

/// What a value is, apart from how it is stored.
pub enum Tree {
    Text(Seq<char>),
    Int(i64),
    Bool(bool),
    Key(Key),
    Table(Map<Seq<char>, Tree>),
    Array(Seq<Tree>),
}

/// One value in a namespace.
#[derive(Debug, PartialEq, Eq)]
pub enum Value {
    String(String),
    Int(i64),
    Bool(bool),
    Key(Key),
    Table(SortedMap<String, Value>),
    Array(Vec<Value>),
}

impl View for Value {
    type V = Tree;

    open spec fn view(&self) -> Tree {
        self.tree()
    }
}

impl Value {
    /// What the value is.
    pub open spec fn tree(&self) -> Tree
        decreases self,
    {
        match self {
            Value::String(text) => Tree::Text(text@),
            Value::Int(n) => Tree::Int(*n),
            Value::Bool(flag) => Tree::Bool(*flag),
            Value::Key(key) => Tree::Key(*key),
            Value::Table(fields) => Tree::Table(
                Map::new(
                    |k: Seq<char>| fields.has(k),
                    |k: Seq<char>|
                        {
                            let i = fields.index_of(k);
                            if 0 <= i < fields.entries@.len() {
                                fields.entries@[i].1.tree()
                            } else {
                                arbitrary()
                            }
                        },
                ),
            ),
            Value::Array(items) => Tree::Array(
                Seq::new(
                    items@.len(),
                    |i: int|
                        if 0 <= i < items@.len() {
                            items@[i].tree()
                        } else {
                            arbitrary()
                        },
                ),
            ),
        }
    }

    /// Whether every map inside keeps its entries in order.
    pub open spec fn wf(&self) -> bool
        decreases self,
    {
        match self {
            Value::Table(fields) => {
                &&& fields.wf()
                &&& forall|i: int|
                    0 <= i < fields.entries@.len() ==> (#[trigger] fields.entries@[i]).1.wf()
            },
            Value::Array(items) => forall|i: int|
                0 <= i < items@.len() ==> (#[trigger] items@[i]).wf(),
            _ => true,
        }
    }
}

/// What the fields of a table hold, by name.
pub open spec fn fields_tree(fields: SortedMap<String, Value>) -> Map<Seq<char>, Tree> {
    Map::new(|k: Seq<char>| fields@.contains_key(k), |k: Seq<char>| fields@[k].tree())
}

/// What the items of an array are, in order.
pub open spec fn items_tree(items: Seq<Value>) -> Seq<Tree> {
    items.map_values(|item: Value| item.tree())
}

/// The tree of a table is that of its fields.
pub proof fn table_tree(fields: SortedMap<String, Value>)
    requires
        fields.wf(),
    ensures
        Value::Table(fields).tree() == Tree::Table(fields_tree(fields)),
        forall|i: int|
            0 <= i < fields.entries@.len() ==> fields_tree(fields).contains_key(
                (#[trigger] fields.entries@[i]).0@,
            ) && fields_tree(fields)[fields.entries@[i].0@] == fields.entries@[i].1.tree(),
{
    let tree = Value::Table(fields).tree()->Table_0;
    assert(tree =~= fields_tree(fields)) by {
        assert forall|k: Seq<char>| fields.has(k) implies 0 <= #[trigger] fields.index_of(k)
            < fields.entries@.len() by {
            assert(fields.filed(fields.index_of(k), k));
        }
    }
    assert forall|i: int| 0 <= i < fields.entries@.len() implies fields_tree(fields).contains_key(
        (#[trigger] fields.entries@[i]).0@,
    ) && fields_tree(fields)[fields.entries@[i].0@] == fields.entries@[i].1.tree() by {
        fields.filed_once(i, fields.entries@[i].0@);
    }
}

/// The tree of an array is that of its items.
pub proof fn array_tree(items: Vec<Value>)
    ensures
        Value::Array(items).tree() == Tree::Array(items_tree(items@)),
{
    assert(Value::Array(items).tree()->Array_0 =~= items_tree(items@));
}

/// Tables with the same names in the same places and the same trees under
/// them are the same.
pub proof fn same_fields(a: SortedMap<String, Value>, b: SortedMap<String, Value>)
    requires
        a.wf(),
        a.entries@.len() == b.entries@.len(),
        forall|i: int|
            0 <= i < a.entries@.len() ==> (#[trigger] a.entries@[i]).0@ == b.entries@[i].0@
                && a.entries@[i].1.tree() == b.entries@[i].1.tree(),
    ensures
        b.wf(),
        fields_tree(a) == fields_tree(b),
{
    assert forall|i: int, j: int| 0 <= i < j < b.entries@.len() implies <String as crate::order::Ordered>::lt(
        (#[trigger] b.entries@[i]).0@,
        (#[trigger] b.entries@[j]).0@,
    ) by {
        assert(a.entries@[i].0@ == b.entries@[i].0@);
        assert(a.entries@[j].0@ == b.entries@[j].0@);
    }
    let left = fields_tree(a);
    let right = fields_tree(b);
    assert forall|k: Seq<char>|
        #![trigger left.dom().contains(k)]
        #![trigger right.dom().contains(k)]
        #![trigger left[k]]
        #![trigger right[k]]
        left.dom().contains(k) == right.dom().contains(k) && (left.dom().contains(k) ==> left[k]
            == right[k]) by {
        if a.has(k) {
            let i = a.index_of(k);
            assert(a.filed(i, k));
            assert(a.entries@[i].0@ == b.entries@[i].0@);
            assert(b.filed(i, k));
            a.filed_once(i, k);
            b.filed_once(i, k);
        }
        if b.has(k) {
            let i = b.index_of(k);
            assert(b.filed(i, k));
            assert(a.entries@[i].0@ == b.entries@[i].0@);
            assert(a.filed(i, k));
            a.filed_once(i, k);
            b.filed_once(i, k);
        }
    }
    assert(left =~= right);
}

/// A table is larger than any field of it.
pub proof fn field_is_smaller(value: Value, i: int)
    requires
        value is Table,
        0 <= i < value->Table_0.entries@.len(),
    ensures
        decreases_to!(value => value->Table_0.entries@[i].1),
{
    let fields = value->Table_0;
    assert(decreases_to!(value => value->Table_0));
    assert(decreases_to!(fields => fields.entries));
    assert(decreases_to!(fields.entries => fields.entries@));
    assert(decreases_to!(fields.entries@ => fields.entries@[i]));
    assert(decreases_to!(fields.entries@[i] => fields.entries@[i].1));
}

/// An array is larger than any item of it.
pub proof fn item_is_smaller(value: Value, i: int)
    requires
        value is Array,
        0 <= i < value->Array_0@.len(),
    ensures
        decreases_to!(value => value->Array_0@[i]),
{
    let items = value->Array_0;
    assert(decreases_to!(value => value->Array_0));
    assert(decreases_to!(items => items@));
    assert(decreases_to!(items@ => items@[i]));
}

/// How many entries a container has; none, for a leaf.
pub open spec fn entry_count(value: Value) -> nat {
    match value {
        Value::Table(fields) => fields.entries@.len(),
        Value::Array(items) => items@.len(),
        _ => 0,
    }
}

/// The entry at `i` of a container.
pub open spec fn entry_value(value: Value, i: int) -> Value {
    match value {
        Value::Table(fields) => fields.entries@[i].1,
        Value::Array(items) => items@[i],
        _ => value,
    }
}

/// Entries are smaller than their container.
pub proof fn entries_are_smaller(value: Value, i: int)
    requires
        0 <= i < entry_count(value),
    ensures
        decreases_to!(value => entry_value(value, i)),
{
    match value {
        Value::Table(_) => {
            field_is_smaller(value, i);
        },
        Value::Array(_) => {
            item_is_smaller(value, i);
        },
        _ => {},
    }
}

impl Clone for Value {
    fn clone(&self) -> (copy: Self)
        ensures
            self.wf() ==> copy.wf() && copy.tree() == self.tree(),
        decreases self,
    {
        match self {
            Value::String(text) => Value::String(text.clone()),
            Value::Int(n) => Value::Int(*n),
            Value::Bool(flag) => Value::Bool(*flag),
            Value::Key(key) => Value::Key(*key),
            Value::Table(fields) => {
                let mut entries: Vec<(String, Value)> = Vec::new();
                let mut i: usize = 0;
                while i < fields.entries.len()
                    invariant
                        i <= fields.entries@.len(),
                        entries@.len() == i,
                        *self == Value::Table(*fields),
                        forall|j: int| 0 <= j < i ==> (#[trigger] entries@[j]).0@ == fields.entries@[j].0@,
                        forall|j: int|
                            0 <= j < i && fields.entries@[j].1.wf() ==> (#[trigger] entries@[j]).1.wf()
                                && entries@[j].1.tree() == fields.entries@[j].1.tree(),
                    decreases fields.entries@.len() - i,
                {
                    proof {
                        field_is_smaller(*self, i as int);
                    }
                    let entry = &fields.entries[i];
                    entries.push((entry.0.clone(), entry.1.clone()));
                    i += 1;
                }
                let copy = SortedMap { entries };
                proof {
                    if self.wf() {
                        same_fields(*fields, copy);
                        table_tree(*fields);
                        table_tree(copy);
                    }
                }
                Value::Table(copy)
            },
            Value::Array(items) => {
                let mut copy: Vec<Value> = Vec::new();
                let mut i: usize = 0;
                while i < items.len()
                    invariant
                        i <= items@.len(),
                        copy@.len() == i,
                        *self == Value::Array(*items),
                        forall|j: int|
                            0 <= j < i && items@[j].wf() ==> (#[trigger] copy@[j]).wf()
                                && copy@[j].tree() == items@[j].tree(),
                    decreases items@.len() - i,
                {
                    proof {
                        item_is_smaller(*self, i as int);
                    }
                    copy.push(items[i].clone());
                    i += 1;
                }
                proof {
                    array_tree(*items);
                    array_tree(copy);
                    if self.wf() {
                        assert(items_tree(items@) =~= items_tree(copy@));
                    }
                }
                Value::Array(copy)
            },
        }
    }
}

impl Value {
    /// Whether two values are the same.
    pub fn same(&self, other: &Self) -> (same: bool)
        requires
            self.wf(),
            other.wf(),
        ensures
            same == (self.tree() == other.tree()),
        decreases self,
    {
        match (self, other) {
            (Value::String(a), Value::String(b)) => *a == *b,
            (Value::Int(a), Value::Int(b)) => *a == *b,
            (Value::Bool(a), Value::Bool(b)) => *a == *b,
            (Value::Key(a), Value::Key(b)) => a.same(b),
            (Value::Table(a), Value::Table(b)) => {
                proof {
                    table_tree(*a);
                    table_tree(*b);
                }
                let ghost left = fields_tree(*a);
                let ghost right = fields_tree(*b);
                let mut i: usize = 0;
                while i < a.entries.len()
                    invariant
                        i <= a.entries@.len(),
                        *self == Value::Table(*a),
                        self.wf(),
                        other.wf(),
                        *other == Value::Table(*b),
                        left == fields_tree(*a),
                        right == fields_tree(*b),
                        self.tree() == Tree::Table(left),
                        other.tree() == Tree::Table(right),
                        forall|j: int|
                            0 <= j < a.entries@.len() ==> left.contains_key(
                                (#[trigger] a.entries@[j]).0@,
                            ) && left[a.entries@[j].0@] == a.entries@[j].1.tree(),
                        forall|j: int|
                            0 <= j < i ==> right.contains_key((#[trigger] a.entries@[j]).0@)
                                && right[a.entries@[j].0@] == a.entries@[j].1.tree(),
                    decreases a.entries@.len() - i,
                {
                    proof {
                        field_is_smaller(*self, i as int);
                    }
                    let entry = &a.entries[i];
                    let ghost k = entry.0@;
                    match b.find(&entry.0) {
                        Ok(at) => {
                            proof {
                                b.filed_once(at as int, k);
                            }
                            if !entry.1.same(&b.entries[at].1) {
                                assert(left[k] != right[k]);
                                return false;
                            }
                        },
                        Err(_) => {
                            assert(left.contains_key(k) && !right.contains_key(k));
                            return false;
                        },
                    }
                    i += 1;
                }
                let mut n: usize = 0;
                while n < b.entries.len()
                    invariant
                        n <= b.entries@.len(),
                        a.wf(),
                        b.wf(),
                        left == fields_tree(*a),
                        right == fields_tree(*b),
                        self.tree() == Tree::Table(left),
                        other.tree() == Tree::Table(right),
                        forall|j: int|
                            0 <= j < n ==> left.contains_key((#[trigger] b.entries@[j]).0@),
                    decreases b.entries@.len() - n,
                {
                    if !a.contains(&b.entries[n].0) {
                        proof {
                            let k = b.entries@[n as int].0@;
                            b.filed_once(n as int, k);
                            assert(right.contains_key(k) && !left.contains_key(k));
                        }
                        return false;
                    }
                    n += 1;
                }
                proof {
                    assert forall|k: Seq<char>|
                        #![trigger left.dom().contains(k)]
                        #![trigger right.dom().contains(k)]
                        #![trigger left[k]]
                        #![trigger right[k]]
                        left.dom().contains(k) == right.dom().contains(k) && (left.dom().contains(k)
                            ==> left[k] == right[k]) by {
                        if a.has(k) {
                            let j = a.index_of(k);
                            assert(a.filed(j, k));
                            assert(a.entries@[j].0@ == k);
                        }
                        if b.has(k) {
                            let j = b.index_of(k);
                            assert(b.filed(j, k));
                            assert(b.entries@[j].0@ == k);
                        }
                    }
                    assert(left =~= right);
                }
                true
            },
            (Value::Array(a), Value::Array(b)) => {
                proof {
                    array_tree(*a);
                    array_tree(*b);
                }
                let ghost left = items_tree(a@);
                let ghost right = items_tree(b@);
                if a.len() != b.len() {
                    assert(left.len() != right.len());
                    return false;
                }
                let mut i: usize = 0;
                while i < a.len()
                    invariant
                        i <= a@.len(),
                        a@.len() == b@.len(),
                        *self == Value::Array(*a),
                        *other == Value::Array(*b),
                        self.wf(),
                        other.wf(),
                        left == items_tree(a@),
                        right == items_tree(b@),
                        self.tree() == Tree::Array(left),
                        other.tree() == Tree::Array(right),
                        forall|j: int| 0 <= j < i ==> left[j] == right[j],
                    decreases a@.len() - i,
                {
                    proof {
                        item_is_smaller(*self, i as int);
                    }
                    if !a[i].same(&b[i]) {
                        assert(left[i as int] != right[i as int]);
                        return false;
                    }
                    i += 1;
                }
                assert(left =~= right);
                true
            },
            _ => false,
        }
    }
}

} // verus!
