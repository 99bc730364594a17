//! Ledger values as the JSON a person types and reads.
//!
//! Plain JSON: objects are tables, numbers must be whole, and a trusted key,
//! which plain JSON has no shape for, is shown in a tagged form and never
//! read back from it. So text typed into a form can create every kind of
//! value but a key, which keeps the trusted key set out of reach of a stray
//! edit.

use serde_json::Value as JsonValue;
use vstd::prelude::*;

use crate::digest::{hex_chars, hex_of};
use crate::order::SortedMap;
use crate::text::{
    append, chars_of, is_white, signed_decimal, text_lt, text_of, trim, trim_end, trim_start,
    trimmed,
};
use crate::value::{
    array_tree, field_is_smaller, fields_tree, item_is_smaller, items_tree, table_tree, Key,
    PublicKey, Tree, Value,
};

verus! {

/// `serde_json::Value`: one JSON value.
#[verifier::external_type_specification]
#[verifier::external_body]
pub struct ExJsonValue(JsonValue);

/// What a JSON value holds. A number is what it comes to as an `i64`, where
/// it is one, and its digits; an object is its fields in the order they are
/// walked in.
pub enum JsonTree {
    Null,
    Bool(bool),
    Number(Option<i64>, Seq<char>),
    Text(Seq<char>),
    Array(Seq<JsonTree>),
    Object(Seq<(Seq<char>, JsonTree)>),
}

/// What a `serde_json::Value` holds.
pub uninterp spec fn json_held(value: JsonValue) -> JsonTree;

/// What `serde_json::from_str` reads `text` as, or what it says is wrong
/// with it.
pub uninterp spec fn json_of(text: Seq<char>) -> Result<JsonTree, Seq<char>>;

/// What `serde_json` prints on one line for a value that holds `json`.
pub uninterp spec fn json_text(json: JsonTree) -> Seq<char>;

/// What `serde_json` prints over lines for a value that holds `json`.
pub uninterp spec fn json_pretty(json: JsonTree) -> Seq<char>;

/// What each of `values` holds.
pub open spec fn all_held(values: Seq<JsonValue>) -> Seq<JsonTree> {
    values.map_values(|value: JsonValue| json_held(value))
}

/// What each of `fields` is called and holds.
pub open spec fn fields_held(fields: Seq<(String, JsonValue)>) -> Seq<
    (Seq<char>, JsonTree),
> {
    fields.map_values(|field: (String, JsonValue)| (field.0@, json_held(field.1)))
}

/// The outermost level of a JSON value.
#[derive(Debug)]
pub enum JsonNode {
    Null,
    Bool(bool),
    Number(Option<i64>, String),
    Text(String),
    Array(Vec<JsonValue>),
    Object(Vec<(String, JsonValue)>),
}

impl View for JsonNode {
    type V = JsonTree;

    open spec fn view(&self) -> JsonTree {
        match self {
            JsonNode::Null => JsonTree::Null,
            JsonNode::Bool(flag) => JsonTree::Bool(*flag),
            JsonNode::Number(whole, digits) => JsonTree::Number(*whole, digits@),
            JsonNode::Text(text) => JsonTree::Text(text@),
            JsonNode::Array(items) => JsonTree::Array(all_held(items@)),
            JsonNode::Object(fields) => JsonTree::Object(fields_held(fields@)),
        }
    }
}

/// `serde_json::from_str`: reads `text` as JSON, the failure in its own
/// words. Claimed: what comes back depends on the text alone.
#[verifier::external_body]
fn read_json(text: &str) -> (json: Result<JsonValue, String>)
    ensures
        match (json, json_of(text@)) {
            (Ok(value), Ok(held)) => held == json_held(value),
            (Err(said), Err(why)) => why == said@,
            _ => false,
        },
{
    serde_json::from_str(text).map_err(|e| e.to_string())
}

/// The variants of `serde_json::Value`, one level down, with
/// `Number::as_i64` and a number's own text. Claimed: the level shown holds
/// what the value holds.
#[verifier::external_body]
fn open_json(value: JsonValue) -> (node: JsonNode)
    ensures
        node@ == json_held(value),
{
    match value {
        JsonValue::Null => JsonNode::Null,
        JsonValue::Bool(flag) => JsonNode::Bool(flag),
        JsonValue::Number(n) => JsonNode::Number(n.as_i64(), n.to_string()),
        JsonValue::String(text) => JsonNode::Text(text),
        JsonValue::Array(items) => JsonNode::Array(items),
        JsonValue::Object(fields) => JsonNode::Object(fields.into_iter().collect()),
    }
}

/// `serde_json::Value::String`.
#[verifier::external_body]
fn json_string(text: String) -> (value: JsonValue)
    ensures
        json_held(value) == JsonTree::Text(text@),
{
    JsonValue::String(text)
}

/// `serde_json::Value::from` on an integer: a number that is whole, and
/// whose digits are the integer's.
#[verifier::external_body]
fn json_integer(n: i64) -> (value: JsonValue)
    ensures
        json_held(value) == JsonTree::Number(Some(n), signed_decimal(n as int)),
{
    JsonValue::from(n)
}

/// `serde_json::Value::Bool`.
#[verifier::external_body]
fn json_bool(flag: bool) -> (value: JsonValue)
    ensures
        json_held(value) == JsonTree::Bool(flag),
{
    JsonValue::Bool(flag)
}

/// `serde_json::Value::Array`.
#[verifier::external_body]
fn json_array(items: Vec<JsonValue>) -> (value: JsonValue)
    ensures
        json_held(value) == JsonTree::Array(all_held(items@)),
{
    JsonValue::Array(items)
}

/// Whether fields stand in the order of their names, none twice.
pub open spec fn ascending(fields: Seq<(Seq<char>, JsonTree)>) -> bool {
    forall|i: int, j: int|
        0 <= i < j < fields.len() ==> text_lt((#[trigger] fields[i]).0, (#[trigger] fields[j]).0)
}

/// `serde_json::Value::Object` of a `serde_json::Map` collected from
/// `fields`. Claimed only of fields that come in the order of their names:
/// they are walked in the same order again.
#[verifier::external_body]
fn json_object(fields: Vec<(String, JsonValue)>) -> (value: JsonValue)
    requires
        ascending(fields_held(fields@)),
    ensures
        json_held(value) == JsonTree::Object(fields_held(fields@)),
{
    JsonValue::Object(fields.into_iter().collect())
}

/// `serde_json::Value`'s own text, on one line. Claimed: it depends on what
/// the value holds alone.
#[verifier::external_body]
fn print_json(value: &JsonValue) -> (text: String)
    ensures
        text@ == json_text(json_held(*value)),
{
    value.to_string()
}

/// `serde_json::to_string_pretty`, which does not fail on a
/// `serde_json::Value`. Claimed: the text depends on what the value holds
/// alone; it neither starts nor ends in white space; and it reads back as
/// what it was printed from, where that is [`readable`].
#[verifier::external_body]
fn print_json_pretty(value: &JsonValue) -> (text: String)
    ensures
        text@ == json_pretty(json_held(*value)),
        text@.len() > 0,
        !is_white(text@[0]),
        !is_white(text@.last()),
        match json_of(text@) {
            Ok(held) => readable(json_held(*value), 127) ==> held == json_held(*value),
            Err(_) => !readable(json_held(*value), 127),
        },
{
    serde_json::to_string_pretty(value).expect("a JSON value serializes")
}

/// The name `serde_json` keeps to itself: an object whose first field has
/// it is read as the JSON in that field.
pub open spec fn reserved_name() -> Seq<char> {
    "$serde_json::private::RawValue"@
}

/// Whether JSON is nested at most `depth` deep, its numbers are whole, its
/// objects name their fields in order and none starts with the name that
/// stands for JSON in text.
pub open spec fn readable(json: JsonTree, depth: nat) -> bool
    decreases json,
{
    match json {
        JsonTree::Number(whole, digits) => whole matches Some(n) && digits == signed_decimal(
            n as int,
        ),
        JsonTree::Array(items) => depth > 0 && forall|i: int|
            0 <= i < items.len() ==> readable(#[trigger] items[i], (depth - 1) as nat),
        JsonTree::Object(fields) => {
            &&& depth > 0
            &&& ascending(fields)
            &&& fields.len() > 0 ==> fields[0].0 != reserved_name()
            &&& forall|i: int|
                0 <= i < fields.len() ==> readable(
                    (#[trigger] fields[i]).1,
                    (depth - 1) as nat,
                )
        },
        _ => true,
    }
}

/// Why text could not be read as a ledger value.
#[derive(Debug, PartialEq, Eq)]
pub enum ParseError {
    /// The text is not JSON; what is wrong with it.
    Syntax(String),
    /// A number is not a whole one an `i64` holds; its digits.
    NotInteger(String),
    /// The ledger holds no null.
    Null,
}

/// What a reading was refused for.
pub enum Refusal {
    Syntax(Seq<char>),
    NotInteger(Seq<char>),
    Null,
}

impl View for ParseError {
    type V = Refusal;

    open spec fn view(&self) -> Refusal {
        match self {
            ParseError::Syntax(said) => Refusal::Syntax(said@),
            ParseError::NotInteger(digits) => Refusal::NotInteger(digits@),
            ParseError::Null => Refusal::Null,
        }
    }
}

impl Refusal {
    /// The refusal as a person reads it.
    pub open spec fn text(self) -> Seq<char> {
        match self {
            Refusal::Syntax(said) => "not JSON: "@ + said,
            Refusal::NotInteger(digits) => digits + " is not a whole number an i64 holds"@,
            Refusal::Null => "null is not a value the ledger holds"@,
        }
    }
}

impl ParseError {
    /// The refusal as a person reads it.
    pub fn text(&self) -> (text: String)
        ensures
            text@ == self@.text(),
    {
        let mut line: Vec<char> = Vec::new();
        match self {
            ParseError::Syntax(said) => {
                append(&mut line, "not JSON: ");
                append(&mut line, said.as_str());
            },
            ParseError::NotInteger(digits) => {
                append(&mut line, digits.as_str());
                append(&mut line, " is not a whole number an i64 holds");
            },
            ParseError::Null => {
                append(&mut line, "null is not a value the ledger holds");
            },
        }
        assert(line@ =~= self@.text());
        text_of(&line)
    }
}

/// The ledger value that JSON is, or the first thing in it that the ledger
/// cannot hold.
pub open spec fn value_of(json: JsonTree) -> Result<Tree, Refusal>
    decreases json,
{
    match json {
        JsonTree::Null => Err(Refusal::Null),
        JsonTree::Bool(flag) => Ok(Tree::Bool(flag)),
        JsonTree::Number(Some(n), _) => Ok(Tree::Int(n)),
        JsonTree::Number(None, digits) => Err(Refusal::NotInteger(digits)),
        JsonTree::Text(text) => Ok(Tree::Text(text)),
        JsonTree::Array(items) => match items_of(items) {
            Ok(items) => Ok(Tree::Array(items)),
            Err(why) => Err(why),
        },
        JsonTree::Object(fields) => match fields_of(fields) {
            Ok(fields) => Ok(Tree::Table(fields)),
            Err(why) => Err(why),
        },
    }
}

/// The ledger values that items are, in order.
pub open spec fn items_of(items: Seq<JsonTree>) -> Result<Seq<Tree>, Refusal>
    decreases items,
{
    if items.len() == 0 {
        Ok(Seq::empty())
    } else {
        match items_of(items.subrange(0, items.len() - 1)) {
            Err(why) => Err(why),
            Ok(front) => match value_of(items[items.len() - 1]) {
                Err(why) => Err(why),
                Ok(last) => Ok(front.push(last)),
            },
        }
    }
}

/// The ledger values that fields are, by name.
pub open spec fn fields_of(fields: Seq<(Seq<char>, JsonTree)>) -> Result<
    Map<Seq<char>, Tree>,
    Refusal,
>
    decreases fields,
{
    if fields.len() == 0 {
        Ok(Map::empty())
    } else {
        match fields_of(fields.subrange(0, fields.len() - 1)) {
            Err(why) => Err(why),
            Ok(front) => match value_of(fields[fields.len() - 1].1) {
                Err(why) => Err(why),
                Ok(last) => Ok(front.insert(fields[fields.len() - 1].0, last)),
            },
        }
    }
}

/// An item that is refused is what all of the items are refused for.
proof fn refused_items(items: Seq<JsonTree>, n: int)
    requires
        0 <= n <= items.len(),
        items_of(items.take(n)) is Err,
    ensures
        items_of(items) == items_of(items.take(n)),
    decreases items.len() - n,
{
    if n < items.len() {
        assert(items.take(n + 1).subrange(0, n) =~= items.take(n));
        refused_items(items, n + 1);
    } else {
        assert(items.take(n) =~= items);
    }
}

/// A field that is refused is what all of the fields are refused for.
proof fn refused_fields(fields: Seq<(Seq<char>, JsonTree)>, n: int)
    requires
        0 <= n <= fields.len(),
        fields_of(fields.take(n)) is Err,
    ensures
        fields_of(fields) == fields_of(fields.take(n)),
    decreases fields.len() - n,
{
    if n < fields.len() {
        assert(fields.take(n + 1).subrange(0, n) =~= fields.take(n));
        refused_fields(fields, n + 1);
    } else {
        assert(fields.take(n) =~= fields);
    }
}

/// Reads JSON as a ledger value.
pub fn from_json(json: JsonValue) -> (value: Result<Value, ParseError>)
    ensures
        match (value, value_of(json_held(json))) {
            (Ok(value), Ok(tree)) => value.wf() && value.tree() == tree,
            (Err(e), Err(why)) => e@ == why,
            _ => false,
        },
    decreases json_held(json),
{
    let ghost whole = json_held(json);
    match open_json(json) {
        JsonNode::Null => Err(ParseError::Null),
        JsonNode::Bool(flag) => Ok(Value::Bool(flag)),
        JsonNode::Number(Some(n), _) => Ok(Value::Int(n)),
        JsonNode::Number(None, digits) => Err(ParseError::NotInteger(digits)),
        JsonNode::Text(text) => Ok(Value::String(text)),
        JsonNode::Array(items) => {
            let ghost given = items@;
            let ghost held = all_held(items@);
            let mut read: Vec<Value> = Vec::new();
            assert(items_tree(read@) =~= Seq::<Tree>::empty());
            for item in it: items.into_iter()
                invariant
                    it.seq() == given,
                    held == all_held(given),
                    whole == JsonTree::Array(held),
                    whole == json_held(json),
                    items_of(held.take(it.index())) == Ok::<Seq<Tree>, Refusal>(items_tree(read@)),
                    forall|j: int| 0 <= j < read@.len() ==> (#[trigger] read@[j]).wf(),
            {
                proof {
                    let n = it.index();
                    assert(held[n] == json_held(item));
                    assert(decreases_to!(whole => held));
                    assert(decreases_to!(held => held[n]));
                    assert(held.take(n + 1).subrange(0, n) =~= held.take(n));
                }
                match from_json(item) {
                    Ok(value) => {
                        let ghost before = items_tree(read@);
                        let ghost tree = value.tree();
                        read.push(value);
                        assert(items_tree(read@) =~= before.push(tree));
                    },
                    Err(e) => {
                        proof {
                            refused_items(held, it.index() + 1);
                        }
                        return Err(e);
                    },
                }
            }
            proof {
                assert(held.take(held.len() as int) =~= held);
                array_tree(read);
            }
            Ok(Value::Array(read))
        },
        JsonNode::Object(fields) => {
            let ghost given = fields@;
            let ghost held = fields_held(fields@);
            let mut read: SortedMap<String, Value> = SortedMap::new();
            assert(fields_tree(read) =~= Map::<Seq<char>, Tree>::empty());
            for field in it: fields.into_iter()
                invariant
                    it.seq() == given,
                    held == fields_held(given),
                    whole == JsonTree::Object(held),
                    whole == json_held(json),
                    fields_of(held.take(it.index())) == Ok::<Map<Seq<char>, Tree>, Refusal>(
                        fields_tree(read),
                    ),
                    Value::Table(read).wf(),
            {
                proof {
                    let n = it.index();
                    assert(held[n] == (field.0@, json_held(field.1)));
                    assert(decreases_to!(whole => held));
                    assert(decreases_to!(held => held[n]));
                    assert(decreases_to!(held[n] => held[n].1));
                    assert(held.take(n + 1).subrange(0, n) =~= held.take(n));
                }
                let (name, inner) = field;
                match from_json(inner) {
                    Ok(value) => {
                        let ghost before = read;
                        let ghost tree = value.tree();
                        let ghost called = name@;
                        read.insert(name, value);
                        proof {
                            assert(fields_tree(read) =~= fields_tree(before).insert(called, tree));
                            assert forall|i: int| 0 <= i < read.entries@.len() implies (
                            #[trigger] read.entries@[i]).1.wf() by {
                                let k = read.entries@[i].0@;
                                read.filed_once(i, k);
                                if k != called {
                                    before.filed_somewhere(k);
                                }
                            }
                        }
                    },
                    Err(e) => {
                        proof {
                            refused_fields(held, it.index() + 1);
                        }
                        return Err(e);
                    },
                }
            }
            proof {
                assert(held.take(held.len() as int) =~= held);
                table_tree(read);
            }
            Ok(Value::Table(read))
        },
    }
}

/// The ledger value that text spells, or why it spells none.
pub open spec fn read_value(text: Seq<char>) -> Result<Tree, Refusal> {
    match json_of(trimmed(text)) {
        Ok(json) => value_of(json),
        Err(said) => Err(Refusal::Syntax(said)),
    }
}

/// Reads `text` as a JSON literal, a string being quoted, and that as a
/// ledger value.
pub fn parse(text: &str) -> (value: Result<Value, ParseError>)
    ensures
        match (value, read_value(text@)) {
            (Ok(value), Ok(tree)) => value.wf() && value.tree() == tree,
            (Err(e), Err(why)) => e@ == why,
            _ => false,
        },
{
    let chars = trim(text);
    let inner = text_of(&chars);
    match read_json(inner.as_str()) {
        Ok(json) => from_json(json),
        Err(said) => Err(ParseError::Syntax(said)),
    }
}

/// The bytes of a public key.
pub open spec fn key_bytes(public: PublicKey) -> Seq<u8> {
    match public {
        PublicKey::Ed25519(bytes) => bytes@,
    }
}

/// A trusted key in the tagged form.
pub open spec fn key_json(key: Key) -> JsonTree {
    JsonTree::Object(
        seq![
            (
                "key"@,
                JsonTree::Object(
                    seq![
                        ("ed25519"@, JsonTree::Text(hex_of(key_bytes(key.public)))),
                        (
                            "weight"@,
                            JsonTree::Number(Some(key.weight as i64), signed_decimal(key.weight as int)),
                        ),
                    ],
                ),
            ),
        ],
    )
}

/// A ledger value as plain JSON, a trusted key in the tagged form.
pub open spec fn json_tree(value: Value) -> JsonTree
    decreases value,
{
    match value {
        Value::String(text) => JsonTree::Text(text@),
        Value::Int(n) => JsonTree::Number(Some(n), signed_decimal(n as int)),
        Value::Bool(flag) => JsonTree::Bool(flag),
        Value::Key(key) => key_json(key),
        Value::Array(items) => JsonTree::Array(
            Seq::new(
                items@.len(),
                |i: int|
                    if 0 <= i < items@.len() {
                        json_tree(items@[i])
                    } else {
                        arbitrary()
                    },
            ),
        ),
        Value::Table(fields) => JsonTree::Object(
            Seq::new(
                fields.entries@.len(),
                |i: int|
                    if 0 <= i < fields.entries@.len() {
                        (fields.entries@[i].0@, json_tree(fields.entries@[i].1))
                    } else {
                        arbitrary()
                    },
            ),
        ),
    }
}

/// The names of the tagged form stand in order.
proof fn tags_ascend(key: Key)
    ensures
        ascending(key_json(key)->Object_0),
        ascending((key_json(key)->Object_0[0].1)->Object_0),
{
    reveal_strlit("ed25519");
    reveal_strlit("weight");
    assert("ed25519"@[0] == 'e' && "weight"@[0] == 'w');
    assert(text_lt("ed25519"@, "weight"@));
}

fn key_to_json(key: &Key) -> (json: JsonValue)
    ensures
        json_held(json) == key_json(*key),
{
    let PublicKey::Ed25519(bytes) = key.public;
    let hex = hex_chars(&bytes);
    let mut inner: Vec<(String, JsonValue)> = Vec::new();
    inner.push(("ed25519".to_owned(), json_string(text_of(&hex))));
    inner.push(("weight".to_owned(), json_integer(key.weight as i64)));
    proof {
        tags_ascend(*key);
        assert(fields_held(inner@) =~= seq![
            ("ed25519"@, JsonTree::Text(hex_of(key_bytes(key.public)))),
            (
                "weight"@,
                JsonTree::Number(Some(key.weight as i64), signed_decimal(key.weight as int)),
            ),
        ]);
    }
    let inner = json_object(inner);
    let ghost within = json_held(inner);
    let mut outer: Vec<(String, JsonValue)> = Vec::new();
    outer.push(("key".to_owned(), inner));
    assert(fields_held(outer@) =~= seq![("key"@, within)]);
    json_object(outer)
}

/// Writes a ledger value as plain JSON, a trusted key in the tagged form.
pub fn to_json(value: &Value) -> (json: JsonValue)
    requires
        value.wf(),
    ensures
        json_held(json) == json_tree(*value),
    decreases value,
{
    match value {
        Value::String(text) => json_string(text.clone()),
        Value::Int(n) => json_integer(*n),
        Value::Bool(flag) => json_bool(*flag),
        Value::Key(key) => key_to_json(key),
        Value::Array(items) => {
            let mut out: Vec<JsonValue> = Vec::new();
            let mut i: usize = 0;
            while i < items.len()
                invariant
                    i <= items@.len(),
                    *value == Value::Array(*items),
                    value.wf(),
                    out@.len() == i,
                    forall|j: int|
                        0 <= j < i ==> json_held(#[trigger] out@[j]) == json_tree(items@[j]),
                decreases items@.len() - i,
            {
                proof {
                    item_is_smaller(*value, i as int);
                }
                out.push(to_json(&items[i]));
                i += 1;
            }
            assert(JsonTree::Array(all_held(out@))->Array_0 =~= json_tree(*value)->Array_0);
            json_array(out)
        },
        Value::Table(fields) => {
            let mut out: Vec<(String, JsonValue)> = Vec::new();
            let mut i: usize = 0;
            while i < fields.entries.len()
                invariant
                    i <= fields.entries@.len(),
                    *value == Value::Table(*fields),
                    value.wf(),
                    out@.len() == i,
                    forall|j: int|
                        0 <= j < i ==> (#[trigger] out@[j]).0@ == fields.entries@[j].0@
                            && json_held(out@[j].1) == json_tree(fields.entries@[j].1),
                decreases fields.entries@.len() - i,
            {
                proof {
                    field_is_smaller(*value, i as int);
                }
                let entry = &fields.entries[i];
                out.push((entry.0.clone(), to_json(&entry.1)));
                i += 1;
            }
            proof {
                let held = fields_held(out@);
                assert(held =~= json_tree(*value)->Object_0);
                assert forall|a: int, b: int| 0 <= a < b < held.len() implies text_lt(
                    (#[trigger] held[a]).0,
                    (#[trigger] held[b]).0,
                ) by {
                    assert(held[a].0 == fields.entries@[a].0@);
                    assert(held[b].0 == fields.entries@[b].0@);
                }
            }
            json_object(out)
        },
    }
}

/// Whether a trusted key sits anywhere inside.
pub open spec fn has_key(tree: Tree) -> bool
    decreases tree,
{
    match tree {
        Tree::Key(_) => true,
        Tree::Array(items) => exists|i: int| 0 <= i < items.len() && has_key(#[trigger] items[i]),
        Tree::Table(fields) => exists|k: Seq<char>|
            fields.contains_key(k) && has_key(#[trigger] fields[k]),
        _ => false,
    }
}

/// A key inside an item is inside the array.
proof fn item_has_key(items: Seq<Tree>, i: int)
    requires
        0 <= i < items.len(),
        has_key(items[i]),
    ensures
        has_key(Tree::Array(items)),
{
    let tree = Tree::Array(items);
    assert(tree->Array_0[i] == items[i]);
}

/// A key inside a field is inside the table.
proof fn field_has_key(fields: Map<Seq<char>, Tree>, k: Seq<char>)
    requires
        fields.contains_key(k),
        has_key(fields[k]),
    ensures
        has_key(Tree::Table(fields)),
{
    let tree = Tree::Table(fields);
    assert(tree->Table_0[k] == fields[k]);
}

/// Whether a trusted key sits anywhere inside `value`. Such a value can not
/// be edited as plain JSON: written back, the key would come out a table.
pub fn holds_key(value: &Value) -> (held: bool)
    requires
        value.wf(),
    ensures
        held == has_key(value.tree()),
    decreases value,
{
    match value {
        Value::Key(_) => true,
        Value::Array(items) => {
            proof {
                array_tree(*items);
            }
            let mut i: usize = 0;
            while i < items.len()
                invariant
                    i <= items@.len(),
                    *value == Value::Array(*items),
                    value.wf(),
                    value.tree() == Tree::Array(items_tree(items@)),
                    forall|j: int| 0 <= j < i ==> !has_key(#[trigger] items_tree(items@)[j]),
                decreases items@.len() - i,
            {
                proof {
                    item_is_smaller(*value, i as int);
                }
                if holds_key(&items[i]) {
                    proof {
                        item_has_key(items_tree(items@), i as int);
                    }
                    return true;
                }
                i += 1;
            }
            false
        },
        Value::Table(fields) => {
            proof {
                table_tree(*fields);
            }
            let ghost trees = fields_tree(*fields);
            let mut i: usize = 0;
            while i < fields.entries.len()
                invariant
                    i <= fields.entries@.len(),
                    *value == Value::Table(*fields),
                    value.wf(),
                    trees == fields_tree(*fields),
                    value.tree() == Tree::Table(trees),
                    forall|j: int|
                        0 <= j < fields.entries@.len() ==> trees.contains_key(
                            (#[trigger] fields.entries@[j]).0@,
                        ) && trees[fields.entries@[j].0@] == fields.entries@[j].1.tree(),
                    forall|j: int|
                        0 <= j < i ==> !has_key((#[trigger] fields.entries@[j]).1.tree()),
                decreases fields.entries@.len() - i,
            {
                proof {
                    field_is_smaller(*value, i as int);
                }
                let ghost name = fields.entries@[i as int].0@;
                if holds_key(&fields.entries[i].1) {
                    proof {
                        field_has_key(trees, name);
                    }
                    return true;
                }
                i += 1;
            }
            proof {
                assert forall|k: Seq<char>| trees.contains_key(k) implies !has_key(
                    #[trigger] trees[k],
                ) by {
                    fields.filed_somewhere(k);
                    assert(trees[k] == fields.entries@[fields.index_of(k)].1.tree());
                }
            }
            false
        },
        _ => false,
    }
}

/// The value that a value's JSON spells is that value, where it holds no
/// trusted key.
pub proof fn plain_json_spells_its_value(value: Value)
    requires
        value.wf(),
        !has_key(value.tree()),
    ensures
        value_of(json_tree(value)) == Ok::<Tree, Refusal>(value.tree()),
    decreases value,
{
    match value {
        Value::Array(items) => {
            array_tree(items);
            let trees = items_tree(items@);
            let json = json_tree(value)->Array_0;
            assert forall|i: int| 0 <= i < items@.len() implies value_of(#[trigger] json[i]) == Ok::<
                Tree,
                Refusal,
            >(trees[i]) by {
                item_is_smaller(value, i);
                if has_key(trees[i]) {
                    item_has_key(trees, i);
                }
                plain_json_spells_its_value(items@[i]);
            }
            items_spell(json, trees);
        },
        Value::Table(fields) => {
            table_tree(fields);
            let trees = fields_tree(fields);
            let json = json_tree(value)->Object_0;
            assert forall|i: int| 0 <= i < fields.entries@.len() implies value_of(
                (#[trigger] json[i]).1,
            ) == Ok::<Tree, Refusal>(fields.entries@[i].1.tree()) by {
                field_is_smaller(value, i);
                if has_key(trees[fields.entries@[i].0@]) {
                    field_has_key(trees, fields.entries@[i].0@);
                }
                plain_json_spells_its_value(fields.entries@[i].1);
            }
            fields_spell(fields, json, json.len() as int);
            assert(json.take(json.len() as int) =~= json);
            assert forall|k: Seq<char>| trees.contains_key(k) implies exists|i: int|
                0 <= i < json.len() && (#[trigger] json[i]).0 == k by {
                fields.filed_somewhere(k);
                assert(json[fields.index_of(k)].0 == k);
            }
            let read = fields_of(json)->Ok_0;
            assert(read =~= trees);
        },
        _ => {},
    }
}

/// Items that each spell a tree spell the trees.
proof fn items_spell(json: Seq<JsonTree>, trees: Seq<Tree>)
    requires
        json.len() == trees.len(),
        forall|i: int|
            0 <= i < json.len() ==> value_of(#[trigger] json[i]) == Ok::<Tree, Refusal>(trees[i]),
    ensures
        items_of(json) == Ok::<Seq<Tree>, Refusal>(trees),
    decreases json.len(),
{
    let n = json.len() as int;
    if n == 0 {
        assert(trees =~= Seq::<Tree>::empty());
    } else {
        let front = json.subrange(0, n - 1);
        assert forall|i: int| 0 <= i < front.len() implies value_of(#[trigger] front[i]) == Ok::<
            Tree,
            Refusal,
        >(trees.drop_last()[i]) by {
            assert(front[i] == json[i]);
        }
        items_spell(front, trees.drop_last());
        assert(value_of(json[n - 1]) == Ok::<Tree, Refusal>(trees[n - 1]));
        assert(trees.drop_last().push(trees[n - 1]) =~= trees);
    }
}

/// The first `n` fields, where each spells the tree filed under its name,
/// spell those trees by name.
proof fn fields_spell(fields: SortedMap<String, Value>, json: Seq<(Seq<char>, JsonTree)>, n: int)
    requires
        fields.wf(),
        json.len() == fields.entries@.len(),
        0 <= n <= json.len(),
        forall|i: int|
            0 <= i < json.len() ==> (#[trigger] json[i]).0 == fields.entries@[i].0@ && value_of(
                json[i].1,
            ) == Ok::<Tree, Refusal>(fields.entries@[i].1.tree()),
    ensures
        fields_of(json.take(n)) is Ok,
        forall|k: Seq<char>| #[trigger]
            fields_of(json.take(n))->Ok_0.contains_key(k) ==> fields_tree(fields).contains_key(k)
                && fields_of(json.take(n))->Ok_0[k] == fields_tree(fields)[k],
        forall|i: int|
            0 <= i < n ==> fields_of(json.take(n))->Ok_0.contains_key((#[trigger] json[i]).0),
    decreases n,
{
    table_tree(fields);
    if n > 0 {
        fields_spell(fields, json, n - 1);
        let now = json.take(n);
        assert(now.subrange(0, n - 1) =~= json.take(n - 1));
        assert(now[n - 1] == json[n - 1]);
        assert(json[n - 1].0 == fields.entries@[n - 1].0@);
        assert(fields_tree(fields).contains_key(fields.entries@[n - 1].0@));
    }
}

/// Whether no table inside starts with the name that `serde_json` keeps to
/// itself, and tables and arrays nest at most `depth` deep.
pub open spec fn spellable(value: Value, depth: nat) -> bool
    decreases value,
{
    match value {
        Value::Array(items) => depth > 0 && forall|i: int|
            0 <= i < items@.len() ==> spellable(#[trigger] items@[i], (depth - 1) as nat),
        Value::Table(fields) => {
            &&& depth > 0
            &&& fields.entries@.len() > 0 ==> fields.entries@[0].0@ != reserved_name()
            &&& forall|i: int|
                0 <= i < fields.entries@.len() ==> spellable(
                    (#[trigger] fields.entries@[i]).1,
                    (depth - 1) as nat,
                )
        },
        _ => true,
    }
}

/// What is spellable is read as it was printed.
proof fn spellable_is_readable(value: Value, depth: nat)
    requires
        value.wf(),
        !has_key(value.tree()),
        spellable(value, depth),
    ensures
        readable(json_tree(value), depth),
    decreases value,
{
    match value {
        Value::Array(items) => {
            array_tree(items);
            let json = json_tree(value)->Array_0;
            assert forall|i: int| 0 <= i < json.len() implies readable(
                #[trigger] json[i],
                (depth - 1) as nat,
            ) by {
                item_is_smaller(value, i);
                if has_key(items_tree(items@)[i]) {
                    item_has_key(items_tree(items@), i);
                }
                assert(spellable(items@[i], (depth - 1) as nat));
                spellable_is_readable(items@[i], (depth - 1) as nat);
            }
        },
        Value::Table(fields) => {
            table_tree(fields);
            let json = json_tree(value)->Object_0;
            assert forall|i: int| 0 <= i < json.len() implies readable(
                (#[trigger] json[i]).1,
                (depth - 1) as nat,
            ) by {
                field_is_smaller(value, i);
                if has_key(fields_tree(fields)[fields.entries@[i].0@]) {
                    field_has_key(fields_tree(fields), fields.entries@[i].0@);
                }
                assert(spellable(fields.entries@[i].1, (depth - 1) as nat));
                spellable_is_readable(fields.entries@[i].1, (depth - 1) as nat);
            }
            assert forall|a: int, b: int| 0 <= a < b < json.len() implies text_lt(
                (#[trigger] json[a]).0,
                (#[trigger] json[b]).0,
            ) by {
                assert(json[a].0 == fields.entries@[a].0@);
                assert(json[b].0 == fields.entries@[b].0@);
            }
            if json.len() > 0 {
                assert(json[0].0 == fields.entries@[0].0@);
            }
        },
        _ => {},
    }
}

/// The value over lines, as an editor shows it. What an editor shows reads
/// back as the value, so saving it unchanged changes nothing.
pub fn pretty(value: &Value) -> (text: String)
    requires
        value.wf(),
    ensures
        text@ == json_pretty(json_tree(*value)),
        !has_key(value.tree()) && spellable(*value, 127) ==> read_value(text@) == Ok::<
            Tree,
            Refusal,
        >(value.tree()),
{
    let json = to_json(value);
    let text = print_json_pretty(&json);
    proof {
        assert(trim_start(text@) == text@);
        assert(trim_end(text@) == text@);
        if !has_key(value.tree()) && spellable(*value, 127) {
            spellable_is_readable(*value, 127);
            plain_json_spells_its_value(*value);
        }
    }
    text
}

/// Text cut to `width` characters, with a mark where it was cut.
pub open spec fn cut(text: Seq<char>, width: nat) -> Seq<char> {
    if text.len() > width {
        text.take(width as int) + "…"@
    } else {
        text
    }
}

/// Cuts text on a character boundary.
pub fn cut_to(text: &str, width: usize) -> (short: String)
    ensures
        short@ == cut(text@, width as nat),
{
    let chars = chars_of(text);
    if chars.len() <= width {
        return text_of(&chars);
    }
    let mut line: Vec<char> = Vec::new();
    let mut i: usize = 0;
    while i < width
        invariant
            i <= width < chars@.len(),
            line@ == chars@.take(i as int),
        decreases width - i,
    {
        line.push(chars[i]);
        i += 1;
        assert(line@ =~= chars@.take(i as int));
    }
    append(&mut line, "…");
    text_of(&line)
}

/// The value on one line, cut to about `width` characters.
pub fn preview(value: &Value, width: usize) -> (text: String)
    requires
        value.wf(),
    ensures
        text@ == cut(json_text(json_tree(*value)), width as nat),
{
    let json = to_json(value);
    let text = print_json(&json);
    cut_to(text.as_str(), width)
}

} // verus!
