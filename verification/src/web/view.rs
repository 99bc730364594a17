//! What the pages show, part by part.
//!
//! One document: a sidebar of namespaces beside the main pane. What stands
//! in each part is worked out here, as text, links and forms; how a part is
//! drawn is up to whoever draws it.

use vstd::prelude::*;

use crate::digest::{hex_chars, hex_of, EnvelopeDigest};
use crate::msg::NamespaceKey;
use crate::subkey::{step_text, Step, Subkey};
use crate::text::{append, append_decimal, chars_of, decimal, text_of};
use crate::value::Value;
use crate::web::json::{
    cut, has_key, holds_key, json_pretty, json_text, json_tree, preview, pretty,
};
use crate::web::location::{Location, Place};

verus! {

/// Where the embedded htmx build is served.
pub const HTMX_URL: &'static str = "/static/htmx.min.js";

/// Where the stylesheet is served.
pub const STYLE_URL: &'static str = "/static/style.css";

/// Where a namespace is created from the home pane.
pub const CREATE_URL: &'static str = "/ns";

/// Where the whole ledger is browsed from.
pub const HOME_URL: &'static str = "/";

/// How many characters of a value a listing shows.
pub const PREVIEW_WIDTH: usize = 72;

/// How much of a digest is shown; the rest is a hover away.
pub const SHORT_DIGEST: usize = 12;

/// What the ledger's own namespaces begin with: hidden until asked for.
pub const INTERNAL_PREFIX: &'static str = "_lotus";

/// The fewest lines an editor shows.
pub const MIN_EDITOR_ROWS: usize = 3;

/// The most lines an editor shows.
pub const MAX_EDITOR_ROWS: usize = 24;

/// A digest in short.
pub open spec fn short_text(digest: EnvelopeDigest) -> Seq<char> {
    hex_of(digest.bytes@).take(SHORT_DIGEST as int)
}

/// A digest in short.
pub fn short(digest: &EnvelopeDigest) -> (text: String)
    ensures
        text@ == short_text(*digest),
{
    let hex = hex_chars(&digest.bytes);
    let mut chars: Vec<char> = Vec::new();
    let mut i: usize = 0;
    while i < SHORT_DIGEST
        invariant
            i <= SHORT_DIGEST,
            hex@ == hex_of(digest.bytes@),
            hex@.len() == 64,
            chars@ == hex@.take(i as int),
        decreases SHORT_DIGEST - i,
    {
        chars.push(hex[i]);
        i += 1;
        assert(chars@ =~= hex@.take(i as int));
    }
    text_of(&chars)
}

/// A link that browses somewhere.
#[derive(Debug, PartialEq, Eq)]
pub struct Link {
    pub url: String,
    pub label: String,
}

impl Link {
    /// Whether the link leads to `place` and reads `label`.
    pub open spec fn leads(&self, place: Place, label: Seq<char>) -> bool {
        self.url@ == place.url() && self.label@ == label
    }
}

/// A link that browses to `to`.
pub fn link(to: &Location, label: String) -> (link: Link)
    requires
        to.wf(),
    ensures
        link.leads(to@, label@),
{
    Link { url: to.url(), label }
}

/// The way to a location, each step a link but the last.
#[derive(Debug, PartialEq, Eq)]
pub struct Trail {
    pub before: Vec<Link>,
    pub here: String,
}

impl Trail {
    /// Whether this is the way to `place`.
    pub open spec fn leads(&self, place: Place) -> bool {
        &&& self.before@.len() == place.path.len()
        &&& forall|i: int|
            0 <= i < self.before@.len() ==> (#[trigger] self.before@[i]).leads(
                place.crumbs()[i],
                place.crumbs()[i].name(),
            )
        &&& self.here@ == place.name()
    }
}

/// The way to `location`, each step a link but the last.
pub fn crumbs(location: &Location) -> (trail: Trail)
    requires
        location.wf(),
    ensures
        trail.leads(location@),
{
    let steps = location.crumbs();
    assert(steps@.len() == location@.crumbs().len());
    let last: usize = steps.len() - 1;
    let mut before: Vec<Link> = Vec::new();
    let mut i: usize = 0;
    while i < last
        invariant
            i <= last < steps@.len(),
            crate::web::location::places(steps@) == location@.crumbs(),
            forall|j: int| 0 <= j < steps@.len() ==> (#[trigger] steps@[j]).wf(),
            before@.len() == i,
            forall|j: int|
                0 <= j < i ==> (#[trigger] before@[j]).leads(
                    location@.crumbs()[j],
                    location@.crumbs()[j].name(),
                ),
        decreases last - i,
    {
        assert(crate::web::location::places(steps@)[i as int] == steps@[i as int]@);
        before.push(link(&steps[i], steps[i].name()));
        i += 1;
    }
    Trail { before, here: location.name() }
}

/// One namespace the daemon lists.
#[derive(Debug, PartialEq, Eq)]
pub struct NamespaceEntry {
    pub key: NamespaceKey,
    /// The kind of value at its root, and how much of it there is.
    pub shape: String,
}

/// The namespace list beside every page.
#[derive(Debug, PartialEq, Eq)]
pub enum Sidebar {
    /// What the ledger holds, at the head it was listed at.
    Listed {
        head: EnvelopeDigest,
        namespaces: Vec<NamespaceEntry>,
    },
    /// The list could not be read; why, for a person.
    Unavailable(String),
}

/// One line of the sidebar.
#[derive(Debug, PartialEq, Eq)]
pub struct SideRow {
    pub link: Link,
    pub shape: String,
    /// Whether the pane is inside this namespace.
    pub active: bool,
    /// Whether this is one of the ledger's own.
    pub internal: bool,
}

/// Whether a namespace is one of the ledger's own.
pub open spec fn is_internal(key: Seq<char>) -> bool {
    let prefix = "_lotus"@;
    key.len() >= prefix.len() && key.take(prefix.len() as int) == prefix
}

impl SideRow {
    /// Whether the row shows `entry`, in a page inside `active`.
    pub open spec fn shows(&self, entry: NamespaceEntry, active: Option<Seq<char>>) -> bool {
        &&& self.link.leads(Place { key: entry.key@, path: Seq::empty() }, entry.key@)
        &&& self.shape@ == entry.shape@
        &&& self.active == (active == Some(entry.key@))
        &&& self.internal == is_internal(entry.key@)
    }
}

fn internal(key: &NamespaceKey) -> (internal: bool)
    ensures
        internal == is_internal(key@),
{
    let name = chars_of(key.text.as_str());
    let prefix = chars_of(INTERNAL_PREFIX);
    let n: usize = prefix.len();
    if name.len() < n {
        return false;
    }
    let mut i: usize = 0;
    while i < n
        invariant
            i <= n == prefix@.len(),
            n <= name@.len(),
            name@ == key@,
            prefix@ == "_lotus"@,
            name@.take(i as int) == prefix@.take(i as int),
        decreases n - i,
    {
        if name[i] != prefix[i] {
            assert(name@.take(n as int)[i as int] != prefix@[i as int]);
            return false;
        }
        i += 1;
        assert(name@.take(i as int) =~= prefix@.take(i as int));
    }
    assert(prefix@.take(n as int) =~= prefix@);
    true
}

/// A name, where there is one.
pub open spec fn name_view(key: Option<&NamespaceKey>) -> Option<Seq<char>> {
    match key {
        Some(key) => Some(key@),
        None => None,
    }
}

/// The rows of the sidebar, one a namespace, in the order they are listed.
pub fn side_rows(namespaces: &Vec<NamespaceEntry>, active: Option<&NamespaceKey>) -> (rows: Vec<
    SideRow,
>)
    ensures
        rows@.len() == namespaces@.len(),
        forall|i: int|
            0 <= i < rows@.len() ==> (#[trigger] rows@[i]).shows(namespaces@[i], name_view(active)),
{
    let mut rows: Vec<SideRow> = Vec::new();
    let mut i: usize = 0;
    while i < namespaces.len()
        invariant
            i <= namespaces@.len(),
            rows@.len() == i,
            forall|j: int|
                0 <= j < i ==> (#[trigger] rows@[j]).shows(namespaces@[j], name_view(active)),
        decreases namespaces@.len() - i,
    {
        let entry = &namespaces[i];
        let here = Location::namespace(entry.key.clone());
        let marked: bool = match active {
            Some(key) => key.same(&entry.key),
            None => false,
        };
        rows.push(
            SideRow {
                link: link(&here, entry.key.text.clone()),
                shape: entry.shape.clone(),
                active: marked,
                internal: internal(&entry.key),
            },
        );
        i += 1;
    }
    rows
}

/// The value's kind, and how much of it there is.
pub open spec fn kind_text(value: Value) -> Seq<char> {
    match value {
        Value::String(_) => "string"@,
        Value::Int(_) => "int"@,
        Value::Bool(_) => "bool"@,
        Value::Key(_) => "trusted key"@,
        Value::Array(items) => "array · "@ + decimal(items@.len()),
        Value::Table(fields) => "map · "@ + decimal(fields.entries@.len()),
    }
}

/// The value's kind, and how much of it there is.
pub fn kind(value: &Value) -> (text: String)
    ensures
        text@ == kind_text(*value),
{
    let mut line: Vec<char> = Vec::new();
    match value {
        Value::String(_) => {
            append(&mut line, "string");
        },
        Value::Int(_) => {
            append(&mut line, "int");
        },
        Value::Bool(_) => {
            append(&mut line, "bool");
        },
        Value::Key(_) => {
            append(&mut line, "trusted key");
        },
        Value::Array(items) => {
            append(&mut line, "array · ");
            let n: usize = items.len();
            append_decimal(&mut line, n as u64);
        },
        Value::Table(fields) => {
            append(&mut line, "map · ");
            let n: usize = fields.entries.len();
            append_decimal(&mut line, n as u64);
        },
    }
    assert(line@ =~= kind_text(*value));
    text_of(&line)
}

/// How many lines text runs over: a line break ends a line, and what
/// follows the last is one more where there is any.
pub open spec fn line_count(text: Seq<char>) -> nat
    decreases text.len(),
{
    if text.len() == 0 {
        0
    } else if text.len() == 1 || text[text.len() - 2] == '\n' {
        line_count(text.drop_last()) + 1
    } else {
        line_count(text.drop_last())
    }
}

fn count_lines(text: &str) -> (count: usize)
    ensures
        count == line_count(text@),
{
    let chars = chars_of(text);
    let n: usize = chars.len();
    let mut count: usize = 0;
    let mut i: usize = 0;
    assert(chars@.take(0).len() == 0);
    while i < n
        invariant
            i <= n == chars@.len(),
            count <= i,
            count == line_count(chars@.take(i as int)),
        decreases n - i,
    {
        let ghost now = chars@.take(i + 1);
        proof {
            assert(now.drop_last() =~= chars@.take(i as int));
            if i > 0 {
                assert(now[now.len() - 2] == chars@[i - 1]);
            }
        }
        if i == 0 || chars[i - 1] == '\n' {
            count += 1;
        }
        i += 1;
    }
    assert(chars@.take(n as int) =~= chars@);
    count
}

/// A number brought within the lines an editor shows.
pub open spec fn editor_rows(lines: nat) -> nat {
    if lines < MIN_EDITOR_ROWS {
        MIN_EDITOR_ROWS as nat
    } else if lines > MAX_EDITOR_ROWS {
        MAX_EDITOR_ROWS as nat
    } else {
        lines
    }
}

/// The JSON editor every form writes through.
#[derive(Debug, PartialEq, Eq)]
pub struct Editor {
    /// What it starts out with.
    pub text: String,
    /// How many lines it shows.
    pub rows: usize,
}

impl Editor {
    /// Whether the editor starts out with `text`, and is as high as that
    /// asks for.
    pub open spec fn holds(&self, text: Seq<char>) -> bool {
        self.text@ == text && self.rows == editor_rows(line_count(text))
    }
}

/// An editor that starts out with `current`, or empty.
pub fn editor(current: Option<&Value>) -> (editor: Editor)
    requires
        current matches Some(value) ==> value.wf(),
    ensures
        editor.holds(
            match current {
                Some(value) => json_pretty(json_tree(*value)),
                None => Seq::empty(),
            },
        ),
{
    let text = match current {
        Some(value) => pretty(value),
        None => {
            let blank: Vec<char> = Vec::new();
            assert(blank@ =~= Seq::<char>::empty());
            text_of(&blank)
        },
    };
    let lines: usize = count_lines(text.as_str());
    let rows: usize = if lines < MIN_EDITOR_ROWS {
        MIN_EDITOR_ROWS
    } else if lines > MAX_EDITOR_ROWS {
        MAX_EDITOR_ROWS
    } else {
        lines
    };
    Editor { text, rows }
}

/// The button that deletes something, and what it asks first.
#[derive(Debug, PartialEq, Eq)]
pub struct Deletion {
    pub confirm: String,
    pub label: &'static str,
}

/// What is asked before something inside a namespace is deleted.
pub open spec fn confirm_text(place: Place) -> Seq<char> {
    "Delete "@ + place.text() + "?"@
}

impl Deletion {
    /// Whether the button deletes `place`.
    pub open spec fn deletes(&self, place: Place) -> bool {
        if place.path.len() == 0 {
            &&& self.confirm@ == "Delete the namespace "@ + place.text()
                + " and everything in it?"@
            &&& self.label@ == "Delete namespace"@
        } else {
            &&& self.confirm@ == confirm_text(place)
            &&& self.label@ == "Delete"@
        }
    }
}

fn confirm(location: &Location) -> (text: String)
    requires
        location.wf(),
    ensures
        text@ == confirm_text(location@),
{
    let mut line: Vec<char> = Vec::new();
    append(&mut line, "Delete ");
    let here = location.text();
    append(&mut line, here.as_str());
    append(&mut line, "?");
    assert(line@ =~= confirm_text(location@));
    text_of(&line)
}

/// The button that deletes what `location` holds.
pub fn deletion(location: &Location) -> (deletion: Deletion)
    requires
        location.wf(),
    ensures
        deletion.deletes(location@),
{
    if location.is_root() {
        let mut line: Vec<char> = Vec::new();
        append(&mut line, "Delete the namespace ");
        let here = location.text();
        append(&mut line, here.as_str());
        append(&mut line, " and everything in it?");
        assert(line@ =~= "Delete the namespace "@ + location@.text() + " and everything in it?"@);
        Deletion { confirm: text_of(&line), label: "Delete namespace" }
    } else {
        Deletion { confirm: confirm(location), label: "Delete" }
    }
}

/// One entry of a container, in a listing.
#[derive(Debug, PartialEq, Eq)]
pub struct Row {
    pub link: Link,
    pub kind: String,
    pub preview: String,
    pub confirm: String,
}

impl Row {
    /// Whether the row shows `value`, held at `step` inside `place`.
    pub open spec fn shows(&self, place: Place, step: Step, value: Value) -> bool {
        let child = place.child(step);
        &&& self.link.leads(child, step_text(step))
        &&& self.kind@ == kind_text(value)
        &&& self.preview@ == cut(json_text(json_tree(value)), PREVIEW_WIDTH as nat)
        &&& self.confirm@ == confirm_text(child)
    }
}

fn row(location: &Location, subkey: Subkey, value: &Value) -> (row: Row)
    requires
        value.wf(),
    ensures
        row.shows(location@, subkey@, *value),
{
    let label = subkey.text();
    let child = location.child(subkey);
    Row {
        link: link(&child, label),
        kind: kind(value),
        preview: preview(value, PREVIEW_WIDTH),
        confirm: confirm(&child),
    }
}

/// How many entries of a value a listing links to: every field of a table,
/// and every item of an array that a path can address.
pub open spec fn listed(value: Value) -> nat {
    match value {
        Value::Table(fields) => fields.entries@.len(),
        Value::Array(items) => if items@.len() > u32::MAX {
            (u32::MAX + 1) as nat
        } else {
            items@.len()
        },
        _ => 0,
    }
}

/// Whether `rows` list the entries of `value`, held at `place`.
pub open spec fn rows_list(rows: Seq<Row>, place: Place, value: Value) -> bool {
    &&& rows.len() == listed(value)
    &&& match value {
        Value::Table(fields) => forall|i: int|
            0 <= i < rows.len() ==> (#[trigger] rows[i]).shows(
                place,
                Step::Key(fields.entries@[i].0@),
                fields.entries@[i].1,
            ),
        Value::Array(items) => forall|i: int|
            0 <= i < rows.len() ==> (#[trigger] rows[i]).shows(
                place,
                Step::Index(i as u32),
                items@[i],
            ),
        _ => true,
    }
}

/// A listing of a container's entries, one link each.
pub fn entries(location: &Location, value: &Value) -> (rows: Vec<Row>)
    requires
        value.wf(),
    ensures
        rows_list(rows@, location@, *value),
{
    let mut rows: Vec<Row> = Vec::new();
    match value {
        Value::Table(fields) => {
            let mut i: usize = 0;
            while i < fields.entries.len()
                invariant
                    i <= fields.entries@.len(),
                    *value == Value::Table(*fields),
                    value.wf(),
                    rows@.len() == i,
                    forall|j: int|
                        0 <= j < i ==> (#[trigger] rows@[j]).shows(
                            location@,
                            Step::Key(fields.entries@[j].0@),
                            fields.entries@[j].1,
                        ),
                decreases fields.entries@.len() - i,
            {
                let entry = &fields.entries[i];
                rows.push(row(location, Subkey::Key(entry.0.clone()), &entry.1));
                i += 1;
            }
        },
        Value::Array(items) => {
            // An index past `u32` is one no path can address, so no link.
            let mut i: usize = 0;
            while i < items.len() && i as u64 <= u32::MAX as u64
                invariant
                    i <= items@.len(),
                    i <= u32::MAX + 1,
                    *value == Value::Array(*items),
                    value.wf(),
                    rows@.len() == i,
                    forall|j: int|
                        0 <= j < i ==> (#[trigger] rows@[j]).shows(
                            location@,
                            Step::Index(j as u32),
                            items@[j],
                        ),
                decreases items@.len() - i,
            {
                let item = &items[i];
                assert(value->Array_0@[i as int].wf());
                rows.push(row(location, Subkey::Index(i as u32), item));
                i += 1;
            }
        },
        _ => {},
    }
    rows
}

/// What the daemon read, and the head it read it at.
#[derive(Debug, PartialEq, Eq)]
pub struct ValueAt {
    pub head: EnvelopeDigest,
    pub value: Option<Value>,
}

/// The main part of a pane.
#[derive(Debug, PartialEq, Eq)]
pub enum Body {
    /// Nothing is held here: what to say, and an editor to put something
    /// there.
    Missing {
        note: &'static str,
        editor: Editor,
    },
    /// The entries of a container; a way to add one, under a key or at the
    /// end; an editor for the whole, unless that holds a trusted key.
    Entries {
        rows: Vec<Row>,
        keyed: bool,
        replace: Option<Editor>,
        deletion: Deletion,
    },
    /// A trusted key, which is shown and not edited.
    Key {
        text: String,
        deletion: Deletion,
    },
    /// A value in its editor; a way to add to it, where it is an integer.
    Leaf {
        editor: Editor,
        increments: bool,
        deletion: Deletion,
    },
}

impl Body {
    /// Whether the body shows `value`, held at `place`, and the forms that
    /// change it.
    pub open spec fn shows(&self, place: Place, value: Option<Value>) -> bool {
        match value {
            None => match self {
                Body::Missing { note, editor } => {
                    &&& note@ == if place.path.len() == 0 {
                        "This namespace does not exist yet."@
                    } else {
                        "Nothing is held here."@
                    }
                    &&& editor.holds(Seq::empty())
                },
                _ => false,
            },
            Some(value) => match value {
                Value::Table(_) | Value::Array(_) => match self {
                    Body::Entries { rows, keyed, replace, deletion } => {
                        &&& rows_list(rows@, place, value)
                        &&& *keyed == (value is Table)
                        &&& match replace {
                            Some(editor) => !has_key(value.tree()) && editor.holds(
                                json_pretty(json_tree(value)),
                            ),
                            None => has_key(value.tree()),
                        }
                        &&& deletion.deletes(place)
                    },
                    _ => false,
                },
                Value::Key(_) => match self {
                    Body::Key { text, deletion } => {
                        &&& text@ == json_pretty(json_tree(value))
                        &&& deletion.deletes(place)
                    },
                    _ => false,
                },
                _ => match self {
                    Body::Leaf { editor, increments, deletion } => {
                        &&& editor.holds(json_pretty(json_tree(value)))
                        &&& *increments == (value is Int)
                        &&& deletion.deletes(place)
                    },
                    _ => false,
                },
            },
        }
    }
}

fn body(location: &Location, value: &Option<Value>) -> (body: Body)
    requires
        location.wf(),
        value matches Some(value) ==> value.wf(),
    ensures
        body.shows(location@, *value),
{
    match value {
        None => {
            let note = if location.is_root() {
                "This namespace does not exist yet."
            } else {
                "Nothing is held here."
            };
            Body::Missing { note, editor: editor(None) }
        },
        Some(value) => match value {
            Value::Table(_) | Value::Array(_) => {
                let keyed: bool = match value {
                    Value::Table(_) => true,
                    _ => false,
                };
                let replace = if holds_key(value) {
                    None
                } else {
                    Some(editor(Some(value)))
                };
                Body::Entries {
                    rows: entries(location, value),
                    keyed,
                    replace,
                    deletion: deletion(location),
                }
            },
            Value::Key(_) => Body::Key { text: pretty(value), deletion: deletion(location) },
            _ => {
                let increments: bool = match value {
                    Value::Int(_) => true,
                    _ => false,
                };
                Body::Leaf { editor: editor(Some(value)), increments, deletion: deletion(location) }
            },
        },
    }
}

/// What a location holds, and the forms that change it.
#[derive(Debug, PartialEq, Eq)]
pub struct ValuePane {
    pub trail: Trail,
    pub name: String,
    /// The value's kind, where there is a value.
    pub badge: Option<String>,
    /// The head it was read at, in full and in short.
    pub head: String,
    pub short_head: String,
    /// Where every form here writes to.
    pub url: String,
    pub body: Body,
}

impl ValuePane {
    /// Whether the pane shows what was read at `place`.
    pub open spec fn shows(&self, place: Place, at: ValueAt) -> bool {
        &&& self.trail.leads(place)
        &&& self.name@ == place.name()
        &&& match (self.badge, at.value) {
            (Some(badge), Some(value)) => badge@ == kind_text(value),
            (None, None) => true,
            _ => false,
        }
        &&& self.head@ == hex_of(at.head.bytes@)
        &&& self.short_head@ == short_text(at.head)
        &&& self.url@ == place.url()
        &&& self.body.shows(place, at.value)
    }
}

/// What `location` holds, and the forms that change it.
pub fn value_pane(location: &Location, at: &ValueAt) -> (pane: ValuePane)
    requires
        location.wf(),
        at.value matches Some(value) ==> value.wf(),
    ensures
        pane.shows(location@, *at),
{
    let badge = match &at.value {
        Some(value) => Some(kind(value)),
        None => None,
    };
    ValuePane {
        trail: crumbs(location),
        name: location.name(),
        badge,
        head: at.head.to_hex(),
        short_head: short(&at.head),
        url: location.url(),
        body: body(location, &at.value),
    }
}

/// The title of a page about `location`.
pub fn title(location: &Location) -> (title: String)
    requires
        location.wf(),
    ensures
        title@ == location@.text() + " · lotusweb"@,
{
    let mut line: Vec<char> = Vec::new();
    let here = location.text();
    append(&mut line, here.as_str());
    append(&mut line, " · lotusweb");
    assert(line@ =~= location@.text() + " · lotusweb"@);
    text_of(&line)
}

/// The title of a page about a failure.
pub fn failure_title(status: u16) -> (title: String)
    ensures
        title@ == decimal(status as nat) + " · lotusweb"@,
{
    let mut line: Vec<char> = Vec::new();
    append_decimal(&mut line, status as u64);
    append(&mut line, " · lotusweb");
    assert(line@ =~= decimal(status as nat) + " · lotusweb"@);
    text_of(&line)
}

} // verus!
