//! What holds of what the pages read and show, whatever they are given.

use vstd::prelude::*;

use crate::digest::{hex_of, EnvelopeDigest};
use crate::msg::{AmendOp, Msg};
use crate::reading::{
    ends_on, hex_tells, is_blank, mentions, nothing_else_is_a_number, numbers_are_read,
    trimming_takes_what_is_around, what_stands_between, what_stands_first, what_stands_last,
};
use crate::path::path_of;
use crate::render::envelope::{message_spans, status_span, Span};
use crate::render::laws::reached;
use crate::render::style::Style;
use crate::subkey::{path_text, step_text, Step};
use crate::text::{
    decimal, decimal_reads_back, decimals_tell, is_digit, is_white, signed_decimal,
    signed_decimals_tell,
};
use crate::tree::{child, walked};
use crate::value::{Key, Tree, Value};
use crate::web::chain::{
    among, anchor_text, detail_of, lines_of, note_of, shown, span_url, sums_up, target, Bit,
    ChainPane, ChainRange, EnvelopeFrame, Reference,
};
use crate::web::error::joined;
use crate::web::frame::{after_scheme, first_slash, path_end, url_path};
use crate::web::json::{
    cut, fields_of, has_key, items_of, json_text, json_tree, key_bytes, key_json, read_value,
    value_of, JsonTree, Refusal,
};
use crate::web::location::{byte_text, place_of, Place};
use crate::web::view::{
    editor_rows, is_internal, kind_text, line_count, short_text, Body, Deletion, NamespaceEntry, Row,
    SideRow,
};
use crate::web::walk::Walk;
use crate::web::write::{
    creates, increments, inserts, moved_text, notice_text, replaces, Asked,
};

verus! {

/// What kind of a value one is, and how much of it there is.
pub open spec fn sort_of(value: Value) -> (nat, nat) {
    match value {
        Value::String(_) => (0, 0),
        Value::Int(_) => (1, 0),
        Value::Bool(_) => (2, 0),
        Value::Key(_) => (3, 0),
        Value::Array(items) => (4, items@.len()),
        Value::Table(fields) => (5, fields.entries@.len()),
    }
}

/// Two values are badged alike exactly where they are of a kind, and of a
/// size where they hold others.
pub proof fn badges_tell_kinds_apart(a: Value, b: Value)
    ensures
        kind_text(a) == kind_text(b) <==> sort_of(a) == sort_of(b),
{
    reveal_strlit("string");
    reveal_strlit("int");
    reveal_strlit("bool");
    reveal_strlit("trusted key");
    reveal_strlit("array · ");
    reveal_strlit("map · ");
    let (x, y) = (kind_text(a), kind_text(b));
    assert(sort_of(a).0 < 4 ==> x.len() > 0);
    assert(sort_of(a).0 != sort_of(b).0 ==> x[0] != y[0]);
    decimals_tell(sort_of(a).1, sort_of(b).1);
    if x == y && a is Array && b is Array {
        assert(x.skip(8) =~= decimal(sort_of(a).1));
        assert(y.skip(8) =~= decimal(sort_of(b).1));
    }
    if x == y && a is Table && b is Table {
        assert(x.skip(6) =~= decimal(sort_of(a).1));
        assert(y.skip(6) =~= decimal(sort_of(b).1));
    }
}

/// Lines are counted as they end: a text that ends on one adds its lines to
/// those of what follows, and what breaks nowhere is one line, or none where
/// there is nothing.
pub proof fn lines_add_up(a: Seq<char>, b: Seq<char>)
    ensures
        a.len() > 0 && a.last() == '\n' ==> line_count(a + b) == line_count(a) + line_count(b),
        !a.drop_last().contains('\n') ==> line_count(a) == if a.len() == 0 {
            0nat
        } else {
            1
        },
    decreases a.len() + b.len(),
{
    if a.len() > 0 && a.last() == '\n' {
        if b.len() == 0 {
            assert(a + b =~= a);
        } else {
            assert((a + b).drop_last() =~= a + b.drop_last());
            lines_add_up(a, b.drop_last());
            let whole = a + b;
            if b.len() == 1 {
                assert(whole[whole.len() - 2] == a.last());
                assert(line_count(b.drop_last()) == 0);
            } else {
                assert(whole[whole.len() - 2] == b[b.len() - 2]);
            }
        }
    }
    if !a.drop_last().contains('\n') && a.len() > 0 {
        let front = a.drop_last();
        if a.len() > 1 {
            assert(front.contains(a[a.len() - 2])) by {
                assert(front[a.len() - 2] == a[a.len() - 2]);
            }
            assert(!front.drop_last().contains('\n')) by {
                if front.drop_last().contains('\n') {
                    let i = choose|i: int|
                        0 <= i < front.drop_last().len() && front.drop_last()[i] == '\n';
                    assert(front[i] == '\n');
                }
            }
            lines_add_up(front, Seq::empty());
        } else {
            assert(line_count(front) == 0);
        }
    }
}

/// An editor is as high as its text has lines, but never lower than three
/// rows nor higher than twenty-four.
pub proof fn an_editor_keeps_its_height(lines: nat)
    ensures
        3 <= editor_rows(lines) <= 24,
        3 <= lines <= 24 ==> editor_rows(lines) == lines,
        lines < 3 ==> editor_rows(lines) == 3,
        lines > 24 ==> editor_rows(lines) == 24,
{
}

/// The ledger's own namespaces are those whose name begins with `_lotus`.
pub proof fn own_namespaces_are_marked(name: Seq<char>)
    ensures
        is_internal(name) <==> exists|rest: Seq<char>| name == #[trigger] ("_lotus"@ + rest),
{
    reveal_strlit("_lotus");
    let prefix = "_lotus"@;
    if is_internal(name) {
        assert(name =~= prefix + name.skip(prefix.len() as int));
    }
    if exists|rest: Seq<char>| name == #[trigger] (prefix + rest) {
        let rest = choose|rest: Seq<char>| name == #[trigger] (prefix + rest);
        assert(name.take(prefix.len() as int) =~= prefix);
    }
}

proof fn a_scheme_ends(url: Seq<char>, from: int, at: int)
    requires
        0 <= from <= at,
        at + 3 <= url.len(),
        url[at] == ':',
        url[at + 1] == '/',
        url[at + 2] == '/',
        forall|i: int| from <= i < at ==> #[trigger] url[i] != ':',
    ensures
        after_scheme(url, from) == at + 3,
    decreases at - from,
{
    if from < at {
        a_scheme_ends(url, from + 1, at);
    }
}

proof fn a_slash_is_found(url: Seq<char>, from: int, at: int)
    requires
        0 <= from <= at < url.len(),
        url[at] == '/',
        forall|i: int| from <= i < at ==> #[trigger] url[i] != '/',
    ensures
        first_slash(url, from) == Some(at),
    decreases at - from,
{
    if from < at {
        a_slash_is_found(url, from + 1, at);
    }
}

proof fn a_path_ends(url: Seq<char>, from: int, at: int)
    requires
        0 <= from <= at <= url.len(),
        at == url.len() || url[at] == '?' || url[at] == '#',
        forall|i: int| from <= i < at ==> #[trigger] url[i] != '?' && url[i] != '#',
    ensures
        path_end(url, from) == at,
    decreases at - from,
{
    if from < at {
        a_path_ends(url, from + 1, at);
    }
}

/// Of the URL a browser shows, the path is what stands between the host and
/// the query or fragment.
pub proof fn a_path_stands_behind_the_host(
    scheme: Seq<char>,
    host: Seq<char>,
    path: Seq<char>,
    rest: Seq<char>,
)
    requires
        !scheme.contains(':'),
        !host.contains('/'),
        path.len() > 0,
        path[0] == '/',
        !path.contains('?'),
        !path.contains('#'),
        rest.len() == 0 || rest[0] == '?' || rest[0] == '#',
    ensures
        url_path(scheme + "://"@ + host + path + rest) == Some(path),
{
    reveal_strlit("://");
    let url = scheme + "://"@ + host + path + rest;
    let s = scheme.len() as int;
    let h = s + 3 + host.len();
    let e = h + path.len();
    assert forall|i: int| 0 <= i < s implies #[trigger] url[i] != ':' by {
        assert(url[i] == scheme[i]);
        assert(scheme.contains(scheme[i]));
    }
    assert(url[s] == ':' && url[s + 1] == '/' && url[s + 2] == '/');
    a_scheme_ends(url, 0, s);
    assert forall|i: int| s + 3 <= i < h implies #[trigger] url[i] != '/' by {
        assert(url[i] == host[i - s - 3]);
        assert(host.contains(host[i - s - 3]));
    }
    assert(url[h] == path[0]);
    a_slash_is_found(url, s + 3, h);
    assert forall|i: int| h <= i < e implies #[trigger] url[i] != '?' && url[i] != '#' by {
        assert(url[i] == path[i - h]);
        assert(path.contains(path[i - h]));
    }
    if rest.len() > 0 {
        assert(url[e] == rest[0]);
    }
    a_path_ends(url, h, e);
    assert(url.subrange(h, e) =~= path);
}

/// An array is read item by item: where each is a value, the array is all
/// of them in their order; else it is refused as the first that is none.
pub proof fn arrays_are_read_item_by_item(items: Seq<JsonTree>)
    ensures
        match items_of(items) {
            Ok(trees) => trees.len() == items.len() && forall|i: int|
                0 <= i < items.len() ==> value_of(#[trigger] items[i]) == Ok::<Tree, Refusal>(
                    trees[i],
                ),
            Err(why) => exists|i: int|
                {
                    &&& 0 <= i < items.len()
                    &&& value_of(#[trigger] items[i]) == Err::<Tree, Refusal>(why)
                    &&& forall|j: int| 0 <= j < i ==> value_of(#[trigger] items[j]) is Ok
                },
        },
    decreases items.len(),
{
    if items.len() > 0 {
        let front = items.subrange(0, items.len() - 1);
        arrays_are_read_item_by_item(front);
        assert forall|i: int| 0 <= i < front.len() implies front[i] == #[trigger] items[i] by {}
        match items_of(front) {
            Ok(trees) => {
                assert forall|j: int| 0 <= j < front.len() implies value_of(#[trigger] items[j])
                    == Ok::<Tree, Refusal>(trees[j]) by {
                    assert(front[j] == items[j]);
                }
                let last = items.len() - 1;
                assert(value_of(items[last]) == value_of(items[last]));
            },
            Err(why) => {
                let i = choose|i: int|
                    {
                        &&& 0 <= i < front.len()
                        &&& value_of(#[trigger] front[i]) == Err::<Tree, Refusal>(why)
                        &&& forall|j: int| 0 <= j < i ==> value_of(#[trigger] front[j]) is Ok
                    };
                assert(items[i] == front[i]);
                assert forall|j: int| 0 <= j < i implies value_of(#[trigger] items[j]) is Ok by {
                    assert(front[j] == items[j]);
                }
            },
        }
    }
}

/// Whether the field at `i` is the last of the name `name`.
pub open spec fn last_named(
    fields: Seq<(Seq<char>, JsonTree)>,
    name: Seq<char>,
    i: int,
) -> bool {
    &&& 0 <= i < fields.len()
    &&& fields[i].0 == name
    &&& forall|j: int| i < j < fields.len() ==> (#[trigger] fields[j]).0 != name
}

/// An object is refused as the first of its fields that is no value, and
/// read where each is one.
pub proof fn objects_are_refused_for_a_field(fields: Seq<(Seq<char>, JsonTree)>)
    ensures
        match fields_of(fields) {
            Ok(_) => forall|i: int|
                0 <= i < fields.len() ==> value_of((#[trigger] fields[i]).1) is Ok,
            Err(why) => exists|i: int|
                {
                    &&& 0 <= i < fields.len()
                    &&& value_of((#[trigger] fields[i]).1) == Err::<Tree, Refusal>(why)
                    &&& forall|j: int| 0 <= j < i ==> value_of((#[trigger] fields[j]).1) is Ok
                },
        },
    decreases fields.len(),
{
    if fields.len() > 0 {
        let front = fields.subrange(0, fields.len() - 1);
        let last = fields.len() - 1;
        objects_are_refused_for_a_field(front);
        assert forall|i: int| 0 <= i < front.len() implies front[i] == #[trigger] fields[i] by {}
        match fields_of(front) {
            Ok(_) => {
                assert forall|j: int| 0 <= j < last implies value_of(
                    (#[trigger] fields[j]).1,
                ) is Ok by {
                    assert(front[j] == fields[j]);
                }
                assert(fields[last] == fields[last]);
            },
            Err(why) => {
                let i = choose|i: int|
                    {
                        &&& 0 <= i < front.len()
                        &&& value_of((#[trigger] front[i]).1) == Err::<Tree, Refusal>(why)
                        &&& forall|j: int| 0 <= j < i ==> value_of((#[trigger] front[j]).1) is Ok
                    };
                assert(fields[i] == front[i]);
                assert forall|j: int| 0 <= j < i implies value_of(
                    (#[trigger] fields[j]).1,
                ) is Ok by {
                    assert(front[j] == fields[j]);
                }
            },
        }
    }
}

/// The table an object is read as holds under each name the last field of
/// that name.
pub proof fn the_last_of_a_name_is_read(
    fields: Seq<(Seq<char>, JsonTree)>,
    name: Seq<char>,
    i: int,
)
    requires
        fields_of(fields) is Ok,
        last_named(fields, name, i),
    ensures
        fields_of(fields)->Ok_0.contains_key(name),
        value_of(fields[i].1) == Ok::<Tree, Refusal>(fields_of(fields)->Ok_0[name]),
    decreases fields.len(),
{
    let front = fields.subrange(0, fields.len() - 1);
    let last = fields.len() - 1;
    if i < last {
        assert(fields[last].0 != name);
        assert(front[i] == fields[i]);
        assert forall|j: int| i < j < front.len() implies (#[trigger] front[j]).0 != name by {
            assert(front[j] == fields[j]);
        }
        the_last_of_a_name_is_read(front, name, i);
    }
}

/// The table an object is read as holds nothing under a name that no field
/// has.
pub proof fn nothing_else_is_read(fields: Seq<(Seq<char>, JsonTree)>, name: Seq<char>)
    requires
        fields_of(fields) is Ok,
        forall|i: int| 0 <= i < fields.len() ==> (#[trigger] fields[i]).0 != name,
    ensures
        !fields_of(fields)->Ok_0.contains_key(name),
    decreases fields.len(),
{
    if fields.len() > 0 {
        let front = fields.subrange(0, fields.len() - 1);
        assert forall|i: int| 0 <= i < front.len() implies (#[trigger] front[i]).0 != name by {
            assert(front[i] == fields[i]);
        }
        nothing_else_is_read(front, name);
        assert(fields[fields.len() - 1].0 != name);
    }
}

/// Two trusted keys are shown alike only where they are the same key with
/// the same weight.
pub proof fn keys_are_told_apart(a: Key, b: Key)
    ensures
        key_json(a) == key_json(b) <==> key_bytes(a.public) == key_bytes(b.public) && a.weight
            == b.weight,
{
    hex_tells(key_bytes(a.public), key_bytes(b.public));
    signed_decimals_tell(a.weight as int, b.weight as int);
    if key_json(a) == key_json(b) {
        let x = key_json(a)->Object_0[0].1->Object_0;
        let y = key_json(b)->Object_0[0].1->Object_0;
        assert(x[0].1->Text_0 == y[0].1->Text_0);
        assert(x[1].1 == y[1].1);
    }
}

/// Text that is cut keeps its start, and is longer by one mark than it may
/// be wide; text that fits is kept whole.
pub proof fn what_is_cut_keeps_its_start(text: Seq<char>, width: nat)
    ensures
        text.len() <= width ==> cut(text, width) == text,
        text.len() > width ==> {
            &&& cut(text, width).len() == width + 1
            &&& cut(text, width).last() == '…'
            &&& forall|i: int| 0 <= i < width ==> #[trigger] cut(text, width)[i] == text[i]
        },
{
    reveal_strlit("…");
}

/// The links of a summary lead where the message reaches: a namespace's to
/// the namespace, a path's to what it addresses. Nothing else is a link.
pub proof fn links_lead_where_a_message_reaches(msg: Msg, span: Span)
    ensures
        (target(msg) is Some) == (reached(msg) is Some),
        target(msg) matches Some(place) ==> place.key == (reached(msg)->0).0 && place.path == (match (
        reached(msg)->0).1 {
            Some(path) => path,
            None => Seq::empty(),
        }),
        span_url(span, target(msg)) is Some <==> reached(msg) is Some && (span.style == Some(
            Style::Namespace,
        ) || span.style == Some(Style::Path)),
        span.style == Some(Style::Path) && target(msg) is Some ==> span_url(span, target(msg))
            == Some(target(msg)->0.url()),
        span.style == Some(Style::Namespace) && target(msg) is Some ==> span_url(span, target(msg))
            == Some((Place { key: (reached(msg)->0).0, path: Seq::empty() }).url()),
{
}

/// The value a message writes.
pub open spec fn written(msg: Msg) -> Option<Value> {
    match msg {
        Msg::SetNamespace(set) => Some(set.namespace.value),
        Msg::SetNamespaceKey(set) => set.value,
        Msg::AmendNamespaceKey(amend) => match amend.op {
            AmendOp::AppendEntry(value) => Some(value),
            _ => None,
        },
        _ => None,
    }
}

/// A message that writes a value is shown with that value, and one that
/// only removes what it names is shown with nothing more.
pub proof fn what_is_written_is_shown(msg: Msg)
    ensures
        written(msg) matches Some(value) ==> detail_of(msg) is Some && (detail_of(msg)->0).1
            == seq![shown(value)],
        msg is DeleteNamespace ==> detail_of(msg) is None,
        msg is SetNamespaceKey && written(msg) is None ==> detail_of(msg) is None,
{
}

/// A page says that older envelopes are held exactly where it shows some but
/// not the root, and that there are none exactly where it shows none.
pub proof fn a_note_says_what_is_missing(frames: Seq<EnvelopeFrame>, root: EnvelopeDigest)
    ensures
        note_of(frames, root) is None <==> exists|i: int|
            0 <= i < frames.len() && (#[trigger] frames[i]).digest == root,
        note_of(frames, root) == note_of(Seq::empty(), root) <==> frames.len() == 0,
{
    reveal_strlit("Nothing in this window.");
    reveal_strlit(
        "Older envelopes are held but not shown; widen the bounds to see back to the root.",
    );
    assert(note_of(frames, root) is Some && frames.len() > 0 ==> note_of(frames, root)->0.len()
        != "Nothing in this window."@.len());
    assert(among(frames, root) == exists|i: int|
        0 <= i < frames.len() && (#[trigger] frames[i]).digest == root);
}

/// The way to a place starts at its namespace, goes down one step at a time
/// and ends there.
pub proof fn crumbs_lead_the_way(place: Place, i: int)
    requires
        0 <= i <= place.path.len(),
    ensures
        place.crumbs().len() == place.path.len() + 1,
        place.crumbs()[0] == (Place { key: place.key, path: Seq::empty() }),
        place.crumbs().last() == place,
        i > 0 ==> place.crumbs()[i] == place.crumbs()[i - 1].child(place.path[i - 1]),
        i > 0 ==> place.crumbs()[i].parent() == Some(place.crumbs()[i - 1]),
{
    let crumbs = place.crumbs();
    assert(place.path.take(0) =~= Seq::<Step>::empty());
    assert(place.path.take(place.path.len() as int) =~= place.path);
    if i > 0 {
        assert(place.path.take(i) =~= place.path.take(i - 1).push(place.path[i - 1]));
        assert(place.path.take(i).drop_last() =~= place.path.take(i - 1));
    }
}

/// A place goes by its last step, or by the name of its namespace; and what
/// is written of it names the namespace, and the path where there is one.
pub proof fn places_are_named(place: Place, step: Step)
    ensures
        place.child(step).name() == step_text(step),
        (Place { key: place.key, path: Seq::empty() }).name() == place.key,
        place.key.is_prefix_of(place.text()),
        place.path.len() == 0 ==> place.text() == place.key,
        place.path.len() > 0 ==> ends_on(place.text(), path_text(place.path)),
{
    if place.path.len() > 0 {
        let rest = " › "@ + path_text(place.path);
        assert(place.text() =~= place.key + rest);
        what_stands_first(place.key, rest);
        what_stands_last(place.key + " › "@, path_text(place.path));
    } else {
        assert(place.key.subrange(0, place.key.len() as int) =~= place.key);
    }
}

/// Letters, digits and the four marks that may stand anywhere in a URL are
/// left as they are; the marks that mean something there are escaped, and so
/// is whatever is no printed character of ASCII.
pub proof fn plain_bytes_stay(byte: u8)
    ensures
        (0x30 <= byte <= 0x39 || 0x41 <= byte <= 0x5a || 0x61 <= byte <= 0x7a || byte == 0x2d || byte
            == 0x2e || byte == 0x5f || byte == 0x7e) ==> byte_text(byte) == seq![byte as char],
        (byte <= 0x20 || byte >= 0x7f || byte as char == '%' || byte as char == '/' || byte as char
            == '?' || byte as char == '#' || byte as char == '[' || byte as char == ']'
            || byte as char == '\'') ==> byte_text(byte).len() == 3 && byte_text(byte)[0] == '%',
        byte_text(byte).len() == 3 || byte_text(byte).len() == 1,
{
}

/// What a form asks for is what it holds: the value its text spells, in the
/// place it stands in; where the text spells none, nothing is asked for.
pub proof fn a_form_asks_for_what_it_holds(place: Place, key: Seq<char>, text: Seq<char>)
    ensures
        match read_value(text) {
            Ok(tree) => {
                &&& replaces(place, text) == Ok::<Asked, Seq<char>>(Asked::Put(place, tree))
                &&& inserts(place, None, text) == Ok::<Asked, Seq<char>>(Asked::Push(place, tree))
                &&& inserts(place, Some(key), text) == Ok::<Asked, Seq<char>>(
                    Asked::Put(
                        (Place { key: place.key, path: place.path.push(Step::Key(key)) }),
                        tree,
                    ),
                )
            },
            Err(why) => {
                &&& replaces(place, text) == Err::<Asked, Seq<char>>(why.text())
                &&& inserts(place, None, text) == Err::<Asked, Seq<char>>(why.text())
                &&& inserts(place, Some(key), text) == Err::<Asked, Seq<char>>(why.text())
            },
        },
{
}

/// A form that adds asks for the number it holds, whatever blanks stand
/// around it.
pub proof fn a_sum_is_asked_for(place: Place, before: Seq<char>, n: nat, after: Seq<char>)
    requires
        is_blank(before),
        is_blank(after),
    ensures
        n <= i64::MAX ==> increments(place, before + decimal(n) + after) == Ok::<Asked, Seq<char>>(
            Asked::Increment(place, n as i64),
        ),
        n <= i64::MAX ==> increments(place, before + (seq!['-'] + decimal(n)) + after) == Ok::<
            Asked,
            Seq<char>,
        >(Asked::Increment(place, (-(n as int)) as i64)),
        increments(place, before) is Err,
{
    decimal_reads_back(n);
    numbers_are_read(n, 0);
    assert(is_digit(decimal(n)[0]) && is_digit(decimal(n).last()));
    trimming_takes_what_is_around(before, decimal(n), after);
    let taken = seq!['-'] + decimal(n);
    assert(taken.last() == decimal(n).last());
    trimming_takes_what_is_around(before, taken, after);
    let none = Seq::<char>::empty();
    trimming_takes_what_is_around(before, none, none);
    assert(before + none + none =~= before);
    nothing_else_is_a_number(none, 0, 0);
}

/// A namespace is created under the name that was given, without the blanks
/// around it; where there is no other character there is no name, and
/// nothing is asked for.
pub proof fn a_namespace_is_asked_for(
    before: Seq<char>,
    name: Seq<char>,
    after: Seq<char>,
    text: Seq<char>,
)
    requires
        is_blank(before),
        is_blank(after),
        name.len() > 0 ==> !is_white(name[0]) && !is_white(name.last()),
    ensures
        name.len() > 0 ==> creates(before + name + after, text) == replaces(
            Place { key: name, path: Seq::empty() },
            text,
        ),
        name.len() == 0 ==> creates(before + name + after, text) is Err,
{
    trimming_takes_what_is_around(before, name, after);
}

/// What is said once a write is done tells the place it was done in, and the
/// head it moved.
pub proof fn a_notice_tells_the_place(asked: Asked, outcome: Seq<char>, head: EnvelopeDigest)
    ensures
        ({
            let notice = notice_text(asked, outcome, head);
            let place = match asked {
                Asked::Put(place, _) => place,
                Asked::Push(place, _) => place,
                Asked::Increment(place, _) => place,
                Asked::Delete(place) => place,
            };
            &&& mentions(notice, place.text())
            &&& ends_on(notice, outcome + " at "@ + short_text(head))
            &&& asked matches Asked::Increment(_, delta) ==> mentions(
                notice,
                signed_decimal(delta as int),
            )
        }),
{
    let end = moved_text(outcome, head);
    let notice = notice_text(asked, outcome, head);
    let said = match asked {
        Asked::Put(place, _) => "Wrote "@ + place.text(),
        Asked::Push(place, _) => "Appended to "@ + place.text(),
        Asked::Increment(place, delta) => "Added "@ + signed_decimal(delta as int) + " to "@
            + place.text(),
        Asked::Delete(place) => "Deleted "@ + place.text(),
    };
    assert(notice =~= said + "; head "@ + (outcome + " at "@ + short_text(head)));
    what_stands_last(said + "; head "@, outcome + " at "@ + short_text(head));
    match asked {
        Asked::Put(place, _) => {
            what_stands_between("Wrote "@, place.text(), end);
        },
        Asked::Push(place, _) => {
            what_stands_between("Appended to "@, place.text(), end);
        },
        Asked::Increment(place, delta) => {
            let n = signed_decimal(delta as int);
            what_stands_between("Added "@ + n + " to "@, place.text(), end);
            what_stands_between("Added "@, n, " to "@ + place.text() + end);
            assert(notice =~= "Added "@ + n + (" to "@ + place.text() + end));
        },
        Asked::Delete(place) => {
            what_stands_between("Deleted "@, place.text(), end);
        },
    }
}

/// A pane offers what can be done with what it shows: an editor for what is
/// not there yet and for a leaf, a way to add where there are entries, under
/// a name exactly where they have names, and to add to a number exactly
/// where there is one. Nothing that holds a trusted key is put in an editor,
/// and all else is.
pub proof fn a_pane_offers_what_can_be_done(body: Body, place: Place, value: Option<Value>)
    requires
        body.shows(place, value),
    ensures
        body is Missing <==> value is None,
        body is Entries <==> value is Some && (value->0 is Table || value->0 is Array),
        body is Key <==> value is Some && value->0 is Key,
        body matches Body::Entries { rows, keyed, replace, .. } ==> {
            &&& keyed <==> value->0 is Table
            &&& replace is None <==> has_key(value->0.tree())
            &&& value->0 matches Value::Table(fields) ==> rows@.len() == fields.entries@.len()
            &&& value->0 matches Value::Array(items) ==> items@.len() <= u32::MAX ==> rows@.len()
                == items@.len()
        },
        body matches Body::Leaf { increments, .. } ==> (increments <==> value->0 is Int),
{
}

/// What went wrong is told cause by cause, each behind what came of it.
pub proof fn causes_are_told_in_turn(causes: Seq<String>, more: String)
    ensures
        joined(seq![more]) == more@,
        causes.len() > 0 ==> joined(causes.push(more)) == joined(causes) + ": "@ + more@,
{
    assert(causes.push(more).drop_last() =~= causes);
}

/// How much of a digest is shown in short: twelve characters, those it is
/// written with at the start.
pub proof fn a_digest_in_short_is_its_start(digest: EnvelopeDigest)
    ensures
        short_text(digest).len() == 12,
        short_text(digest).is_prefix_of(hex_of(digest.bytes@)),
        ends_on(anchor_text(digest), short_text(digest)),
{
    assert(hex_of(digest.bytes@).len() == 64);
    assert(hex_of(digest.bytes@).subrange(0, 12) =~= short_text(digest));
    what_stands_last("e-"@, short_text(digest));
}

/// A checkpoint is shown namespace by namespace, each with what it holds;
/// a deletion condition by condition, each with where it looks and what it
/// must find.
pub proof fn what_is_listed_is_shown(msg: Msg, i: int)
    ensures
        msg matches Msg::Init(init) ==> {
            let entries = init.state.namespaces.entries@;
            let lines = (detail_of(msg)->0).1;
            &&& detail_of(msg) is Some
            &&& lines.len() == entries.len()
            &&& 0 <= i < entries.len() ==> entries[i].0@.is_prefix_of(lines[i]) && ends_on(
                lines[i],
                " = "@ + shown(entries[i].1.value),
            )
        },
        msg matches Msg::AmendNamespaceKey(amend) ==> amend.op matches AmendOp::DeleteMatching(
            predicate,
        ) ==> {
            let conditions = predicate.conditions@;
            let lines = (detail_of(msg)->0).1;
            &&& detail_of(msg) is Some
            &&& lines.len() == conditions.len()
            &&& 0 <= i < conditions.len() ==> {
                &&& conditions[i].path matches Some(path) ==> path_text(path@).is_prefix_of(lines[i])
                &&& conditions[i].path is None ==> "entry"@.is_prefix_of(lines[i])
                &&& ends_on(lines[i], " = "@ + shown(conditions[i].value))
            }
        },
{
    match msg {
        Msg::Init(init) => {
            let entries = init.state.namespaces.entries@;
            if 0 <= i < entries.len() {
                let line = (detail_of(msg)->0).1[i];
                let end = " = "@ + shown(entries[i].1.value);
                assert(line =~= entries[i].0@ + end);
                what_stands_first(entries[i].0@, end);
                what_stands_last(entries[i].0@, end);
            }
        },
        Msg::AmendNamespaceKey(amend) => match amend.op {
            AmendOp::DeleteMatching(predicate) => {
                let conditions = predicate.conditions@;
                if 0 <= i < conditions.len() {
                    let line = (detail_of(msg)->0).1[i];
                    let label = match conditions[i].path {
                        Some(path) => path_text(path@),
                        None => "entry"@,
                    };
                    let end = " = "@ + shown(conditions[i].value);
                    assert(line =~= label + end);
                    what_stands_first(label, end);
                    what_stands_last(label, end);
                }
            },
            _ => {},
        },
        _ => {},
    }
}

/// Whether every item of every array in a value can be addressed.
pub open spec fn addressable(tree: Tree) -> bool
    decreases tree,
{
    match tree {
        Tree::Array(items) => items.len() <= u32::MAX && forall|i: int|
            0 <= i < items.len() ==> addressable(#[trigger] items[i]),
        Tree::Table(fields) => forall|k: Seq<char>|
            fields.contains_key(k) ==> addressable(#[trigger] fields[k]),
        _ => true,
    }
}

/// A trusted key that a path leads to is found in what holds it.
pub proof fn a_key_on_a_path_is_found(tree: Tree, path: Seq<Step>)
    requires
        walked(tree, path) is Some,
        walked(tree, path)->0 is Key,
    ensures
        has_key(tree),
    decreases path.len(),
{
    if path.len() > 0 {
        a_key_on_a_path_is_found(child(tree, path[0])->0, path.skip(1));
        match (tree, path[0]) {
            (Tree::Table(fields), Step::Key(name)) => {
                assert(has_key(fields[name]));
            },
            (Tree::Array(items), Step::Index(index)) => {
                assert(has_key(items[index as int]));
            },
            _ => {},
        }
    }
}

/// What is found to hold a trusted key has a path that leads to one.
pub proof fn a_key_that_is_found_is_on_a_path(tree: Tree) -> (path: Seq<Step>)
    requires
        has_key(tree),
        addressable(tree),
    ensures
        walked(tree, path) is Some,
        walked(tree, path)->0 is Key,
    decreases tree,
{
    match tree {
        Tree::Array(items) => {
            let i = choose|i: int| 0 <= i < items.len() && has_key(#[trigger] items[i]);
            assert(addressable(items[i]));
            let rest = a_key_that_is_found_is_on_a_path(items[i]);
            let path = seq![Step::Index(i as u32)] + rest;
            assert(path.skip(1) =~= rest);
            path
        },
        Tree::Table(fields) => {
            let k = choose|k: Seq<char>| fields.contains_key(k) && has_key(#[trigger] fields[k]);
            assert(addressable(fields[k]));
            assert(decreases_to!(tree => fields[k]));
            let rest = a_key_that_is_found_is_on_a_path(fields[k]);
            let path = seq![Step::Key(k)] + rest;
            assert(path.skip(1) =~= rest);
            path
        },
        _ => {
            let path = Seq::<Step>::empty();
            path
        },
    }
}

/// A line of the sidebar is of one namespace: it leads there and goes by its
/// name, stands out exactly where the pane is inside it, and is set apart
/// exactly where the namespace is the ledger's own.
pub proof fn a_side_row_is_of_its_namespace(
    row: SideRow,
    entry: NamespaceEntry,
    active: Option<Seq<char>>,
)
    requires
        row.shows(entry, active),
    ensures
        row.link.url@ == (Place { key: entry.key@, path: Seq::empty() }).url(),
        row.link.label@ == entry.key@,
        row.shape@ == entry.shape@,
        row.active <==> active == Some(entry.key@),
        row.internal <==> "_lotus"@.is_prefix_of(entry.key@),
{
    let prefix = "_lotus"@;
    if is_internal(entry.key@) {
        assert(entry.key@.subrange(0, prefix.len() as int) =~= prefix);
    }
    if prefix.is_prefix_of(entry.key@) {
        assert(entry.key@.take(prefix.len() as int) =~= prefix);
    }
}

/// A row of a listing is of one entry: it leads to it and goes by its step,
/// tells its kind, and asks about it before it is deleted.
pub proof fn a_row_is_of_its_entry(row: Row, place: Place, step: Step, value: Value)
    requires
        row.shows(place, step, value),
    ensures
        row.link.url@ == place.child(step).url(),
        row.link.label@ == step_text(step),
        row.kind@ == kind_text(value),
        row.preview@ == cut(json_text(json_tree(value)), 72),
        mentions(row.confirm@, place.child(step).text()),
{
    what_stands_between("Delete "@, place.child(step).text(), "?"@);
}

/// What is asked before something is deleted names it; and a namespace is
/// asked about otherwise than what is inside one.
pub proof fn a_deletion_names_what_goes(deletion: Deletion, place: Place)
    requires
        deletion.deletes(place),
    ensures
        mentions(deletion.confirm@, place.text()),
        ends_on(deletion.label@, "namespace"@) <==> place.path.len() == 0,
{
    reveal_strlit("Delete namespace");
    reveal_strlit("Delete");
    reveal_strlit("namespace");
    if place.path.len() == 0 {
        what_stands_between("Delete the namespace "@, place.text(), " and everything in it?"@);
        assert("Delete namespace"@.skip(7) =~= "namespace"@);
        assert(deletion.label@.len() == 16 && "namespace"@.len() == 9);
    } else {
        what_stands_between("Delete "@, place.text(), "?"@);
        assert(deletion.label@.len() == 6 && "namespace"@.len() == 9);
    }
}

/// A digest that a stanza refers to is told in full and in short, and can be
/// followed exactly where the page shows the envelope.
pub proof fn a_reference_points_at_what_is_shown(
    reference: Reference,
    digest: EnvelopeDigest,
    frames: Seq<EnvelopeFrame>,
)
    requires
        reference.names(digest, frames),
    ensures
        reference.full@ == hex_of(digest.bytes@),
        reference.short@.is_prefix_of(reference.full@),
        reference.short@.len() == 12,
        reference.anchor is Some <==> exists|i: int|
            0 <= i < frames.len() && (#[trigger] frames[i]).digest == digest,
        reference.anchor matches Some(anchor) ==> anchor@ == anchor_text(digest),
{
    a_digest_in_short_is_its_start(digest);
}

/// A chain page shows what it was given newest first, one stanza an envelope:
/// each under its digest, marked as the head or the root exactly where it is
/// that, and with what it says and how it was scored; and it shows the bounds
/// in force.
pub proof fn a_chain_page_runs_from_the_newest(
    pane: ChainPane,
    walk: Walk,
    range: ChainRange,
    frames: Seq<EnvelopeFrame>,
    i: int,
)
    requires
        pane.shows(walk, range, frames),
        0 <= i < frames.len(),
    ensures
        pane.stanzas@.len() == frames.len(),
        pane.limit == walk.limit,
        pane.since is Some <==> walk.since is Some,
        pane.head@ == hex_of(range.head.bytes@),
        ({
            let stanza = pane.stanzas@[frames.len() - 1 - i];
            let frame = frames[i];
            &&& stanza.digest@ == hex_of(frame.digest.bytes@)
            &&& stanza.head <==> frame.digest == range.head
            &&& stanza.root <==> frame.digest == range.root
            &&& stanza.prev is Some <==> frame.envelope@.payload.prev() is Some
            &&& stanza.status@ == status_span(frame.verification).text
            &&& stanza.timestamps == frame.envelope.timestamps
            &&& stanza.signers@.len() == frame.envelope.signatures.entries@.len()
            &&& stanza.stored is Some <==> frame.stored_at is Some
            &&& stanza.detail is Some <==> detail_of(frame.envelope.payload) is Some
            &&& stanza.detail matches Some(field) ==> field.lines@.len() == (detail_of(
                frame.envelope.payload,
            )->0).1.len()
        }),
{
    let at = frames.len() - 1 - i;
    let stanza = pane.stanzas@[at];
    assert(stanza.shows(frames[frames.len() - 1 - at], range, frames));
    assert(lines_of(stanza.signers@).len() == stanza.signers@.len());
    if stanza.detail is Some {
        assert(lines_of(stanza.detail->0.lines@).len() == stanza.detail->0.lines@.len());
    }
}

/// A route that names no namespace, or an empty one, leads nowhere; one that
/// names a namespace leads to it, and to the path inside it where that can
/// be read.
pub proof fn a_route_leads_to_its_place(key: Seq<char>, path: Seq<char>)
    ensures
        place_of(None, Some(path)) is Err,
        key.len() == 0 ==> place_of(Some(key), Some(path)) is Err && place_of(Some(key), None) is Err,
        key.len() > 0 ==> place_of(Some(key), None) == Ok::<Place, Seq<char>>(
            Place { key, path: Seq::empty() },
        ),
        key.len() > 0 ==> match (path_of(path), place_of(Some(key), Some(path))) {
            (Some(steps), Ok(place)) => place == (Place { key, path: steps }),
            (None, Err(why)) => mentions(why, path),
            _ => false,
        },
{
    let end = "names are parted by dots, places and quoted names stand in brackets"@;
    let rest = "` is not a path: "@ + end;
    what_stands_between("`"@, path, rest);
    assert("`"@ + path + "` is not a path: "@ + end =~= "`"@ + path + rest);
}

/// A badge begins with the name of the kind, and a container's ends on how
/// many entries it has.
pub proof fn a_badge_names_the_kind(value: Value)
    ensures
        (match value {
            Value::String(_) => "string"@,
            Value::Int(_) => "int"@,
            Value::Bool(_) => "bool"@,
            Value::Key(_) => "trusted key"@,
            Value::Array(_) => "array"@,
            Value::Table(_) => "map"@,
        }).is_prefix_of(kind_text(value)),
        value matches Value::Array(items) ==> ends_on(kind_text(value), decimal(items@.len())),
        value matches Value::Table(fields) ==> ends_on(
            kind_text(value),
            decimal(fields.entries@.len()),
        ),
{
    let text = kind_text(value);
    assert(text.subrange(0, text.len() as int) =~= text);
    match value {
        Value::Array(items) => {
            reveal_strlit("array");
            reveal_strlit("array · ");
            assert(text.subrange(0, 5) =~= "array"@);
            what_stands_last("array · "@, decimal(items@.len()));
        },
        Value::Table(fields) => {
            reveal_strlit("map");
            reveal_strlit("map · ");
            assert(text.subrange(0, 3) =~= "map"@);
            what_stands_last("map · "@, decimal(fields.entries@.len()));
        },
        _ => {},
    }
}

/// A bit of a summary reads as its span does, and leads just where that
/// does.
pub proof fn a_bit_is_of_its_span(bits: Seq<Bit>, msg: Msg, i: int)
    requires
        sums_up(bits, msg),
        0 <= i < bits.len(),
    ensures
        bits.len() == message_spans(msg).len(),
        bits[i].text@ == message_spans(msg)[i].text,
        bits[i].url is Some <==> span_url(message_spans(msg)[i], target(msg)) is Some,
        bits[i].url matches Some(url) ==> span_url(message_spans(msg)[i], target(msg)) == Some(url@),
{
    assert(bits[i].shows(message_spans(msg)[i], target(msg)));
}

/// A value in a stanza fills one line, of ninety-six characters and a mark
/// where it was cut.
pub proof fn a_value_in_a_stanza_fills_a_line(value: Value)
    ensures
        shown(value).len() <= 97,
        json_text(json_tree(value)).len() <= 96 ==> shown(value) == json_text(json_tree(value)),
{
    what_is_cut_keeps_its_start(json_text(json_tree(value)), 96);
}

} // verus!
