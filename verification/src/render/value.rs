//! Showing the value an envelope writes.
//!
//! A preview, never a serialization: a value runs from an integer to a
//! whole checkpoint, so what fits is written out JSON-shaped and what does
//! not is elided.

use vstd::prelude::*;

use crate::digest::{hex_chars, hex_of};
use crate::text::{
    append, append_chars, append_decimal, append_signed, chars_of, decimal, signed_decimal, text_of,
};
use crate::value::{
    entries_are_smaller, entry_count, entry_value, field_is_smaller, item_is_smaller, Value,
};

verus! {

/// Columns a preview line may fill, past the label a stanza pads to.
pub const WIDTH: usize = 60;

/// Lines one preview may run to, its elisions counted.
pub const LINES: usize = 8;

/// Spaces one level of nesting indents by.
pub const INDENT: usize = 2;

/// Columns a leaf is never elided below, however deep it sits: a value cut
/// to nothing says less than a line that runs long.
pub const MIN_LEAF: usize = 16;

/// Whether a character is a control character.
pub open spec fn is_control(c: char) -> bool {
    (c as u32) < 32 || 127 <= (c as u32) < 160
}

/// The hex digits in order.
pub open spec fn hex_digit(d: u32) -> char {
    seq!['0', '1', '2', '3', '4', '5', '6', '7', '8', '9', 'a', 'b', 'c', 'd', 'e', 'f'][d as int]
}

/// A character as it stands in a JSON string.
pub open spec fn escaped_char(c: char) -> Seq<char> {
    if c == '"' {
        seq!['\\', '"']
    } else if c == '\\' {
        seq!['\\', '\\']
    } else if c == '\u{8}' {
        seq!['\\', 'b']
    } else if c == '\u{c}' {
        seq!['\\', 'f']
    } else if c == '\n' {
        seq!['\\', 'n']
    } else if c == '\r' {
        seq!['\\', 'r']
    } else if c == '\t' {
        seq!['\\', 't']
    } else if is_control(c) {
        seq!['\\', 'u', '0', '0', hex_digit((c as u32) / 16), hex_digit((c as u32) % 16)]
    } else {
        seq![c]
    }
}

/// Text as it stands in a JSON string.
pub open spec fn escaped(text: Seq<char>) -> Seq<char>
    decreases text.len(),
{
    if text.len() == 0 {
        Seq::empty()
    } else {
        escaped(text.drop_last()) + escaped_char(text.last())
    }
}

/// `text` as a JSON string literal.
pub open spec fn quote(text: Seq<char>) -> Seq<char> {
    seq!['"'] + escaped(text) + seq!['"']
}

/// `text` cut to `width` columns, ending in an ellipsis where it was cut.
pub open spec fn elided(text: Seq<char>, width: nat) -> Seq<char> {
    let width = if width < MIN_LEAF {
        MIN_LEAF as nat
    } else {
        width
    };
    if text.len() <= width {
        text
    } else {
        text.take(width - 1).push('…')
    }
}

/// How many characters of `text`, `k` of them given, fit `room` columns once
/// they are escaped.
pub open spec fn fitting(text: Seq<char>, room: nat, k: nat) -> nat
    decreases text.len() - k,
{
    if k < text.len() && escaped(text.take(k as int + 1)).len() <= room {
        fitting(text, room, k + 1)
    } else {
        k
    }
}

/// `text` cut so that it fills at most `width` columns once it is escaped,
/// ending in an ellipsis where it was cut, and never inside an escape.
pub open spec fn shortened(text: Seq<char>, width: nat) -> Seq<char> {
    let width = if width < MIN_LEAF {
        MIN_LEAF as nat
    } else {
        width
    };
    if escaped(text).len() <= width {
        text
    } else {
        text.take(fitting(text, (width - 1) as nat, 0) as int).push('…')
    }
}

/// One character more is escaped behind the rest.
proof fn escaping_goes_on(text: Seq<char>, k: int)
    requires
        0 <= k < text.len(),
    ensures
        escaped(text.take(k + 1)) == escaped(text.take(k)) + escaped_char(text[k]),
{
    assert(text.take(k + 1).drop_last() =~= text.take(k));
}

/// What fits does, and one character more does not.
pub proof fn what_fits_fits(text: Seq<char>, room: nat, k: nat)
    requires
        k <= text.len(),
        escaped(text.take(k as int)).len() <= room,
    ensures
        k <= fitting(text, room, k) <= text.len(),
        escaped(text.take(fitting(text, room, k) as int)).len() <= room,
        fitting(text, room, k) == text.len() <==> escaped(text).len() <= room,
    decreases text.len() - k,
{
    assert(text.take(text.len() as int) =~= text);
    if k < text.len() {
        if escaped(text.take(k as int + 1)).len() <= room {
            what_fits_fits(text, room, k + 1);
        } else {
            escaping_widens(text, k + 1);
        }
    }
}

/// More of a text is no narrower, escaped.
proof fn escaping_widens(text: Seq<char>, k: nat)
    requires
        k <= text.len(),
    ensures
        escaped(text.take(k as int)).len() <= escaped(text).len(),
    decreases text.len() - k,
{
    assert(text.take(text.len() as int) =~= text);
    if k < text.len() {
        escaping_goes_on(text, k as int);
        escaping_widens(text, k + 1);
    }
}

/// Whether a container of `total` entries is worth breaking over `budget`
/// lines: an opener and a closer, a line for something real inside them,
/// and, where there is more than one entry, a line for the count of what
/// was left out.
pub open spec fn worth_breaking(total: nat, budget: nat) -> bool {
    budget >= 3 + if total > 1 {
        1int
    } else {
        0
    }
}

/// What stands before the entry at `i` of a container.
pub open spec fn entry_label(value: Value, i: int) -> Seq<char> {
    match value {
        Value::Table(fields) => quote(fields.entries@[i].0@) + seq![':', ' '],
        _ => Seq::empty(),
    }
}

/// Whether a value is one a path stops at.
pub open spec fn is_leaf_value(value: Value) -> bool {
    !(value is Table) && !(value is Array)
}

/// What opens and what closes a container.
pub open spec fn opener(value: Value) -> char {
    if value is Table {
        '{'
    } else {
        '['
    }
}

pub open spec fn closer(value: Value) -> char {
    if value is Table {
        '}'
    } else {
        ']'
    }
}

/// A leaf on one line.
pub open spec fn leaf_text(value: Value) -> Seq<char> {
    match value {
        Value::String(text) => quote(text@),
        Value::Int(n) => signed_decimal(n as int),
        Value::Bool(true) => "true"@,
        Value::Bool(false) => "false"@,
        // A trusted key is not a value JSON has a shape for, so it stands
        // in angle brackets.
        Value::Key(key) => seq!['<'] + hex_of(key.id.bytes@) + seq!['>'],
        _ => Seq::empty(),
    }
}

/// A value on one line, in the pieces between which writing it may stop.
pub open spec fn pieces(value: Value) -> Seq<Seq<char>>
    decreases value, entry_count(value) + 1,
{
    if is_leaf_value(value) {
        seq![leaf_text(value)]
    } else if entry_count(value) == 0 {
        seq![seq![opener(value), closer(value)]]
    } else {
        entry_pieces(value, entry_count(value)).push(seq![closer(value)])
    }
}

/// The pieces of the first `k` entries of a container, each after what
/// opens the container or parts it from the one before.
pub open spec fn entry_pieces(value: Value, k: nat) -> Seq<Seq<char>>
    decreases value, k,
{
    if k == 0 || k > entry_count(value) {
        Seq::empty()
    } else {
        proof {
            entries_are_smaller(value, k - 1);
        }
        let lead = if k == 1 {
            seq![opener(value)]
        } else {
            seq![',', ' ']
        };
        entry_pieces(value, (k - 1) as nat).push(lead + entry_label(value, k - 1)) + pieces(
            entry_value(value, k - 1),
        )
    }
}

/// `start` and as many of `pieces` after it as it takes to pass `room`
/// columns, or all of them.
pub open spec fn filled(start: Seq<char>, pieces: Seq<Seq<char>>, room: nat) -> Seq<char>
    decreases pieces.len(),
{
    if pieces.len() == 0 || start.len() > room {
        start
    } else {
        filled(start + pieces[0], pieces.skip(1), room)
    }
}

/// Filling with some pieces and then with more is filling with all.
proof fn filling_on(start: Seq<char>, a: Seq<Seq<char>>, b: Seq<Seq<char>>, room: nat)
    ensures
        filled(start, a + b, room) == filled(filled(start, a, room), b, room),
    decreases a.len(),
{
    if a.len() == 0 {
        assert(a + b =~= b);
    } else if start.len() > room {
    } else {
        assert((a + b)[0] == a[0]);
        assert((a + b).skip(1) =~= a.skip(1) + b);
        filling_on(start + a[0], a.skip(1), b, room);
    }
}

/// Filling never takes anything away.
proof fn filling_grows(start: Seq<char>, pieces: Seq<Seq<char>>, room: nat)
    ensures
        filled(start, pieces, room).len() >= start.len(),
    decreases pieces.len(),
{
    if pieces.len() > 0 && start.len() <= room {
        filling_grows(start + pieces[0], pieces.skip(1), room);
    }
}

/// What passed the room stays as it is.
proof fn filled_is_full(start: Seq<char>, a: Seq<Seq<char>>, b: Seq<Seq<char>>, room: nat)
    requires
        filled(start, a, room).len() > room,
    ensures
        filled(start, a + b, room) == filled(start, a, room),
{
    filling_on(start, a, b, room);
}

/// One piece that fits to begin with.
proof fn filling_one(start: Seq<char>, piece: Seq<char>, room: nat)
    requires
        start.len() <= room,
    ensures
        filled(start, seq![piece], room) == start + piece,
{
    assert(seq![piece].skip(1).len() == 0);
    assert(filled(start + piece, seq![piece].skip(1), room) == start + piece);
}

/// The columns left of a line that starts at `start`.
pub open spec fn room_from(start: nat) -> nat {
    if start >= WIDTH {
        0
    } else {
        (WIDTH - start) as nat
    }
}

/// So many spaces.
pub open spec fn spaces(n: nat) -> Seq<char> {
    Seq::new(n, |i: int| ' ')
}

/// How many lines an entry gets: what is left of the budget, less one held
/// back where entries follow it, and its share at most.
pub open spec fn allowance(used: nat, rest: nat, budget: nat, share: nat) -> int {
    let left = budget - used - if rest > 1 {
        1int
    } else {
        0
    };
    let share = if share < 1 {
        1
    } else {
        share as int
    };
    if left < share {
        left
    } else {
        share
    }
}

/// The columns that an entry leaves for its separator, `rest` being left
/// with it: one, but for the last.
pub open spec fn separator_width(rest: nat) -> nat {
    if rest > 1 {
        1
    } else {
        0
    }
}

/// The line that counts what was left out.
pub open spec fn remainder(indent: nat, rest: nat) -> Seq<char> {
    spaces(indent) + seq!['…', ' '] + decimal(rest) + " more"@
}

/// The lines of an entry: its first behind the label, its last with a
/// separator where one is called for. An entry that was elided has said so
/// already, and carries none.
pub open spec fn entry_lines(
    indent: nat,
    label: Seq<char>,
    sub: Seq<Seq<char>>,
    separator: bool,
) -> Seq<Seq<char>> {
    let first = spaces(indent) + label + if sub.len() > 0 {
        sub[0]
    } else {
        Seq::empty()
    };
    let lines = seq![first] + sub.skip(1);
    if separator && !(lines.last().len() > 0 && lines.last().last() == '…') {
        lines.drop_last().push(lines.last().push(','))
    } else {
        lines
    }
}

/// The lines `value` renders to: the first with `room` columns to fill, the
/// rest indented to `indent`, `budget` of them at most.
pub open spec fn laid_out(value: Value, room: nat, indent: nat, budget: nat) -> Seq<Seq<char>>
    decreases value, entry_count(value) + 1,
{
    let line = filled(Seq::empty(), pieces(value), room);
    if line.len() <= room {
        seq![line]
    } else if is_leaf_value(value) {
        match value {
            // Cut inside its quotes rather than after them.
            Value::String(text) => seq![
                quote(shortened(text@, if room < 2 { 0 } else { (room - 2) as nat })),
            ],
            _ => seq![elided(line, room)],
        }
    } else if (value is Array && all_leaves(value)) || !worth_breaking(
        entry_count(value),
        budget,
    ) {
        // An array of leaves is a list rather than a record: broken over
        // lines it would show fewer of them than the one elided line does.
        seq![elided(line, room)]
    } else {
        let inside = (budget - 2) as nat;
        let (lines, _) = within(value, entry_count(value), indent + INDENT as nat, inside);
        (seq![seq![opener(value)]] + lines).push(spaces(indent).push(closer(value)))
    }
}

/// Whether every entry of a container is a leaf.
pub open spec fn all_leaves(value: Value) -> bool {
    forall|i: int| 0 <= i < entry_count(value) ==> is_leaf_value(#[trigger] entry_value(value, i))
}

/// The lines of the first `k` entries of a container, and whether the
/// budget ran out before they were all written.
pub open spec fn within(value: Value, k: nat, indent: nat, budget: nat) -> (Seq<Seq<char>>, bool)
    decreases value, k,
{
    if k == 0 || k > entry_count(value) {
        (Seq::empty(), false)
    } else {
        let (lines, stopped) = within(value, (k - 1) as nat, indent, budget);
        let rest = (entry_count(value) - (k - 1)) as nat;
        let allowed = allowance(lines.len(), rest, budget, budget);
        if stopped {
            (lines, true)
        } else if allowed <= 0 {
            (lines.push(remainder(indent, rest)), true)
        } else {
            proof {
                entries_are_smaller(value, k - 1);
            }
            let label = entry_label(value, k - 1);
            let sub = laid_out(
                entry_value(value, k - 1),
                room_from(indent + label.len() + separator_width(rest)),
                indent,
                allowed as nat,
            );
            (lines + entry_lines(indent, label, sub, rest > 1), false)
        }
    }
}

/// A labelled list of values.
pub type Labelled = Seq<(Seq<char>, Value)>;

/// The lines of the first `k` of a labelled list, each value within its
/// share, and whether the budget ran out before they were all written.
pub open spec fn listed(list: Labelled, k: nat, budget: nat, share: nat) -> (Seq<Seq<char>>, bool)
    decreases k,
{
    if k == 0 || k > list.len() {
        (Seq::empty(), false)
    } else {
        let (lines, stopped) = listed(list, (k - 1) as nat, budget, share);
        let rest = (list.len() - (k - 1)) as nat;
        let allowed = allowance(lines.len(), rest, budget, share);
        if stopped {
            (lines, true)
        } else if allowed <= 0 {
            (lines.push(remainder(0, rest)), true)
        } else {
            let (label, value) = list[k - 1];
            let sub = laid_out(value, room_from(label.len()), 0, allowed as nat);
            (lines + entry_lines(0, label, sub, false), false)
        }
    }
}

/// Each value's share of the lines a list has.
pub open spec fn share_of(total: nat) -> nat {
    let total = if total < 1 {
        1
    } else {
        total
    };
    ((LINES + total - 1) / total as int) as nat
}

/// The lines a labelled list of values previews as.
pub open spec fn previews_of(list: Labelled) -> Seq<Seq<char>> {
    listed(list, list.len(), LINES as nat, share_of(list.len())).0
}

/// The lines a value previews as, `prefix` opening the first.
pub open spec fn preview_of(prefix: Seq<char>, value: Value) -> Seq<Seq<char>> {
    let lines = laid_out(value, room_from(prefix.len()), 0, LINES as nat);
    lines.update(0, prefix + lines[0])
}

/// What lines of characters say.
pub open spec fn lines_view(lines: Seq<Vec<char>>) -> Seq<Seq<char>> {
    lines.map_values(|line: Vec<char>| line@)
}

/// The hex digit for `d`.
fn hex_digit_of(d: u32) -> (c: char)
    requires
        d < 16,
    ensures
        c == hex_digit(d),
{
    let digits = ['0', '1', '2', '3', '4', '5', '6', '7', '8', '9', 'a', 'b', 'c', 'd', 'e', 'f'];
    digits[d as usize]
}

/// Appends `text` as a JSON string literal.
fn append_quoted(out: &mut Vec<char>, text: &Vec<char>)
    ensures
        final(out)@ == old(out)@ + quote(text@),
{
    let ghost before = out@;
    out.push('"');
    let mut i: usize = 0;
    assert(text@.take(0).len() == 0);
    assert(out@ =~= before + seq!['"'] + escaped(text@.take(0)));
    while i < text.len()
        invariant
            i <= text@.len(),
            out@ == before + seq!['"'] + escaped(text@.take(i as int)),
        decreases text@.len() - i,
    {
        let c = text[i];
        let code: u32 = c as u32;
        let ghost last = out@;
        if c == '"' {
            out.push('\\');
            out.push('"');
        } else if c == '\\' {
            out.push('\\');
            out.push('\\');
        } else if c == '\u{8}' {
            out.push('\\');
            out.push('b');
        } else if c == '\u{c}' {
            out.push('\\');
            out.push('f');
        } else if c == '\n' {
            out.push('\\');
            out.push('n');
        } else if c == '\r' {
            out.push('\\');
            out.push('r');
        } else if c == '\t' {
            out.push('\\');
            out.push('t');
        } else if code < 32 || (127 <= code && code < 160) {
            out.push('\\');
            out.push('u');
            out.push('0');
            out.push('0');
            out.push(hex_digit_of(code / 16));
            out.push(hex_digit_of(code % 16));
        } else {
            out.push(c);
        }
        i += 1;
        proof {
            assert(out@ =~= last + escaped_char(c));
            assert(text@.take(i as int).drop_last() =~= text@.take(i - 1));
            assert(text@.take(i as int).last() == c);
            assert(out@ =~= before + seq!['"'] + escaped(text@.take(i as int)));
        }
    }
    assert(text@.take(i as int) =~= text@);
    out.push('"');
    assert(out@ =~= before + quote(text@));
}

/// `text` as a JSON string literal.
pub fn quoted(text: &str) -> (literal: String)
    ensures
        literal@ == quote(text@),
{
    let chars = chars_of(text);
    let mut out: Vec<char> = Vec::new();
    append_quoted(&mut out, &chars);
    assert(out@ =~= quote(text@));
    text_of(&out)
}

/// `text` cut to `width` columns, ending in an ellipsis where it was cut.
pub fn elide(text: &Vec<char>, width: usize) -> (cut: Vec<char>)
    ensures
        cut@ == elided(text@, width as nat),
{
    let width: usize = if width < MIN_LEAF {
        MIN_LEAF
    } else {
        width
    };
    let whole: bool = text.len() <= width;
    let end: usize = if whole {
        text.len()
    } else {
        width - 1
    };
    let mut cut: Vec<char> = Vec::new();
    let mut i: usize = 0;
    while i < end
        invariant
            i <= end <= text@.len(),
            cut@ == text@.take(i as int),
        decreases end - i,
    {
        cut.push(text[i]);
        i += 1;
        assert(cut@ =~= text@.take(i as int));
    }
    if !whole {
        cut.push('…');
    } else {
        assert(text@.take(end as int) =~= text@);
    }
    cut
}

/// The columns that a character fills in a JSON string.
fn escaped_width(c: char) -> (width: usize)
    ensures
        width == escaped_char(c).len(),
{
    let code: u32 = c as u32;
    if c == '"' || c == '\\' || c == '\u{8}' || c == '\u{c}' || c == '\n' || c == '\r' || c
        == '\t' {
        2
    } else if code < 32 || (127 <= code && code < 160) {
        6
    } else {
        1
    }
}

/// How many characters of `text` fit `room` columns once they are escaped.
fn fit(text: &Vec<char>, room: usize) -> (k: usize)
    ensures
        k == fitting(text@, room as nat, 0),
        k <= text@.len(),
{
    let mut k: usize = 0;
    let mut used: usize = 0;
    assert(text@.take(0).len() == 0);
    while k < text.len()
        invariant
            k <= text@.len(),
            used == escaped(text@.take(k as int)).len(),
            used <= room,
            fitting(text@, room as nat, 0) == fitting(text@, room as nat, k as nat),
        decreases text@.len() - k,
    {
        let width: usize = escaped_width(text[k]);
        proof {
            escaping_goes_on(text@, k as int);
        }
        if width > room - used {
            return k;
        }
        used += width;
        k += 1;
    }
    k
}

/// `text` cut to fill `width` columns in a JSON string, ending in an
/// ellipsis where it was cut.
pub fn shorten(text: &Vec<char>, width: usize) -> (cut: Vec<char>)
    ensures
        cut@ == shortened(text@, width as nat),
{
    let width: usize = if width < MIN_LEAF {
        MIN_LEAF
    } else {
        width
    };
    let whole: bool = fit(text, width) == text.len();
    proof {
        assert(text@.take(0).len() == 0);
        what_fits_fits(text@, width as nat, 0);
    }
    let end: usize = if whole {
        text.len()
    } else {
        fit(text, width - 1)
    };
    let mut cut: Vec<char> = Vec::new();
    let mut i: usize = 0;
    while i < end
        invariant
            i <= end <= text@.len(),
            cut@ == text@.take(i as int),
        decreases end - i,
    {
        cut.push(text[i]);
        i += 1;
        assert(cut@ =~= text@.take(i as int));
    }
    if !whole {
        cut.push('…');
    } else {
        assert(text@.take(end as int) =~= text@);
    }
    cut
}

/// Whether a container of `total` entries is worth breaking over `budget`
/// lines.
pub fn breakable(total: usize, budget: usize) -> (breakable: bool)
    ensures
        breakable == worth_breaking(total as nat, budget as nat),
{
    let held: usize = if total > 1 {
        1
    } else {
        0
    };
    budget >= 3 + held
}

/// The columns `text` occupies.
pub fn width(text: &str) -> (columns: usize)
    ensures
        columns == text@.len(),
{
    let chars = chars_of(text);
    chars.len()
}

/// Whether a value is one a path stops at.
fn is_leaf(value: &Value) -> (leaf: bool)
    ensures
        leaf == is_leaf_value(*value),
{
    match value {
        Value::Table(_) | Value::Array(_) => false,
        _ => true,
    }
}

/// Writes `value` on one line, giving up the moment it passes `room`
/// columns: a value can be a whole checkpoint, and no preview needs the
/// text of one. Says whether it fit.
pub fn write_compact(out: &mut Vec<char>, value: &Value, room: usize) -> (fits: bool)
    ensures
        final(out)@ == filled(old(out)@, pieces(*value), room as nat),
        fits == (final(out)@.len() <= room),
    decreases *value,
{
    let ghost start = out@;
    if out.len() > room {
        return false;
    }
    proof {
        if is_leaf_value(*value) {
            filling_one(start, leaf_text(*value), room as nat);
        }
    }
    match value {
        Value::String(text) => {
            let chars = chars_of(text.as_str());
            append_quoted(out, &chars);
        },
        Value::Int(n) => {
            append_signed(out, *n);
        },
        Value::Bool(flag) => {
            if *flag {
                append(out, "true");
            } else {
                append(out, "false");
            }
        },
        Value::Key(key) => {
            out.push('<');
            let id = hex_chars(&key.id.bytes);
            append_chars(out, &id);
            out.push('>');
            assert(out@ =~= start + leaf_text(*value));
        },
        Value::Array(items) => {
            if items.len() == 0 {
                out.push('[');
                out.push(']');
                proof {
                    filling_one(start, seq!['[', ']'], room as nat);
                    assert(out@ =~= start + seq!['[', ']']);
                }
                return out.len() <= room;
            }
            let mut i: usize = 0;
            while i < items.len()
                invariant
                    i <= items@.len(),
                    *value == Value::Array(*items),
                    out@.len() <= room,
                    start == old(out)@,
                    out@ == filled(start, entry_pieces(*value, i as nat), room as nat),
                decreases items@.len() - i,
            {
                let ghost done = entry_pieces(*value, i as nat);
                let ghost before = out@;
                if i > 0 {
                    out.push(',');
                    out.push(' ');
                } else {
                    out.push('[');
                }
                proof {
                    item_is_smaller(*value, i as int);
                    let lead = if i == 0 {
                        seq!['[']
                    } else {
                        seq![',', ' ']
                    };
                    let piece = lead + entry_label(*value, i as int);
                    assert(out@ =~= before + piece);
                    filling_one(before, piece, room as nat);
                    filling_on(start, done, seq![piece], room as nat);
                    assert(done + seq![piece] =~= done.push(piece));
                    filling_on(start, done.push(piece), pieces(items@[i as int]), room as nat);
                }
                let fits = write_compact(out, &items[i], room);
                assert(out@ == filled(start, entry_pieces(*value, (i + 1) as nat), room as nat));
                if !fits {
                    proof {
                        stopping_early(*value, start, (i + 1) as nat, room as nat);
                    }
                    return false;
                }
                i += 1;
            }
            proof {
                let all = entry_pieces(*value, items@.len());
                filling_on(start, all, seq![seq![']']], room as nat);
                filling_one(out@, seq![']'], room as nat);
                assert(all.push(seq![']']) =~= all + seq![seq![']']]);
            }
            out.push(']');
        },
        Value::Table(fields) => {
            if fields.entries.len() == 0 {
                out.push('{');
                out.push('}');
                proof {
                    filling_one(start, seq!['{', '}'], room as nat);
                    assert(out@ =~= start + seq!['{', '}']);
                }
                return out.len() <= room;
            }
            let mut i: usize = 0;
            while i < fields.entries.len()
                invariant
                    i <= fields.entries@.len(),
                    *value == Value::Table(*fields),
                    out@.len() <= room,
                    start == old(out)@,
                    out@ == filled(start, entry_pieces(*value, i as nat), room as nat),
                decreases fields.entries@.len() - i,
            {
                let ghost done = entry_pieces(*value, i as nat);
                let ghost before = out@;
                if i > 0 {
                    out.push(',');
                    out.push(' ');
                } else {
                    out.push('{');
                }
                let name = chars_of(fields.entries[i].0.as_str());
                append_quoted(out, &name);
                out.push(':');
                out.push(' ');
                proof {
                    field_is_smaller(*value, i as int);
                    let lead = if i == 0 {
                        seq!['{']
                    } else {
                        seq![',', ' ']
                    };
                    let piece = lead + entry_label(*value, i as int);
                    assert(out@ =~= before + piece);
                    filling_one(before, piece, room as nat);
                    filling_on(start, done, seq![piece], room as nat);
                    assert(done + seq![piece] =~= done.push(piece));
                    filling_on(
                        start,
                        done.push(piece),
                        pieces(fields.entries@[i as int].1),
                        room as nat,
                    );
                }
                let fits = write_compact(out, &fields.entries[i].1, room);
                assert(out@ == filled(start, entry_pieces(*value, (i + 1) as nat), room as nat));
                if !fits {
                    proof {
                        stopping_early(*value, start, (i + 1) as nat, room as nat);
                    }
                    return false;
                }
                i += 1;
            }
            proof {
                let all = entry_pieces(*value, fields.entries@.len());
                filling_on(start, all, seq![seq!['}']], room as nat);
                filling_one(out@, seq!['}'], room as nat);
                assert(all.push(seq!['}']) =~= all + seq![seq!['}']]);
            }
            out.push('}');
        },
    }
    out.len() <= room
}

/// Stopped inside a container is stopped for the whole of it.
proof fn stopping_early(value: Value, start: Seq<char>, k: nat, room: nat)
    requires
        0 < k <= entry_count(value),
        filled(start, entry_pieces(value, k), room).len() > room,
    ensures
        filled(start, pieces(value), room) == filled(start, entry_pieces(value, k), room),
    decreases entry_count(value) - k,
{
    if k < entry_count(value) {
        let lead = seq![',', ' '];
        let more = seq![lead + entry_label(value, k as int)] + pieces(entry_value(value, k as int));
        assert(entry_pieces(value, k + 1) =~= entry_pieces(value, k) + more);
        filled_is_full(start, entry_pieces(value, k), more, room);
        stopping_early(value, start, k + 1, room);
    } else {
        let all = entry_pieces(value, k);
        let more = seq![seq![closer(value)]];
        assert(all.push(seq![closer(value)]) =~= all + more);
        filled_is_full(start, all, more, room);
    }
}

/// How many entries a container has.
fn count(value: &Value) -> (n: usize)
    ensures
        n == entry_count(*value),
{
    match value {
        Value::Table(fields) => fields.entries.len(),
        Value::Array(items) => items.len(),
        _ => 0,
    }
}

/// The entry at `i` of a container.
fn entry(value: &Value, i: usize) -> (entry: &Value)
    requires
        i < entry_count(*value),
    ensures
        *entry == entry_value(*value, i as int),
{
    match value {
        Value::Table(fields) => &fields.entries[i].1,
        Value::Array(items) => &items[i],
        _ => value,
    }
}

/// What stands before the entry at `i` of a container.
fn label(value: &Value, i: usize) -> (label: Vec<char>)
    requires
        i < entry_count(*value),
    ensures
        label@ == entry_label(*value, i as int),
{
    let mut label: Vec<char> = Vec::new();
    match value {
        Value::Table(fields) => {
            let name = chars_of(fields.entries[i].0.as_str());
            append_quoted(&mut label, &name);
            label.push(':');
            label.push(' ');
            assert(label@ =~= entry_label(*value, i as int));
        },
        _ => {},
    }
    label
}

/// Whether every entry of a container is a leaf.
fn only_leaves(value: &Value) -> (all: bool)
    ensures
        all == all_leaves(*value),
{
    let n: usize = count(value);
    let mut i: usize = 0;
    while i < n
        invariant
            i <= n,
            n == entry_count(*value),
            forall|j: int| 0 <= j < i ==> is_leaf_value(#[trigger] entry_value(*value, j)),
        decreases n - i,
    {
        if !is_leaf(entry(value, i)) {
            assert(!is_leaf_value(entry_value(*value, i as int)));
            return false;
        }
        i += 1;
    }
    true
}

/// Appends so many spaces.
fn append_spaces(out: &mut Vec<char>, n: usize)
    ensures
        final(out)@ == old(out)@ + spaces(n as nat),
{
    let ghost before = out@;
    let mut i: usize = 0;
    while i < n
        invariant
            i <= n,
            out@ == before + spaces(i as nat),
        decreases n - i,
    {
        out.push(' ');
        i += 1;
        assert(out@ =~= before + spaces(i as nat));
    }
}

/// The columns left after what is taken and a label.
fn room_after(indent: usize, label: usize) -> (room: usize)
    ensures
        room == room_from((indent + label) as nat),
{
    if indent >= WIDTH || label >= WIDTH - indent {
        0
    } else {
        WIDTH - indent - label
    }
}

/// The line that counts what was left out.
fn remaining(indent: usize, rest: usize) -> (line: Vec<char>)
    ensures
        line@ == remainder(indent as nat, rest as nat),
{
    let mut line: Vec<char> = Vec::new();
    append_spaces(&mut line, indent);
    line.push('…');
    line.push(' ');
    append_decimal(&mut line, rest as u64);
    append(&mut line, " more");
    assert(line@ =~= remainder(indent as nat, rest as nat));
    line
}

/// Whether a line ends in an ellipsis.
fn ends_elided(line: &Vec<char>) -> (elided: bool)
    ensures
        elided == (line@.len() > 0 && line@.last() == '…'),
{
    line.len() > 0 && line[line.len() - 1] == '…'
}

/// Appends the lines of an entry.
fn place_entry(
    out: &mut Vec<Vec<char>>,
    indent: usize,
    label: &Vec<char>,
    sub: &Vec<Vec<char>>,
    separator: bool,
)
    requires
        sub@.len() >= 1,
    ensures
        lines_view(final(out)@) == lines_view(old(out)@) + entry_lines(
            indent as nat,
            label@,
            lines_view(sub@),
            separator,
        ),
        final(out)@.len() == old(out)@.len() + sub@.len(),
{
    let ghost before = lines_view(out@);
    let ghost all = lines_view(sub@);
    let ghost first = spaces(indent as nat) + label@ + all[0];
    let ghost bare = seq![first] + all.skip(1);
    let mut i: usize = 0;
    while i < sub.len()
        invariant
            i <= sub@.len(),
            sub@.len() >= 1,
            all == lines_view(sub@),
            first == spaces(indent as nat) + label@ + all[0],
            bare == seq![first] + all.skip(1),
            out@.len() == before.len() + i,
            lines_view(out@) =~= before + entry_lines(
                indent as nat,
                label@,
                all,
                separator,
            ).take(i as int),
        decreases sub@.len() - i,
    {
        let ghost want = entry_lines(indent as nat, label@, all, separator);
        let ghost last = out@;
        let mut line: Vec<char> = Vec::new();
        if i == 0 {
            append_spaces(&mut line, indent);
            append_chars(&mut line, label);
        }
        append_chars(&mut line, &sub[i]);
        assert(line@ =~= bare[i as int]);
        if separator && i == sub.len() - 1 && !ends_elided(&line) {
            line.push(',');
        }
        assert(bare.last() == bare[sub@.len() - 1]);
        assert(line@ == want[i as int]);
        out.push(line);
        i += 1;
        assert(lines_view(out@) =~= lines_view(last).push(line@));
        assert(want.take(i as int) =~= want.take(i - 1).push(want[i - 1]));
    }
    assert(entry_lines(indent as nat, label@, all, separator).take(i as int) =~= entry_lines(
        indent as nat,
        label@,
        all,
        separator,
    ));
}

/// Once the budget ran out, nothing is added.
proof fn stopped_stays(value: Value, k: nat, n: nat, indent: nat, budget: nat)
    requires
        0 < k <= n <= entry_count(value),
        within(value, k, indent, budget).1,
    ensures
        within(value, n, indent, budget) == within(value, k, indent, budget),
    decreases n,
{
    if k < n {
        stopped_stays(value, k, (n - 1) as nat, indent, budget);
    }
}

/// The lines `value` renders to: the first with `room` columns to fill, the
/// rest indented to `indent`, `budget` of them at most.
fn lines(value: &Value, room: usize, indent: usize, budget: usize) -> (lines: Vec<Vec<char>>)
    requires
        1 <= budget,
        indent + budget <= usize::MAX,
    ensures
        lines_view(lines@) == laid_out(*value, room as nat, indent as nat, budget as nat),
        1 <= lines@.len() <= budget,
    decreases *value,
{
    let mut out: Vec<Vec<char>> = Vec::new();
    let mut one_line: Vec<char> = Vec::new();
    if write_compact(&mut one_line, value, room) {
        out.push(one_line);
        assert(lines_view(out@) =~= seq![one_line@]);
        return out;
    }
    match value {
        Value::String(text) => {
            let chars = chars_of(text.as_str());
            let inner: usize = if room < 2 {
                0
            } else {
                room - 2
            };
            let cut = shorten(&chars, inner);
            let mut line: Vec<char> = Vec::new();
            append_quoted(&mut line, &cut);
            assert(line@ =~= quote(cut@));
            out.push(line);
            assert(lines_view(out@) =~= seq![quote(cut@)]);
            return out;
        },
        _ => {},
    }
    let n: usize = count(value);
    let is_array: bool = match value {
        Value::Array(_) => true,
        _ => false,
    };
    if is_leaf(value) || (is_array && only_leaves(value)) || !breakable(n, budget) {
        let cut = elide(&one_line, room);
        out.push(cut);
        assert(lines_view(out@) =~= seq![cut@]);
        return out;
    }
    let mut opening: Vec<char> = Vec::new();
    opening.push(
        if is_array {
            '['
        } else {
            '{'
        },
    );
    out.push(opening);
    let inside: usize = budget - 2;
    let deeper: usize = indent + INDENT;
    let ghost lead = seq![seq![opener(*value)]];
    let mut k: usize = 0;
    let mut stopped: bool = false;
    assert(lines_view(out@) =~= lead + within(*value, 0, deeper as nat, inside as nat).0);
    while k < n && !stopped
        invariant
            k <= n,
            n == entry_count(*value),
            inside >= 1,
            deeper + inside == indent + budget,
            indent + budget <= usize::MAX,
            lead == seq![seq![opener(*value)]],
            out@.len() >= 1,
            lines_view(out@) == lead + within(*value, k as nat, deeper as nat, inside as nat).0,
            stopped == within(*value, k as nat, deeper as nat, inside as nat).1,
            stopped ==> k > 0,
            out@.len() <= inside + 1,
            k < n && !stopped ==> out@.len() <= inside,
        decreases n - k,
    {
        // Whatever follows this entry holds a line back, be it written out
        // or elided into a count.
        let left: usize = inside - (out.len() - 1);
        let rest: usize = n - k;
        let held: usize = if rest > 1 {
            1
        } else {
            0
        };
        let ghost had = within(*value, k as nat, deeper as nat, inside as nat).0;
        assert(had.len() == out@.len() - 1) by {
            assert((lead + had).len() == lines_view(out@).len());
        }
        if left <= held {
            let ghost last = out@;
            let line = remaining(deeper, rest);
            out.push(line);
            stopped = true;
            assert(lines_view(out@) =~= lines_view(last).push(line@));
            assert(lines_view(out@) =~= lead + had.push(line@));
        } else {
            proof {
                entries_are_smaller(*value, k as int);
            }
            let name = label(value, k);
            let taken: usize = deeper + held;
            let sub = lines(entry(value, k), room_after(taken, name.len()), deeper, left - held);
            let ghost last = out@;
            place_entry(&mut out, deeper, &name, &sub, rest > 1);
            assert(lines_view(out@) =~= lead + (had + entry_lines(
                deeper as nat,
                name@,
                lines_view(sub@),
                rest > 1,
            )));
        }
        k += 1;
    }
    proof {
        if stopped {
            stopped_stays(*value, k as nat, n as nat, deeper as nat, inside as nat);
        }
    }
    let ghost last = out@;
    let mut closing: Vec<char> = Vec::new();
    append_spaces(&mut closing, indent);
    closing.push(
        if is_array {
            ']'
        } else {
            '}'
        },
    );
    assert(closing@ =~= spaces(indent as nat).push(closer(*value)));
    out.push(closing);
    assert(lines_view(out@) =~= lines_view(last).push(closing@));
    out
}

/// The lines `value` previews as, `prefix` opening the first: one line
/// where the whole of it fits, broken and elided where it does not.
pub fn preview(prefix: &Vec<char>, value: &Value) -> (previewed: Vec<Vec<char>>)
    ensures
        lines_view(previewed@) == preview_of(prefix@, *value),
        1 <= previewed@.len() <= LINES,
{
    let mut previewed = lines(value, room_after(0, prefix.len()), 0, LINES);
    let ghost before = previewed@;
    let mut first: Vec<char> = Vec::new();
    append_chars(&mut first, prefix);
    append_chars(&mut first, &previewed[0]);
    assert(first@ =~= prefix@ + before[0]@);
    previewed.set(0, first);
    assert(lines_view(previewed@) =~= lines_view(before).update(0, first@));
    previewed
}

/// What a labelled list says.
pub open spec fn labelled(list: Seq<(Vec<char>, &Value)>) -> Labelled {
    list.map_values(|entry: (Vec<char>, &Value)| (entry.0@, *entry.1))
}

/// Once the budget ran out, nothing is added.
proof fn listing_stopped_stays(list: Labelled, k: nat, n: nat, budget: nat, share: nat)
    requires
        0 < k <= n <= list.len(),
        listed(list, k, budget, share).1,
    ensures
        listed(list, n, budget, share) == listed(list, k, budget, share),
    decreases n,
{
    if k < n {
        listing_stopped_stays(list, k, (n - 1) as nat, budget, share);
    }
}

/// The lines a labelled list of values previews as, the whole list under
/// one budget and each value under an equal share of it.
///
/// A genesis names every namespace in the ledger, and a stanza has no more
/// room for all of them together than it has for one large value. The share
/// is what keeps the first from spending the lines the rest are shown in.
pub fn previews(list: &Vec<(Vec<char>, &Value)>) -> (previewed: Vec<Vec<char>>)
    ensures
        lines_view(previewed@) == previews_of(labelled(list@)),
        previewed@.len() <= LINES,
        list@.len() > 0 ==> previewed@.len() > 0,
{
    let n: usize = list.len();
    let total: usize = if n < 1 {
        1
    } else {
        n
    };
    let share: usize = LINES / total + if LINES % total > 0 {
        1
    } else {
        0
    };
    let ghost all = labelled(list@);
    proof {
        shares_round_up(n as nat);
    }
    let mut out: Vec<Vec<char>> = Vec::new();
    let mut k: usize = 0;
    let mut stopped: bool = false;
    assert(lines_view(out@) =~= Seq::<Seq<char>>::empty());
    while k < n && !stopped
        invariant
            k <= n,
            n == list@.len(),
            all == labelled(list@),
            lines_view(out@) == listed(all, k as nat, LINES as nat, share as nat).0,
            stopped == listed(all, k as nat, LINES as nat, share as nat).1,
            stopped ==> k > 0,
            out@.len() <= LINES,
            k < n && !stopped ==> out@.len() < LINES,
            k > 0 ==> out@.len() > 0,
            1 <= share <= LINES,
        decreases n - k,
    {
        let left: usize = LINES - out.len();
        let rest: usize = n - k;
        let held: usize = if rest > 1 {
            1
        } else {
            0
        };
        let ghost had = lines_view(out@);
        let ghost last = out@;
        if left <= held {
            let line = remaining(0, rest);
            out.push(line);
            stopped = true;
            assert(lines_view(out@) =~= had.push(line@));
        } else {
            let allowed: usize = if left - held < share {
                left - held
            } else {
                share
            };
            let name = &list[k].0;
            assert(all[k as int] == (list@[k as int].0@, *list@[k as int].1));
            let sub = lines(list[k].1, room_after(0, name.len()), 0, allowed);
            place_entry(&mut out, 0, name, &sub, false);
        }
        k += 1;
    }
    proof {
        if stopped {
            listing_stopped_stays(all, k as nat, n as nat, LINES as nat, share as nat);
        }
    }
    out
}

/// A share rounded up.
proof fn shares_round_up(n: nat)
    ensures
        ({
            let total = if n < 1 {
                1
            } else {
                n
            };
            &&& share_of(n) == LINES as nat / total + if LINES as nat % total > 0 {
                1nat
            } else {
                0
            }
            &&& 1 <= share_of(n) <= LINES
        }),
{
    let total: int = if n < 1 {
        1
    } else {
        n as int
    };
    let l: int = LINES as int;
    let q = l / total;
    let r = l % total;
    vstd::arithmetic::div_mod::lemma_fundamental_div_mod(l, total);
    assert(0 <= r < total);
    if r > 0 {
        assert(l + total - 1 == (q + 1) * total + (r - 1)) by (nonlinear_arith)
            requires
                l == total * q + r,
        ;
        vstd::arithmetic::div_mod::lemma_fundamental_div_mod_converse(
            l + total - 1,
            total,
            q + 1,
            r - 1,
        );
    } else {
        assert(l + total - 1 == q * total + (total - 1)) by (nonlinear_arith)
            requires
                l == total * q + r,
                r == 0,
        ;
        vstd::arithmetic::div_mod::lemma_fundamental_div_mod_converse(
            l + total - 1,
            total,
            q,
            total - 1,
        );
    }
    assert(0 <= q <= l) by (nonlinear_arith)
        requires
            l == total * q + r,
            0 <= r < total,
            total >= 1,
            l == 8,
    ;
    if q == 0 {
        assert(r > 0) by (nonlinear_arith)
            requires
                l == total * q + r,
                q == 0,
                l == 8,
        ;
    }
    if q == l && r > 0 {
        assert(false) by (nonlinear_arith)
            requires
                l == total * q + r,
                q == l,
                r > 0,
                total >= 1,
                l == 8,
        ;
    }
}

} // verus!
