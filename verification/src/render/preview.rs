//! What a preview keeps of a value, and what it owns up to leaving out.

use vstd::prelude::*;

use crate::digest::hex_of;
use crate::render::value::{
    allowance, elided, entry_label, entry_lines, entry_pieces, escaped, escaped_char, filled,
    fitting, hex_digit, is_leaf_value, laid_out, listed, pieces, preview_of, previews_of, quote,
    remainder, room_from, separator_width, share_of, shortened, spaces, within, Labelled, INDENT,
    LINES,
};
use crate::text::signed_decimal;
use crate::value::{entries_are_smaller, entry_count, entry_value, Key, Value};

verus! {

/// Pieces of text as one.
pub open spec fn joined(pieces: Seq<Seq<char>>) -> Seq<char>
    decreases pieces.len(),
{
    if pieces.len() == 0 {
        Seq::empty()
    } else {
        joined(pieces.drop_last()) + pieces.last()
    }
}

proof fn joining_adds(a: Seq<Seq<char>>, b: Seq<Seq<char>>)
    ensures
        joined(a + b) == joined(a) + joined(b),
    decreases b.len(),
{
    if b.len() == 0 {
        assert(a + b =~= a);
        assert(joined(a) + joined(b) =~= joined(a));
    } else {
        assert((a + b).drop_last() =~= a + b.drop_last());
        joining_adds(a, b.drop_last());
        assert(joined(a) + (joined(b.drop_last()) + b.last()) =~= joined(a) + joined(b.drop_last())
            + b.last());
    }
}

proof fn one_piece(piece: Seq<char>)
    ensures
        joined(seq![piece]) == piece,
{
    let one = seq![piece];
    assert(one.drop_last().len() == 0);
    assert(joined(one.drop_last()) =~= Seq::empty());
    assert(joined(one) =~= piece);
}

/// A value written out on one line.
pub open spec fn on_one_line(value: Value) -> Seq<char> {
    joined(pieces(value))
}

/// A line is filled with all its pieces where they fit, and over where they
/// do not.
proof fn filling_is_joining(start: Seq<char>, pieces: Seq<Seq<char>>, room: nat)
    ensures
        (start + joined(pieces)).len() <= room ==> filled(start, pieces, room) == start + joined(
            pieces,
        ),
        (start + joined(pieces)).len() > room ==> filled(start, pieces, room).len() > room,
        filled(start, pieces, room).is_prefix_of(start + joined(pieces)),
    decreases pieces.len(),
{
    if pieces.len() == 0 {
        assert(start + joined(pieces) =~= start);
    } else {
        let rest = pieces.skip(1);
        assert(pieces =~= seq![pieces[0]] + rest);
        joining_adds(seq![pieces[0]], rest);
        one_piece(pieces[0]);
        assert(start + joined(pieces) =~= (start + pieces[0]) + joined(rest));
        if start.len() > room {
            assert(start =~= (start + joined(pieces)).subrange(0, start.len() as int));
        } else {
            filling_is_joining(start + pieces[0], rest, room);
        }
    }
}

/// A value that fits the line is previewed as that line and nothing else.
pub proof fn what_fits_is_shown_whole(value: Value, room: nat, indent: nat, budget: nat)
    requires
        on_one_line(value).len() <= room,
    ensures
        laid_out(value, room, indent, budget) == seq![on_one_line(value)],
{
    filling_is_joining(Seq::empty(), pieces(value), room);
    assert(Seq::<char>::empty() + joined(pieces(value)) =~= joined(pieces(value)));
}

/// The first `k` entries of a container, written out on one line.
pub open spec fn entries_on_one_line(value: Value, k: nat) -> Seq<char> {
    joined(entry_pieces(value, k))
}

/// Written out on one line, a container holds its entries one by one, each
/// behind its label, with a comma between two of them and brackets around
/// all: braces around fields, square ones around items.
pub proof fn a_line_holds_every_entry(value: Value, i: int)
    requires
        !is_leaf_value(value),
        0 <= i < entry_count(value),
    ensures
        on_one_line(value) == entries_on_one_line(value, entry_count(value)).push(
            if value is Table {
                '}'
            } else {
                ']'
            },
        ),
        entries_on_one_line(value, (i + 1) as nat) == entries_on_one_line(value, i as nat) + (if i
            > 0 {
            seq![',', ' ']
        } else if value is Table {
            seq!['{']
        } else {
            seq!['[']
        }) + entry_label(value, i) + on_one_line(entry_value(value, i)),
        entries_on_one_line(value, 0) == Seq::<char>::empty(),
        value matches Value::Table(fields) ==> entry_label(value, i) == quote(
            fields.entries@[i].0@,
        ) + seq![':', ' '],
        value is Array ==> entry_label(value, i) == Seq::<char>::empty(),
{
    let n = entry_count(value);
    let close = seq![
        if value is Table {
            '}'
        } else {
            ']'
        },
    ];
    assert(pieces(value) =~= entry_pieces(value, n) + seq![close]);
    joining_adds(entry_pieces(value, n), seq![close]);
    one_piece(close);
    assert(joined(entry_pieces(value, n)) + close =~= joined(entry_pieces(value, n)).push(close[0]));
    let lead = (if i > 0 {
        seq![',', ' ']
    } else if value is Table {
        seq!['{']
    } else {
        seq!['[']
    }) + entry_label(value, i);
    let before = entry_pieces(value, i as nat);
    let here = pieces(entry_value(value, i));
    assert(entry_pieces(value, (i + 1) as nat) =~= before + seq![lead] + here);
    joining_adds(before + seq![lead], here);
    joining_adds(before, seq![lead]);
    one_piece(lead);
    assert(joined(before) + lead + joined(here) =~= entries_on_one_line(value, i as nat) + (if i > 0 {
        seq![',', ' ']
    } else if value is Table {
        seq!['{']
    } else {
        seq!['[']
    }) + entry_label(value, i) + on_one_line(entry_value(value, i)));
}

/// An entry takes as many lines as its value.
proof fn an_entry_takes_its_lines(
    indent: nat,
    label: Seq<char>,
    sub: Seq<Seq<char>>,
    separator: bool,
)
    requires
        sub.len() > 0,
    ensures
        entry_lines(indent, label, sub, separator).len() == sub.len(),
{
}

/// A value takes no more lines than it is given.
proof fn a_value_keeps_to_its_lines(value: Value, room: nat, indent: nat, budget: nat)
    requires
        budget >= 1,
    ensures
        1 <= laid_out(value, room, indent, budget).len() <= budget,
    decreases value, entry_count(value) + 1,
{
    let lines = laid_out(value, room, indent, budget);
    if lines.len() > 1 && entry_count(value) > 0 {
        let inside = (budget - 2) as nat;
        entries_keep_to_their_lines(value, entry_count(value), indent + INDENT as nat, inside);
    }
}

/// So do the entries of a container.
proof fn entries_keep_to_their_lines(value: Value, k: nat, indent: nat, budget: nat)
    requires
        k <= entry_count(value),
        entry_count(value) > 0,
        budget >= if entry_count(value) > 1 {
            2int
        } else {
            1
        },
    ensures
        within(value, k, indent, budget).0.len() <= budget,
        !within(value, k, indent, budget).1 && k < entry_count(value) ==> within(
            value,
            k,
            indent,
            budget,
        ).0.len() < budget,
    decreases value, k,
{
    if k > 0 {
        entries_keep_to_their_lines(value, (k - 1) as nat, indent, budget);
        let (had, stopped) = within(value, (k - 1) as nat, indent, budget);
        let rest = (entry_count(value) - (k - 1)) as nat;
        let allowed = allowance(had.len(), rest, budget, budget);
        if !stopped && allowed > 0 {
            entries_are_smaller(value, k - 1);
            let label = entry_label(value, k - 1);
            let room = room_from(indent + label.len() + separator_width(rest));
            a_value_keeps_to_its_lines(entry_value(value, k - 1), room, indent, allowed as nat);
            let sub = laid_out(entry_value(value, k - 1), room, indent, allowed as nat);
            an_entry_takes_its_lines(indent, label, sub, rest > 1);
        }
    }
}

proof fn a_list_keeps_to_its_lines(list: Labelled, k: nat, budget: nat, share: nat)
    requires
        k <= list.len(),
        budget >= 2,
    ensures
        listed(list, k, budget, share).0.len() <= budget,
        !listed(list, k, budget, share).1 && k < list.len() ==> listed(list, k, budget, share).0.len()
            < budget,
    decreases k,
{
    if k > 0 {
        a_list_keeps_to_its_lines(list, (k - 1) as nat, budget, share);
        let (had, stopped) = listed(list, (k - 1) as nat, budget, share);
        let rest = (list.len() - (k - 1)) as nat;
        let allowed = allowance(had.len(), rest, budget, share);
        if !stopped && allowed > 0 {
            let (label, value) = list[k - 1];
            a_value_keeps_to_its_lines(value, room_from(label.len()), 0, allowed as nat);
            let sub = laid_out(value, room_from(label.len()), 0, allowed as nat);
            an_entry_takes_its_lines(0, label, sub, false);
        }
    }
}

/// A preview, of one value or of a list of them, runs to eight lines at the
/// most, and one of a value has a first line.
pub proof fn a_preview_keeps_to_its_lines(prefix: Seq<char>, value: Value, list: Labelled)
    ensures
        1 <= preview_of(prefix, value).len() <= 8,
        previews_of(list).len() <= 8,
{
    a_value_keeps_to_its_lines(value, room_from(prefix.len()), 0, LINES as nat);
    a_list_keeps_to_its_lines(
        list,
        list.len(),
        LINES as nat,
        share_of(list.len()),
    );
}

/// Where not every entry of a container is shown, a last line counts those
/// that are not.
pub proof fn what_is_left_out_is_counted(value: Value, k: nat, indent: nat, budget: nat)
    requires
        k <= entry_count(value),
        within(value, k, indent, budget).1,
    ensures
        exists|shown: nat|
            {
                &&& shown < k
                &&& !(#[trigger] within(value, shown, indent, budget)).1
                &&& within(value, k, indent, budget).0 == within(
                    value,
                    shown,
                    indent,
                    budget,
                ).0.push(remainder(indent, (entry_count(value) - shown) as nat))
            },
    decreases k,
{
    let (had, stopped) = within(value, (k - 1) as nat, indent, budget);
    if stopped {
        what_is_left_out_is_counted(value, (k - 1) as nat, indent, budget);
    } else {
        let shown = (k - 1) as nat;
        assert(!within(value, shown, indent, budget).1);
    }
}

/// So it is with a list of values.
pub proof fn what_a_list_leaves_out_is_counted(list: Labelled, k: nat, budget: nat, share: nat)
    requires
        k <= list.len(),
        listed(list, k, budget, share).1,
    ensures
        exists|shown: nat|
            {
                &&& shown < k
                &&& !(#[trigger] listed(list, shown, budget, share)).1
                &&& listed(list, k, budget, share).0 == listed(list, shown, budget, share).0.push(
                    remainder(0, (list.len() - shown) as nat),
                )
            },
    decreases k,
{
    let (had, stopped) = listed(list, (k - 1) as nat, budget, share);
    if stopped {
        what_a_list_leaves_out_is_counted(list, (k - 1) as nat, budget, share);
    } else {
        let shown = (k - 1) as nat;
        assert(!listed(list, shown, budget, share).1);
    }
}

/// A character is escaped exactly where it would end the string, begin an
/// escape or show as nothing; and no two are escaped alike.
pub proof fn escapes_are_told_apart(a: char, b: char)
    ensures
        escaped_char(a) == seq![a] <==> a != '"' && a != '\\' && !((a as u32) < 32 || 127 <= (
        a as u32) < 160),
        escaped_char(a) != seq![a] ==> escaped_char(a).len() >= 2 && escaped_char(a)[0] == '\\',
        escaped_char(a).is_prefix_of(escaped_char(b)) ==> a == b,
{
    assert(escaped_char(a)[0] == seq![a][0] ==> escaped_char(a).len() == 1 || a == '\\');
    if escaped_char(a) == seq![a] {
        assert(escaped_char(a).len() == 1);
    }
    if escaped_char(a).is_prefix_of(escaped_char(b)) {
        let (x, y) = (escaped_char(a), escaped_char(b));
        assert(forall|i: int| 0 <= i < x.len() ==> x[i] == #[trigger] y[i]) by {
            assert forall|i: int| 0 <= i < x.len() implies x[i] == #[trigger] y[i] by {
                assert(y.subrange(0, x.len() as int)[i] == y[i]);
            }
        }
        assert(x[0] == y[0]);
        if x.len() > 1 {
            assert(x[1] == y[1]);
        }
        if x.len() == 6 {
            let (m, n) = (a as u32, b as u32);
            assert(x[4] == hex_digit(m / 16) && y[4] == hex_digit(n / 16));
            assert(x[5] == hex_digit(m % 16) && y[5] == hex_digit(n % 16));
            digits_are_told_apart(m / 16, n / 16);
            digits_are_told_apart(m % 16, n % 16);
            assert(m == n);
        }
    }
}

proof fn digits_are_told_apart(m: u32, n: u32)
    requires
        m < 16,
        n < 16,
        hex_digit(m) == hex_digit(n),
    ensures
        m == n,
{
}

/// Text is escaped character by character.
pub proof fn text_is_escaped_by_the_character(a: Seq<char>, c: char, b: Seq<char>)
    ensures
        escaped(a + b) == escaped(a) + escaped(b),
        escaped(a.push(c)) == escaped(a) + escaped_char(c),
    decreases b.len(),
{
    assert(a.push(c).drop_last() =~= a);
    if b.len() == 0 {
        assert(a + b =~= a);
        assert(escaped(a) + escaped(b) =~= escaped(a));
    } else {
        assert((a + b).drop_last() =~= a + b.drop_last());
        text_is_escaped_by_the_character(a, c, b.drop_last());
        assert(escaped(a) + (escaped(b.drop_last()) + escaped_char(b.last())) =~= escaped(a)
            + escaped(b.drop_last()) + escaped_char(b.last()));
    }
}

/// Two texts are quoted alike only where they are the same.
pub proof fn quotes_are_told_apart(a: Seq<char>, b: Seq<char>)
    ensures
        escaped(a) == escaped(b) <==> a == b,
        quote(a) == quote(b) <==> a == b,
    decreases a.len(),
{
    if quote(a) == quote(b) {
        assert(escaped(a) =~= quote(a).subrange(1, quote(a).len() - 1));
        assert(escaped(b) =~= quote(b).subrange(1, quote(b).len() - 1));
    }
    if escaped(a) == escaped(b) && a != b {
        if a.len() == 0 || b.len() == 0 {
            let other = if a.len() == 0 {
                b
            } else {
                a
            };
            assert(escaped(Seq::<char>::empty()).len() == 0);
            assert(a.len() == 0 ==> a =~= Seq::<char>::empty());
            assert(b.len() == 0 ==> b =~= Seq::<char>::empty());
            if other.len() > 0 {
                assert(escaped(other).len() >= escaped_char(other.last()).len());
            }
        } else {
            let (x, y) = (a[0], b[0]);
            let (r, s) = (a.skip(1), b.skip(1));
            let none = Seq::<char>::empty();
            assert(a =~= none.push(x) + r);
            assert(b =~= none.push(y) + s);
            text_is_escaped_by_the_character(none.push(x), x, r);
            text_is_escaped_by_the_character(none.push(y), y, s);
            text_is_escaped_by_the_character(none, x, none);
            text_is_escaped_by_the_character(none, y, none);
            assert(escaped(none.push(x)) =~= escaped_char(x));
            assert(escaped(none.push(y)) =~= escaped_char(y));
            let whole = escaped(a);
            assert(whole =~= escaped_char(x) + escaped(r));
            assert(whole =~= escaped_char(y) + escaped(s));
            let m = escaped_char(x).len() as int;
            let n = escaped_char(y).len() as int;
            assert(whole.subrange(0, m) =~= escaped_char(x));
            assert(whole.subrange(0, n) =~= escaped_char(y));
            if m <= n {
                assert(escaped_char(y).subrange(0, m) =~= whole.subrange(0, m));
                assert(escaped_char(x).is_prefix_of(escaped_char(y)));
                escapes_are_told_apart(x, y);
            } else {
                assert(escaped_char(x).subrange(0, n) =~= whole.subrange(0, n));
                assert(escaped_char(y).is_prefix_of(escaped_char(x)));
                escapes_are_told_apart(y, x);
            }
            assert(x == y);
            assert(escaped(r) =~= whole.subrange(m, whole.len() as int));
            assert(escaped(s) =~= whole.subrange(m, whole.len() as int));
            quotes_are_told_apart(r, s);
            assert(a =~= b);
        }
    }
}

/// A string that is cut shows as much of its start as the width leaves
/// room for beside the mark, and one that fits is not cut.
pub proof fn a_cut_string_shows_its_start(text: Seq<char>, width: nat)
    ensures
        ({
            let room = if width < 16 {
                16
            } else {
                width
            };
            if escaped(text).len() <= room {
                shortened(text, width) == text
            } else {
                exists|k: int|
                    {
                        &&& 0 <= k < text.len()
                        &&& shortened(text, width) == (#[trigger] text.take(k)).push('…')
                        &&& escaped(text.take(k)).len() < room
                        &&& escaped(text.take(k + 1)).len() >= room
                    }
            }
        }),
        ({
            let room = if width < 16 {
                16
            } else {
                width
            };
            elided(text, width) == if text.len() <= room {
                text
            } else {
                text.take(room - 1).push('…')
            }
        }),
{
    let room = if width < 16 {
        16
    } else {
        width
    };
    if escaped(text).len() > room {
        let k = fitting(text, (room - 1) as nat, 0);
        assert(escaped(text.take(0)).len() == 0) by {
            assert(text.take(0) =~= Seq::<char>::empty());
        }
        fitting_is_most(text, (room - 1) as nat, 0);
        assert(text.take(text.len() as int) =~= text);
        assert(shortened(text, width) == text.take(k as int).push('…'));
    }
}

proof fn fitting_is_most(text: Seq<char>, room: nat, k: nat)
    requires
        k <= text.len(),
        escaped(text.take(k as int)).len() <= room,
    ensures
        fitting(text, room, k) <= text.len(),
        escaped(text.take(fitting(text, room, k) as int)).len() <= room,
        fitting(text, room, k) < text.len() ==> escaped(
            text.take(fitting(text, room, k) as int + 1),
        ).len() > room,
    decreases text.len() - k,
{
    if k < text.len() && escaped(text.take(k as int + 1)).len() <= room {
        fitting_is_most(text, room, k + 1);
    }
}

/// The lines a list has are shared out evenly among its values, rounded up.
pub proof fn lines_are_shared_out(total: nat)
    ensures
        total >= 1 ==> share_of(total) * total >= 8 && (share_of(total) - 1) * total < 8,
        share_of(total) >= 1,
{
    if total >= 1 {
        let share = share_of(total) as int;
        let t = total as int;
        assert(share == (8 + t - 1) / t);
        assert(share * t >= 8 && (share - 1) * t < 8 && share >= 1) by (nonlinear_arith)
            requires
                t >= 1,
                share == (8 + t - 1) / t,
        ;
    }
}

/// Leaves are written out so that they are told apart, each kind by what it
/// begins with: a string by its quote, a trusted key by its bracket.
pub proof fn leaves_are_written_out(text: String, n: i64, flag: bool, key: Key)
    ensures
        on_one_line(Value::String(text)) == quote(text@),
        on_one_line(Value::Int(n)) == signed_decimal(n as int),
        on_one_line(Value::Bool(true)) == "true"@,
        on_one_line(Value::Bool(false)) == "false"@,
        on_one_line(Value::Key(key)) == seq!['<'] + hex_of(key.id.bytes@) + seq!['>'],
{
    one_piece(quote(text@));
    one_piece(signed_decimal(n as int));
    one_piece("true"@);
    one_piece("false"@);
    one_piece(seq!['<'] + hex_of(key.id.bytes@) + seq!['>']);
}

/// A value that is broken over lines opens on the first and closes on the
/// last, and its entries stand between, further in by two; one that is not
/// broken is on one line.
pub proof fn a_broken_value_is_bracketed(value: Value, room: nat, indent: nat, budget: nat)
    ensures
        ({
            let lines = laid_out(value, room, indent, budget);
            lines.len() > 1 ==> {
                &&& value is Table || value is Array
                &&& on_one_line(value).len() > room
                &&& budget >= if entry_count(value) > 1 {
                    4int
                } else {
                    3
                }
                &&& lines[0] == seq![
                    if value is Table {
                        '{'
                    } else {
                        '['
                    },
                ]
                &&& lines.last() == spaces(indent).push(
                    if value is Table {
                        '}'
                    } else {
                        ']'
                    },
                )
                &&& lines.subrange(1, lines.len() - 1) == within(
                    value,
                    entry_count(value),
                    indent + 2,
                    (budget - 2) as nat,
                ).0
            }
        }),
{
    let lines = laid_out(value, room, indent, budget);
    filling_is_joining(Seq::empty(), pieces(value), room);
    assert(Seq::<char>::empty() + joined(pieces(value)) =~= joined(pieces(value)));
    if lines.len() > 1 {
        let inner = within(value, entry_count(value), indent + 2, (budget - 2) as nat).0;
        assert(lines.subrange(1, lines.len() - 1) =~= inner);
    }
}

/// A record that does not fit the line is broken over lines where there are
/// enough of them, and so is a list of records; a list of leaves is cut.
pub proof fn what_does_not_fit_is_broken(value: Value, room: nat, indent: nat, budget: nat)
    requires
        !is_leaf_value(value),
        on_one_line(value).len() > room,
    ensures
        laid_out(value, room, indent, budget).len() > 1 <==> {
            &&& budget >= if entry_count(value) > 1 {
                4int
            } else {
                3
            }
            &&& value is Array ==> exists|i: int|
                0 <= i < entry_count(value) && !is_leaf_value(#[trigger] entry_value(value, i))
        },
{
    filling_is_joining(Seq::empty(), pieces(value), room);
    assert(Seq::<char>::empty() + joined(pieces(value)) =~= joined(pieces(value)));
}

/// An entry stands on its lines behind its label, as far in as it should,
/// and a comma follows it where another entry does, unless it was cut.
pub proof fn an_entry_stands_behind_its_label(
    indent: nat,
    label: Seq<char>,
    sub: Seq<Seq<char>>,
    separator: bool,
)
    requires
        sub.len() > 0,
    ensures
        ({
            let lines = entry_lines(indent, label, sub, separator);
            let plain = sub.update(0, spaces(indent) + label + sub[0]);
            let cut = plain.last().len() > 0 && plain.last().last() == '…';
            lines == if separator && !cut {
                plain.update(sub.len() - 1, plain.last().push(','))
            } else {
                plain
            }
        }),
{
    let lines = entry_lines(indent, label, sub, separator);
    let plain = sub.update(0, spaces(indent) + label + sub[0]);
    let first = spaces(indent) + label + sub[0];
    assert(seq![first] + sub.skip(1) =~= plain);
    assert(plain.drop_last().push(plain.last().push(',')) =~= plain.update(
        sub.len() - 1,
        plain.last().push(','),
    ));
}

} // verus!
