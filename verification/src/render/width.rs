//! How wide a preview runs.
//!
//! A line fills the width it was given unless something cannot be cut to it:
//! a field's name is never cut, and a leaf never below its minimum.

use vstd::arithmetic::power::pow;
use vstd::prelude::*;

use crate::render::value::{
    allowance, entry_label, entry_lines, escaped, filled, fitting, laid_out, listed, pieces,
    preview_of, previews_of, quote, remainder, room_from, separator_width, share_of, shortened,
    spaces, what_fits_fits, within, Labelled, INDENT, LINES, MIN_LEAF, WIDTH,
};
use crate::text::decimal;
use crate::value::{entries_are_smaller, entry_count, entry_value, Value};

verus! {

/// Whether the names in a value have labels that fill at most `cap` columns.
pub open spec fn modest(value: Value, cap: nat) -> bool
    decreases value, entry_count(value) + 1,
{
    modest_entries(value, cap, entry_count(value))
}

/// The same of the first `k` entries of a container.
pub open spec fn modest_entries(value: Value, cap: nat, k: nat) -> bool
    decreases value, k,
{
    if k == 0 || k > entry_count(value) {
        true
    } else {
        proof {
            entries_are_smaller(value, k - 1);
        }
        &&& modest_entries(value, cap, (k - 1) as nat)
        &&& entry_label(value, k - 1).len() <= cap
        &&& modest(entry_value(value, k - 1), cap)
    }
}

/// The columns a line may fill where labels fill `cap`: the width, or past
/// the deepest indent and the label what a leaf is never cut below, with the
/// separator behind it.
pub open spec fn reach(cap: nat) -> nat {
    let least = LINES as nat + cap + MIN_LEAF as nat + 3;
    if least < WIDTH {
        WIDTH as nat
    } else {
        least
    }
}

/// What a string is cut to inside its quotes keeps to the room there is.
proof fn a_cut_string_is_narrow(text: Seq<char>, room: nat)
    ensures
        quote(shortened(text, if room < 2 { 0 } else { (room - 2) as nat })).len() <= if room
            < MIN_LEAF + 2 {
            MIN_LEAF as nat + 2
        } else {
            room
        },
{
    let inner: nat = if room < MIN_LEAF + 2 {
        MIN_LEAF as nat
    } else {
        (room - 2) as nat
    };
    let cut = shortened(text, if room < 2 { 0 } else { (room - 2) as nat });
    if escaped(text).len() > inner {
        assert(text.take(0).len() == 0);
        what_fits_fits(text, (inner - 1) as nat, 0);
        assert(cut.drop_last() =~= text.take(fitting(text, (inner - 1) as nat, 0) as int));
        assert(cut.last() == '…');
    }
}

/// A number below a power of ten has at most as many digits.
proof fn digits_are_few(n: nat, digits: nat)
    requires
        digits >= 1,
        n < pow(10, digits),
    ensures
        decimal(n).len() <= digits,
    decreases digits,
{
    if n >= 10 {
        if digits == 1 {
            reveal_with_fuel(pow, 2);
        } else {
            reveal_with_fuel(pow, 2);
            digits_are_few(n / 10, (digits - 1) as nat);
        }
    }
}

/// A count of what was left out is short.
proof fn a_count_is_narrow(indent: nat, rest: nat)
    requires
        indent <= LINES,
        rest <= u64::MAX,
    ensures
        remainder(indent, rest).len() <= WIDTH,
{
    reveal_with_fuel(pow, 21);
    digits_are_few(rest, 20);
    reveal_strlit(" more");
}

/// The lines of an entry keep to their columns.
proof fn an_entry_fits(
    indent: nat,
    label: Seq<char>,
    sub: Seq<Seq<char>>,
    separator: bool,
    cap: nat,
)
    requires
        indent <= LINES,
        label.len() <= cap,
        sub.len() >= 1,
        first_fits(
            sub[0],
            room_from(
                indent + label.len() + if separator {
                    1nat
                } else {
                    0
                },
            ),
        ),
        forall|i: int| 1 <= i < sub.len() ==> (#[trigger] sub[i]).len() <= reach(cap),
        sub.len() > 1 ==> sub.last().len() < reach(cap),
    ensures
        ({
            let lines = entry_lines(indent, label, sub, separator);
            &&& lines.len() == sub.len()
            &&& forall|i: int| 0 <= i < lines.len() ==> (#[trigger] lines[i]).len() <= reach(cap)
        }),
{
    let first = spaces(indent) + label + sub[0];
    assert(first.len() + if separator {
        1nat
    } else {
        0
    } <= reach(cap));
    let bare = seq![first] + sub.skip(1);
    let lines = entry_lines(indent, label, sub, separator);
    assert(sub.len() > 1 ==> bare.last() == sub.last());
    assert forall|i: int| 0 <= i < lines.len() implies (#[trigger] lines[i]).len() <= reach(cap) by {
        if i == lines.len() - 1 {
        } else if i > 0 {
            assert(lines[i] == sub[i]);
        }
    }
}

/// Whether the first line of a value keeps to the room it has, or to what a
/// leaf is never cut below.
pub open spec fn first_fits(line: Seq<char>, room: nat) -> bool {
    line.len() <= room || line.len() <= MIN_LEAF + 2
}

/// The lines of a value keep to their columns, past the first to those of the
/// whole preview.
proof fn a_value_fits(value: Value, room: nat, indent: nat, budget: nat, cap: nat)
    requires
        modest(value, cap),
        budget >= 1,
        indent + budget <= LINES,
    ensures
        ({
            let lines = laid_out(value, room, indent, budget);
            &&& lines.len() >= 1
            &&& first_fits(lines[0], room)
            &&& forall|i: int| 1 <= i < lines.len() ==> (#[trigger] lines[i]).len() <= reach(cap)
            &&& lines.len() > 1 ==> lines.last().len() < reach(cap)
        }),
    decreases value, entry_count(value) + 1,
{
    let lines = laid_out(value, room, indent, budget);
    let line = filled(Seq::empty(), pieces(value), room);
    if line.len() <= room {
    } else if value is String {
        a_cut_string_is_narrow(value->String_0@, room);
    } else if lines.len() > 1 {
        let inside = (budget - 2) as nat;
        entries_fit(value, entry_count(value), indent + INDENT as nat, inside, cap);
        let inner = within(value, entry_count(value), indent + INDENT as nat, inside).0;
        assert forall|i: int| 1 <= i < lines.len() implies (#[trigger] lines[i]).len() <= reach(cap) by {
            if i < lines.len() - 1 {
                assert(lines[i] == inner[i - 1]);
            }
        }
    }
}

/// So do the lines of its entries.
proof fn entries_fit(value: Value, k: nat, indent: nat, budget: nat, cap: nat)
    requires
        k <= entry_count(value),
        modest_entries(value, cap, k),
        indent + budget <= LINES,
    ensures
        ({
            let lines = within(value, k, indent, budget).0;
            forall|i: int| 0 <= i < lines.len() ==> (#[trigger] lines[i]).len() <= reach(cap)
        }),
    decreases value, k,
{
    if k > 0 {
        entries_fit(value, (k - 1) as nat, indent, budget, cap);
        let (had, stopped) = within(value, (k - 1) as nat, indent, budget);
        let rest = (entry_count(value) - (k - 1)) as nat;
        let allowed = allowance(had.len(), rest, budget, budget);
        if stopped {
        } else if allowed <= 0 {
            assert(entry_count(value) <= u64::MAX) by {
                match value {
                    Value::Table(fields) => {
                        assert(fields.entries.len() <= usize::MAX);
                    },
                    Value::Array(items) => {
                        assert(items.len() <= usize::MAX);
                    },
                    _ => {},
                }
            }
            a_count_is_narrow(indent, rest);
        } else {
            entries_are_smaller(value, k - 1);
            let label = entry_label(value, k - 1);
            let room = room_from(indent + label.len() + separator_width(rest));
            a_value_fits(entry_value(value, k - 1), room, indent, allowed as nat, cap);
            let sub = laid_out(entry_value(value, k - 1), room, indent, allowed as nat);
            an_entry_fits(indent, label, sub, rest > 1, cap);
        }
    }
}

/// No line of a preview runs past the width it is written to, however deep
/// the value nests and however long a string in it runs, as long as no label
/// leaves a leaf less than its minimum: labels are not cut.
pub proof fn a_preview_keeps_to_its_width(prefix: Seq<char>, value: Value, cap: nat)
    requires
        modest(value, cap),
    ensures
        forall|i: int|
            0 <= i < preview_of(prefix, value).len() ==> (#[trigger] preview_of(
                prefix,
                value,
            )[i]).len() <= reach(if prefix.len() < cap { cap } else { prefix.len() }),
        prefix.len() + LINES + MIN_LEAF + 3 <= WIDTH && cap + LINES + MIN_LEAF + 3 <= WIDTH
            ==> reach(if prefix.len() < cap { cap } else { prefix.len() }) == WIDTH,
{
    a_value_fits(value, room_from(prefix.len()), 0, LINES as nat, cap);
    let lines = laid_out(value, room_from(prefix.len()), 0, LINES as nat);
    let shown = preview_of(prefix, value);
    assert forall|i: int| 0 <= i < shown.len() implies (#[trigger] shown[i]).len() <= reach(
        if prefix.len() < cap { cap } else { prefix.len() },
    ) by {
        if i > 0 {
            assert(shown[i] == lines[i]);
        }
    }
}

/// So do the lines of a labelled list.
proof fn listings_fit(list: Labelled, k: nat, budget: nat, share: nat, cap: nat)
    requires
        k <= list.len() <= u64::MAX,
        budget <= LINES,
        forall|i: int|
            0 <= i < list.len() ==> (#[trigger] list[i]).0.len() <= cap && modest(list[i].1, cap),
    ensures
        ({
            let lines = listed(list, k, budget, share).0;
            forall|i: int| 0 <= i < lines.len() ==> (#[trigger] lines[i]).len() <= reach(cap)
        }),
    decreases k,
{
    if k > 0 {
        listings_fit(list, (k - 1) as nat, budget, share, cap);
        let (had, stopped) = listed(list, (k - 1) as nat, budget, share);
        let rest = (list.len() - (k - 1)) as nat;
        let allowed = allowance(had.len(), rest, budget, share);
        if stopped {
        } else if allowed <= 0 {
            a_count_is_narrow(0, rest);
        } else {
            let (label, value) = list[k - 1];
            a_value_fits(value, room_from(label.len()), 0, allowed as nat, cap);
            let sub = laid_out(value, room_from(label.len()), 0, allowed as nat);
            an_entry_fits(0, label, sub, false, cap);
        }
    }
}

/// The same of a labelled list of values.
pub proof fn previews_keep_to_their_width(list: Labelled, cap: nat)
    requires
        list.len() <= u64::MAX,
        forall|i: int|
            0 <= i < list.len() ==> (#[trigger] list[i]).0.len() <= cap && modest(list[i].1, cap),
    ensures
        forall|i: int|
            0 <= i < previews_of(list).len() ==> (#[trigger] previews_of(list)[i]).len() <= reach(
            cap,
        ),
{
    listings_fit(list, list.len(), LINES as nat, share_of(list.len()), cap);
}

} // verus!
