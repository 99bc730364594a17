//! What holds of texts that are compared, trimmed and read as numbers.

use vstd::prelude::*;

use crate::digest::{bytes_lt, hex_char, hex_of, hex_reads_back, hex_value};
use crate::subkey::{path_lt, Step};
use crate::text::{
    decimal, decimal_reads_back, digits_value, is_digit, is_white, signed_decimal,
    signed_value,
    text_lt, trim_end, trim_start, trimmed, unsigned_value,
};

verus! {

/// Where two texts first differ: they agree up to there, and one of them
/// ends there or both go on differently.
pub open spec fn parts_at<A>(a: Seq<A>, b: Seq<A>, i: int) -> bool {
    &&& 0 <= i <= a.len()
    &&& i <= b.len()
    &&& a.take(i) == b.take(i)
    &&& i < a.len() && i < b.len() ==> a[i] != b[i]
    &&& a.len() != b.len() || i < a.len()
}

/// Of two texts that differ, the one comes first that ends where they
/// first differ, or goes on there with the lower code point.
pub proof fn the_first_difference_decides(a: Seq<char>, b: Seq<char>, i: int)
    requires
        parts_at(a, b, i),
    ensures
        text_lt(a, b) <==> i < b.len() && (i == a.len() || a[i] < b[i]),
        text_lt(b, a) <==> i < a.len() && (i == b.len() || b[i] < a[i]),
    decreases i,
{
    if i > 0 {
        assert(a[0] == a.take(i)[0] && b[0] == b.take(i)[0]);
        assert(a.skip(1).take(i - 1) =~= a.take(i).skip(1));
        assert(b.skip(1).take(i - 1) =~= b.take(i).skip(1));
        the_first_difference_decides(a.skip(1), b.skip(1), i - 1);
    }
}

/// Of two names, the one is lower that has the lower byte where they first
/// differ.
pub proof fn the_first_byte_decides(a: Seq<u8>, b: Seq<u8>, i: int)
    requires
        parts_at(a, b, i),
        a.len() == b.len(),
    ensures
        bytes_lt(a, b) <==> a[i] < b[i],
    decreases i,
{
    if i > 0 {
        assert(a[0] == a.take(i)[0] && b[0] == b.take(i)[0]);
        assert(a.skip(1).take(i - 1) =~= a.take(i).skip(1));
        assert(b.skip(1).take(i - 1) =~= b.take(i).skip(1));
        the_first_byte_decides(a.skip(1), b.skip(1), i - 1);
    }
}

/// Whether there is nothing but white space in `s`.
pub open spec fn is_blank(s: Seq<char>) -> bool {
    forall|i: int| 0 <= i < s.len() ==> is_white(#[trigger] s[i])
}

proof fn a_blank_start_goes(before: Seq<char>, rest: Seq<char>)
    requires
        is_blank(before),
    ensures
        trim_start(before + rest) == trim_start(rest),
    decreases before.len(),
{
    if before.len() > 0 {
        assert(is_white(before[0]));
        assert((before + rest).skip(1) =~= before.skip(1) + rest);
        assert forall|i: int| 0 <= i < before.skip(1).len() implies is_white(
            #[trigger] before.skip(1)[i],
        ) by {
            assert(is_white(before[i + 1]));
        }
        a_blank_start_goes(before.skip(1), rest);
    } else {
        assert(before + rest =~= rest);
    }
}

proof fn a_blank_end_goes(rest: Seq<char>, after: Seq<char>)
    requires
        is_blank(after),
    ensures
        trim_end(rest + after) == trim_end(rest),
    decreases after.len(),
{
    if after.len() > 0 {
        assert(is_white(after.last()));
        assert((rest + after).drop_last() =~= rest + after.drop_last());
        assert forall|i: int| 0 <= i < after.drop_last().len() implies is_white(
            #[trigger] after.drop_last()[i],
        ) by {
            assert(is_white(after[i]));
        }
        a_blank_end_goes(rest, after.drop_last());
    } else {
        assert(rest + after =~= rest);
    }
}

/// Trimming takes the white space from around a text, and nothing from
/// within; where there is nothing else, nothing is left.
pub proof fn trimming_takes_what_is_around(before: Seq<char>, inner: Seq<char>, after: Seq<char>)
    requires
        is_blank(before),
        is_blank(after),
        inner.len() > 0 ==> !is_white(inner[0]) && !is_white(inner.last()),
    ensures
        trimmed(before + inner + after) == inner,
{
    assert(before + inner + after =~= before + (inner + after));
    a_blank_start_goes(before, inner + after);
    if inner.len() > 0 {
        assert((inner + after)[0] == inner[0]);
        assert(trim_start(inner + after) == inner + after);
        a_blank_end_goes(inner, after);
    } else {
        assert(inner + after =~= after + inner);
        a_blank_start_goes(after, inner);
        assert(trim_start(inner) == inner);
        assert(trim_end(inner) == inner);
    }
}

/// A number is read as it is written, with a sign before it or without, up
/// to the largest that is asked for and no further.
pub proof fn numbers_are_read(n: nat, max: nat)
    ensures
        unsigned_value(decimal(n), max) == if n <= max {
            Some(n)
        } else {
            None
        },
        unsigned_value(seq!['+'] + decimal(n), max) == unsigned_value(decimal(n), max),
        signed_value(decimal(n)) == if n <= i64::MAX {
            Some(n as int)
        } else {
            None
        },
        signed_value(seq!['-'] + decimal(n)) == if -n >= i64::MIN {
            Some(-(n as int))
        } else {
            None
        },
{
    decimal_reads_back(n);
    assert(is_digit(decimal(n)[0]));
    assert((seq!['+'] + decimal(n)).skip(1) =~= decimal(n));
    assert((seq!['-'] + decimal(n)).skip(1) =~= decimal(n));
}

/// What holds a character that is neither a digit nor a sign before the
/// digits, or holds no digit, is no number.
pub proof fn nothing_else_is_a_number(s: Seq<char>, max: nat, i: int)
    requires
        s.len() == 0 || (0 <= i < s.len() && !is_digit(s[i]) && (i > 0 || (s[0] != '+' && s[0]
            != '-') || s.len() == 1)),
    ensures
        unsigned_value(s, max) is None,
        signed_value(s) is None,
{
    if s.len() > 0 && i > 0 {
        assert(s.skip(1)[i - 1] == s[i]);
    }
}

/// Zeros before a number change nothing of it.
pub proof fn zeros_count_for_nothing(s: Seq<char>)
    ensures
        digits_value(seq!['0'] + s) == digits_value(s),
    decreases s.len(),
{
    if s.len() > 0 {
        assert((seq!['0'] + s).drop_last() =~= seq!['0'] + s.drop_last());
        zeros_count_for_nothing(s.drop_last());
    } else {
        let zero = seq!['0'] + s;
        assert(zero.drop_last().len() == 0);
        assert(digits_value(zero.drop_last()) == 0);
    }
}

/// Two names are written alike only where they are the same.
pub proof fn hex_tells(a: Seq<u8>, b: Seq<u8>)
    ensures
        hex_of(a) == hex_of(b) <==> a == b,
{
    hex_reads_back(a);
    hex_reads_back(b);
}

/// Whether `part` stands somewhere in `text`.
pub open spec fn mentions(text: Seq<char>, part: Seq<char>) -> bool {
    exists|at: int|
        0 <= at <= text.len() - part.len() && #[trigger] text.subrange(at, at + part.len()) == part
}

/// Whether `text` ends on `part`.
pub open spec fn ends_on(text: Seq<char>, part: Seq<char>) -> bool {
    part.len() <= text.len() && text.skip(text.len() - part.len()) == part
}

/// What stands between two texts is mentioned.
pub proof fn what_stands_between(before: Seq<char>, part: Seq<char>, after: Seq<char>)
    ensures
        mentions(before + part + after, part),
{
    let text = before + part + after;
    let at = before.len() as int;
    assert(text.subrange(at, at + part.len()) =~= part);
}

/// What stands at the end is mentioned.
pub proof fn what_stands_last(before: Seq<char>, part: Seq<char>)
    ensures
        mentions(before + part, part),
        ends_on(before + part, part),
{
    let text = before + part;
    let at = before.len() as int;
    assert(text.subrange(at, at + part.len()) =~= part);
    assert(text.skip(text.len() - part.len()) =~= part);
}

/// What stands first is at the start.
pub proof fn what_stands_first(part: Seq<char>, after: Seq<char>)
    ensures
        part.is_prefix_of(part + after),
{
    assert((part + after).subrange(0, part.len() as int) =~= part);
}

/// Names are read in either case alike: each digit stands for its value,
/// ten to fifteen being the letters `a` to `f`, small or capital, and
/// nothing else is a digit.
pub proof fn hex_is_read_in_either_case(c: char)
    ensures
        hex_value(c) matches Some(n) ==> 0 <= n < 16 && (c == hex_char(n) || (n >= 10 && c as int
            == hex_char(n) as int - 32)),
        hex_value(c) is None ==> forall|n: int| 0 <= n < 16 ==> c != #[trigger] hex_char(n) && (n
            >= 10 ==> c as int != hex_char(n) as int - 32),
{
}

/// Of the characters of ASCII, the space is white, and the five that move
/// on to a further column, line or page; nothing that is seen is.
pub proof fn blanks_are_white(c: char)
    requires
        (c as u32) < 128,
    ensures
        is_white(c) <==> c == ' ' || c == '\t' || c == '\n' || c == '\r' || c == '\u{b}' || c
            == '\u{c}',
        is_digit(c) ==> !is_white(c),
{
}

/// Of two paths that differ, the one comes first that ends where they first
/// differ, or takes the lower step there: a name before a place, names by
/// their characters and places by their number.
pub proof fn the_first_step_decides(a: Seq<Step>, b: Seq<Step>, i: int)
    requires
        parts_at(a, b, i),
    ensures
        path_lt(a, b) <==> i < b.len() && (i == a.len() || match (a[i], b[i]) {
            (Step::Key(x), Step::Key(y)) => text_lt(x, y),
            (Step::Index(x), Step::Index(y)) => x < y,
            (Step::Key(_), Step::Index(_)) => true,
            (Step::Index(_), Step::Key(_)) => false,
        }),
    decreases i,
{
    if i > 0 {
        assert(a[0] == a.take(i)[0] && b[0] == b.take(i)[0]);
        assert(a.skip(1).take(i - 1) =~= a.take(i).skip(1));
        assert(b.skip(1).take(i - 1) =~= b.take(i).skip(1));
        the_first_step_decides(a.skip(1), b.skip(1), i - 1);
    }
}

/// A number is written with no zero before it, and one of a single digit
/// with that digit; what is below zero is written with a sign before it, and
/// nothing else is.
pub proof fn numbers_are_written_short(n: nat, m: int)
    ensures
        n > 0 ==> decimal(n)[0] != '0',
        n < 10 ==> decimal(n).len() == 1,
        n >= 10 ==> decimal(n).len() == decimal(n / 10).len() + 1,
        m < 0 ==> signed_decimal(m) == seq!['-'] + decimal((-m) as nat),
        m >= 0 ==> signed_decimal(m) == decimal(m as nat),
    decreases n,
{
    if n >= 10 {
        numbers_are_written_short(n / 10, m);
        decimal_reads_back(n / 10);
        assert(decimal(n)[0] == decimal(n / 10)[0]);
    }
}

} // verus!
