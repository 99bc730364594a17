//! What a quoted text is.
//!
//! A JSON string literal: it reads back as the text it was made of, so no
//! two texts share one, and it has nothing in it that would disturb a line.

use vstd::prelude::*;

use crate::render::value::{escaped, escaped_char, hex_digit, is_control, quote};

verus! {

/// What a hex digit stands for.
pub open spec fn hex_worth(c: char) -> Option<nat> {
    if '0' <= c <= '9' {
        Some((c as u32 - '0' as u32) as nat)
    } else if 'a' <= c <= 'f' {
        Some((c as u32 - 'a' as u32 + 10) as nat)
    } else if 'A' <= c <= 'F' {
        Some((c as u32 - 'A' as u32 + 10) as nat)
    } else {
        None
    }
}

/// The number that four hex digits spell.
pub open spec fn four_worth(digits: Seq<char>) -> Option<nat> {
    match (
        hex_worth(digits[0]),
        hex_worth(digits[1]),
        hex_worth(digits[2]),
        hex_worth(digits[3]),
    ) {
        (Some(a), Some(b), Some(c), Some(d)) => Some(a * 4096 + b * 256 + c * 16 + d),
        _ => None,
    }
}

/// What the letter behind a backslash stands for, `u` aside.
pub open spec fn short_escape(c: char) -> Option<char> {
    if c == '"' || c == '\\' || c == '/' {
        Some(c)
    } else if c == 'b' {
        Some('\u{8}')
    } else if c == 'f' {
        Some('\u{c}')
    } else if c == 'n' {
        Some('\n')
    } else if c == 'r' {
        Some('\r')
    } else if c == 't' {
        Some('\t')
    } else {
        None
    }
}

/// The text that stands between the quotes of a JSON string, where it is one
/// whose escapes are all of single characters.
pub open spec fn unescaped(inside: Seq<char>) -> Option<Seq<char>>
    decreases inside.len(),
{
    if inside.len() == 0 {
        Some(Seq::empty())
    } else {
        let first = if inside[0] == '\\' {
            if inside.len() > 1 && short_escape(inside[1]) is Some {
                Some((short_escape(inside[1])->0, 2int))
            } else if inside.len() > 5 && inside[1] == 'u' && four_worth(
                inside.subrange(2, 6),
            ) is Some && four_worth(inside.subrange(2, 6))->0 < 0xd800 {
                Some((four_worth(inside.subrange(2, 6))->0 as char, 6int))
            } else {
                None
            }
        } else if inside[0] == '"' || (inside[0] as u32) < 32 {
            None
        } else {
            Some((inside[0], 1int))
        };
        match first {
            None => None,
            Some((c, taken)) => match unescaped(inside.skip(taken)) {
                None => None,
                Some(rest) => Some(seq![c] + rest),
            },
        }
    }
}

/// The text a JSON string literal stands for.
pub open spec fn literal_text(literal: Seq<char>) -> Option<Seq<char>> {
    if literal.len() >= 2 && literal[0] == '"' && literal.last() == '"' {
        unescaped(literal.subrange(1, literal.len() - 1))
    } else {
        None
    }
}

/// A hex digit stands for what it is of.
proof fn digits_are_worth(d: u32)
    requires
        d < 16,
    ensures
        hex_worth(hex_digit(d)) == Some(d as nat),
        !is_control(hex_digit(d)),
{
    let digits = seq![
        '0',
        '1',
        '2',
        '3',
        '4',
        '5',
        '6',
        '7',
        '8',
        '9',
        'a',
        'b',
        'c',
        'd',
        'e',
        'f',
    ];
    assert(hex_digit(d) == digits[d as int]);
}

/// Text is escaped from the front as it is from the back.
proof fn escaped_from_the_front(text: Seq<char>)
    requires
        text.len() > 0,
    ensures
        escaped(text) == escaped_char(text[0]) + escaped(text.skip(1)),
    decreases text.len(),
{
    let front = text.drop_last();
    let rest = text.skip(1);
    if front.len() == 0 {
        assert(rest.len() == 0);
        assert(escaped(front) =~= Seq::<char>::empty());
        assert(escaped(text) =~= escaped_char(text[0]) + escaped(rest));
    } else {
        escaped_from_the_front(front);
        assert(front.skip(1) =~= rest.drop_last());
        assert(escaped(text) =~= escaped_char(text[0]) + escaped(rest));
    }
}

/// An escaped character reads back as itself, whatever follows it.
proof fn a_character_reads_back(c: char, rest: Seq<char>)
    requires
        unescaped(rest) is Some,
    ensures
        unescaped(escaped_char(c) + rest) == Some(seq![c] + unescaped(rest)->0),
{
    let spelled = escaped_char(c);
    let inside = spelled + rest;
    assert(inside.skip(spelled.len() as int) =~= rest);
    if c != '"' && c != '\\' && c != '\u{8}' && c != '\u{c}' && c != '\n' && c != '\r' && c != '\t'
        && is_control(c) {
        let code = c as u32;
        digits_are_worth(code / 16);
        digits_are_worth(code % 16);
        let four = inside.subrange(2, 6);
        assert(four[0] == '0' && four[1] == '0');
        assert(four[2] == hex_digit(code / 16) && four[3] == hex_digit(code % 16));
        assert(four_worth(four) == Some(code as nat));
        assert((code as nat) as char == c);
    }
}

/// Escaped text reads back.
proof fn escaping_reads_back(text: Seq<char>)
    ensures
        unescaped(escaped(text)) == Some(text),
    decreases text.len(),
{
    if text.len() == 0 {
        assert(text =~= Seq::<char>::empty());
    } else {
        escaping_reads_back(text.skip(1));
        escaped_from_the_front(text);
        a_character_reads_back(text[0], escaped(text.skip(1)));
        assert(seq![text[0]] + text.skip(1) =~= text);
    }
}

/// Escaped text holds no control character.
proof fn escaping_is_plain(text: Seq<char>)
    ensures
        forall|i: int| 0 <= i < escaped(text).len() ==> !is_control(#[trigger] escaped(text)[i]),
    decreases text.len(),
{
    if text.len() > 0 {
        escaping_is_plain(text.drop_last());
        let c = text.last();
        let code = c as u32;
        if is_control(c) {
            digits_are_worth(code / 16);
            digits_are_worth(code % 16);
        }
        let spelled = escaped_char(c);
        assert forall|i: int| 0 <= i < spelled.len() implies !is_control(#[trigger] spelled[i]) by {}
        let front = escaped(text.drop_last());
        assert forall|i: int| 0 <= i < escaped(text).len() implies !is_control(
            #[trigger] escaped(text)[i],
        ) by {
            if i < front.len() {
                assert(escaped(text)[i] == front[i]);
            } else {
                assert(escaped(text)[i] == spelled[i - front.len()]);
            }
        }
    }
}

/// A quoted text is a JSON string literal of that text: it reads back as it,
/// stands between quotes, and holds no control character.
pub proof fn a_literal_reads_back(text: Seq<char>)
    ensures
        literal_text(quote(text)) == Some(text),
        quote(text)[0] == '"',
        quote(text).last() == '"',
        forall|i: int| 0 <= i < quote(text).len() ==> !is_control(#[trigger] quote(text)[i]),
{
    let literal = quote(text);
    escaping_reads_back(text);
    escaping_is_plain(text);
    assert(literal.subrange(1, literal.len() - 1) =~= escaped(text));
    assert forall|i: int| 0 <= i < literal.len() implies !is_control(#[trigger] literal[i]) by {
        if 0 < i < literal.len() - 1 {
            assert(literal[i] == escaped(text)[i - 1]);
        }
    }
}

/// Different texts have different literals.
pub proof fn a_literal_is_of_one_text(a: Seq<char>, b: Seq<char>)
    requires
        quote(a) == quote(b),
    ensures
        a == b,
{
    a_literal_reads_back(a);
    a_literal_reads_back(b);
}

} // verus!
