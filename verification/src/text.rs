//! Text as a sequence of characters.
//!
//! Everything that reads or builds text works on a vector of characters and
//! turns it into a `String` at the end, so contracts speak of `Seq<char>`.

use vstd::prelude::*;

verus! {

/// Calls `String::push`: one character is added at the end, and nothing
/// before it changes.
#[verifier::external_body]
pub(crate) fn push_char(text: &mut String, c: char)
    ensures
        final(text)@ == old(text)@.push(c),
{
    text.push(c)
}

/// The characters of `text`, in order.
pub fn chars_of(text: &str) -> (chars: Vec<char>)
    ensures
        chars@ == text@,
{
    let mut chars: Vec<char> = Vec::new();
    for c in it: text.chars()
        invariant
            it.seq() == text@,
            chars@ == text@.take(it.index() as int),
    {
        chars.push(c);
    }
    assert(text@.take(text@.len() as int) == text@);
    chars
}

/// The text `chars` spell.
pub fn text_of(chars: &Vec<char>) -> (text: String)
    ensures
        text@ == chars@,
{
    let mut text = String::new();
    let mut i: usize = 0;
    while i < chars.len()
        invariant
            i <= chars.len(),
            text@ == chars@.take(i as int),
        decreases chars.len() - i,
    {
        push_char(&mut text, chars[i]);
        i += 1;
    }
    assert(chars@.take(chars@.len() as int) == chars@);
    text
}

/// Appends every character of `more`.
pub fn append(chars: &mut Vec<char>, more: &str)
    ensures
        final(chars)@ == old(chars)@ + more@,
{
    let tail = chars_of(more);
    append_chars(chars, &tail);
}

/// Appends every character of `more`.
pub fn append_chars(chars: &mut Vec<char>, more: &Vec<char>)
    ensures
        final(chars)@ == old(chars)@ + more@,
{
    let mut i: usize = 0;
    while i < more.len()
        invariant
            i <= more.len(),
            chars@ == old(chars)@ + more@.take(i as int),
        decreases more.len() - i,
    {
        chars.push(more[i]);
        i += 1;
    }
    assert(more@.take(more@.len() as int) == more@);
}

/// Whether the characters of `a` come before those of `b`, compared one by
/// one by code point, a text before every longer one it begins.
pub open spec fn text_lt(a: Seq<char>, b: Seq<char>) -> bool
    decreases a.len(),
{
    if b.len() == 0 {
        false
    } else if a.len() == 0 {
        true
    } else if a[0] != b[0] {
        a[0] < b[0]
    } else {
        text_lt(a.skip(1), b.skip(1))
    }
}

pub proof fn text_lt_irreflexive(a: Seq<char>)
    ensures
        !text_lt(a, a),
    decreases a.len(),
{
    if a.len() > 0 {
        text_lt_irreflexive(a.skip(1));
    }
}

pub proof fn text_lt_transitive(a: Seq<char>, b: Seq<char>, c: Seq<char>)
    requires
        text_lt(a, b),
        text_lt(b, c),
    ensures
        text_lt(a, c),
    decreases a.len(),
{
    if a.len() > 0 && a[0] == b[0] && b[0] == c[0] {
        text_lt_transitive(a.skip(1), b.skip(1), c.skip(1));
    }
}

pub proof fn text_lt_total(a: Seq<char>, b: Seq<char>)
    ensures
        text_lt(a, b) || a == b || text_lt(b, a),
    decreases a.len(),
{
    if a.len() == 0 {
        if b.len() == 0 {
            assert(a =~= b);
        }
    } else if b.len() > 0 && a[0] == b[0] {
        text_lt_total(a.skip(1), b.skip(1));
        if a.skip(1) == b.skip(1) {
            assert(a =~= b) by {
                assert forall|i: int| 0 <= i < a.len() implies a[i] == b[i] by {
                    if i > 0 {
                        assert(a.skip(1)[i - 1] == b.skip(1)[i - 1]);
                    }
                }
                assert(a.len() - 1 == a.skip(1).len());
                assert(b.len() - 1 == b.skip(1).len());
            }
        }
    }
}

/// Whether `a` comes before `b`.
pub fn text_less(a: &str, b: &str) -> (less: bool)
    ensures
        less == text_lt(a@, b@),
{
    let a = chars_of(a);
    let b = chars_of(b);
    let mut i: usize = 0;
    proof {
        assert(a@.skip(0) =~= a@);
        assert(b@.skip(0) =~= b@);
    }
    while i < a.len() && i < b.len() && a[i] == b[i]
        invariant
            i <= a.len(),
            i <= b.len(),
            text_lt(a@, b@) == text_lt(a@.skip(i as int), b@.skip(i as int)),
        decreases a.len() - i,
    {
        proof {
            assert(a@.skip(i as int).skip(1) =~= a@.skip(i + 1));
            assert(b@.skip(i as int).skip(1) =~= b@.skip(i + 1));
        }
        i += 1;
    }
    if i >= b.len() {
        false
    } else if i >= a.len() {
        true
    } else {
        a[i] < b[i]
    }
}

/// The decimal digit `d` is written as.
pub open spec fn digit_char(d: int) -> char {
    (('0' as int) + d) as char
}

/// `n` in decimal, without leading zeros.
pub open spec fn decimal(n: nat) -> Seq<char>
    decreases n,
{
    if n < 10 {
        seq![digit_char(n as int)]
    } else {
        decimal(n / 10).push(digit_char((n % 10) as int))
    }
}

/// `n` in decimal, a minus sign before what is below zero.
pub open spec fn signed_decimal(n: int) -> Seq<char> {
    if n < 0 {
        seq!['-'] + decimal((-n) as nat)
    } else {
        decimal(n as nat)
    }
}

/// The digit character for `d`.
fn digit(d: u64) -> (c: char)
    requires
        d < 10,
    ensures
        c == digit_char(d as int),
{
    (48u8 + d as u8) as char
}

/// Appends `n` in decimal.
pub fn append_decimal(chars: &mut Vec<char>, n: u64)
    ensures
        final(chars)@ == old(chars)@ + decimal(n as nat),
    decreases n,
{
    if n >= 10 {
        append_decimal(chars, n / 10);
    }
    chars.push(digit(n % 10));
    assert(chars@ =~= old(chars)@ + decimal(n as nat));
}

/// Appends `n` in decimal, with its sign when it is negative.
pub fn append_signed(chars: &mut Vec<char>, n: i64)
    ensures
        final(chars)@ == old(chars)@ + signed_decimal(n as int),
{
    if n < 0 {
        chars.push('-');
        let magnitude: u64 = (-(n as i128)) as u64;
        append_decimal(chars, magnitude);
        assert(chars@ =~= old(chars)@ + signed_decimal(n as int));
    } else {
        append_decimal(chars, n as u64);
    }
}

/// Whether `c` is one of `0` to `9`.
pub open spec fn is_digit(c: char) -> bool {
    '0' <= c && c <= '9'
}

/// Whether every character is a decimal digit.
pub open spec fn all_digits(s: Seq<char>) -> bool {
    forall|i: int| 0 <= i < s.len() ==> is_digit(#[trigger] s[i])
}

/// The number a run of decimal digits spells.
pub open spec fn digits_value(s: Seq<char>) -> nat
    decreases s.len(),
{
    if s.len() == 0 {
        0
    } else {
        (digits_value(s.drop_last()) * 10 + (s.last() as int - '0' as int)) as nat
    }
}

/// A number reads back from its decimal digits.
pub proof fn decimal_reads_back(n: nat)
    ensures
        decimal(n).len() > 0,
        all_digits(decimal(n)),
        digits_value(decimal(n)) == n,
    decreases n,
{
    let s = decimal(n);
    let last = digit_char((n % 10) as int);
    assert(is_digit(last));
    assert(last as int - '0' as int == n % 10);
    if n < 10 {
        assert(s.drop_last().len() == 0);
        assert(digits_value(s.drop_last()) == 0);
        assert(s.last() == last);
    } else {
        decimal_reads_back(n / 10);
        assert(s.drop_last() =~= decimal(n / 10));
        assert(s.last() == last);
        assert forall|i: int| 0 <= i < s.len() implies is_digit(#[trigger] s[i]) by {
            if i < s.len() - 1 {
                assert(s[i] == decimal(n / 10)[i]);
            }
        }
    }
}

/// Whether `c` can stand in a number: a digit, or the sign of what is below
/// zero.
pub open spec fn is_numeral(c: char) -> bool {
    is_digit(c) || c == '-'
}

/// Numbers are told apart by their digits.
pub proof fn decimals_tell(a: nat, b: nat)
    ensures
        decimal(a) == decimal(b) ==> a == b,
        decimal(a).len() > 0,
        forall|i: int| 0 <= i < decimal(a).len() ==> is_numeral(#[trigger] decimal(a)[i]),
        forall|i: int| 0 <= i < decimal(b).len() ==> is_numeral(#[trigger] decimal(b)[i]),
{
    decimal_reads_back(a);
    decimal_reads_back(b);
}

/// Numbers are told apart by their sign and digits, and read back from them.
pub proof fn signed_decimals_tell(a: int, b: int)
    requires
        i64::MIN <= a <= i64::MAX,
        i64::MIN <= b <= i64::MAX,
    ensures
        signed_decimal(a) == signed_decimal(b) ==> a == b,
        signed_value(signed_decimal(a)) == Some(a),
        signed_decimal(a).len() > 0,
        forall|i: int|
            0 <= i < signed_decimal(a).len() ==> is_numeral(#[trigger] signed_decimal(a)[i]),
        forall|i: int|
            0 <= i < signed_decimal(b).len() ==> is_numeral(#[trigger] signed_decimal(b)[i]),
{
    let x = if a < 0 {
        (-a) as nat
    } else {
        a as nat
    };
    let y = if b < 0 {
        (-b) as nat
    } else {
        b as nat
    };
    decimal_reads_back(x);
    decimal_reads_back(y);
    assert(is_digit(decimal(x)[0]));
    assert(is_digit(decimal(y)[0]));
    if a < 0 {
        assert(signed_decimal(a).skip(1) =~= decimal(x));
        assert(signed_decimal(a)[0] == '-');
    }
    if b < 0 {
        assert(signed_decimal(b).skip(1) =~= decimal(y));
        assert(signed_decimal(b)[0] == '-');
    }
    assert forall|i: int| 0 <= i < signed_decimal(a).len() implies is_numeral(
        #[trigger] signed_decimal(a)[i],
    ) by {
        if a < 0 && i > 0 {
            assert(signed_decimal(a)[i] == decimal(x)[i - 1]);
        }
    }
    assert forall|i: int| 0 <= i < signed_decimal(b).len() implies is_numeral(
        #[trigger] signed_decimal(b)[i],
    ) by {
        if b < 0 && i > 0 {
            assert(signed_decimal(b)[i] == decimal(y)[i - 1]);
        }
    }
}

/// A number ends where something else begins.
pub proof fn numerals_end(a: Seq<char>, after_a: Seq<char>, b: Seq<char>, after_b: Seq<char>)
    requires
        a + after_a == b + after_b,
        forall|i: int| 0 <= i < a.len() ==> is_numeral(#[trigger] a[i]),
        forall|i: int| 0 <= i < b.len() ==> is_numeral(#[trigger] b[i]),
        after_a.len() > 0 ==> !is_numeral(after_a[0]),
        after_b.len() > 0 ==> !is_numeral(after_b[0]),
    ensures
        a == b,
        after_a == after_b,
{
    let whole = a + after_a;
    if a.len() < b.len() {
        assert(whole[a.len() as int] == after_a[0]);
        assert((b + after_b)[a.len() as int] == b[a.len() as int]);
    } else if b.len() < a.len() {
        assert((b + after_b)[b.len() as int] == after_b[0]);
        assert(whole[b.len() as int] == a[b.len() as int]);
    }
    assert(whole.take(a.len() as int) =~= a);
    assert((b + after_b).take(a.len() as int) =~= b);
    assert(whole.skip(a.len() as int) =~= after_a);
    assert((b + after_b).skip(a.len() as int) =~= after_b);
}

/// Digits to the right only make the number larger.
proof fn digits_value_monotone(s: Seq<char>, n: int)
    requires
        all_digits(s),
        0 <= n <= s.len(),
    ensures
        digits_value(s.take(n)) <= digits_value(s),
    decreases s.len() - n,
{
    if n < s.len() {
        digits_value_monotone(s, n + 1);
        assert(s.take(n + 1).drop_last() =~= s.take(n));
        assert(is_digit(s[n]));
    } else {
        assert(s.take(n) =~= s);
    }
}

/// Whether every character of `chars` from `from` on is a digit.
pub fn digits_from(chars: &Vec<char>, from: usize) -> (all: bool)
    requires
        from <= chars.len(),
    ensures
        all == all_digits(chars@.skip(from as int)),
{
    let mut i: usize = from;
    while i < chars.len()
        invariant
            from <= i <= chars.len(),
            forall|j: int| from <= j < i ==> is_digit(#[trigger] chars@[j]),
        decreases chars.len() - i,
    {
        if !('0' <= chars[i] && chars[i] <= '9') {
            assert(!is_digit(chars@.skip(from as int)[i - from]));
            return false;
        }
        i += 1;
    }
    assert forall|j: int| 0 <= j < chars@.skip(from as int).len() implies is_digit(
        #[trigger] chars@.skip(from as int)[j],
    ) by {
        assert(is_digit(chars@[from + j]));
    }
    true
}

/// The number the digits of `chars` from `from` on spell, when there is at
/// least one, all are digits, and the number is at most `max`.
pub fn read_digits(chars: &Vec<char>, from: usize, max: u64) -> (n: Option<u64>)
    requires
        from <= chars.len(),
    ensures
        ({
            let s = chars@.skip(from as int);
            n == if s.len() > 0 && all_digits(s) && digits_value(s) <= max {
                Some(digits_value(s) as u64)
            } else {
                None
            }
        }),
{
    let ghost s = chars@.skip(from as int);
    if from == chars.len() || !digits_from(chars, from) {
        return None;
    }
    let mut n: u64 = 0;
    let mut i: usize = from;
    while i < chars.len()
        invariant
            from <= i <= chars.len(),
            s == chars@.skip(from as int),
            s.len() > 0,
            all_digits(s),
            n <= max,
            n == digits_value(s.take(i - from)),
        decreases chars.len() - i,
    {
        assert(chars@[i as int] == s[i - from]);
        assert(is_digit(s[i - from]));
        let d: u64 = chars[i] as u64 - '0' as u64;
        proof {
            assert(s.take(i + 1 - from).drop_last() =~= s.take(i - from));
            digits_value_monotone(s, i + 1 - from);
        }
        if n > max / 10 {
            assert(n * 10 > max) by (nonlinear_arith)
                requires
                    n > max / 10,
            ;
            return None;
        }
        assert(n * 10 <= max) by (nonlinear_arith)
            requires
                n <= max / 10,
        ;
        if d > max - n * 10 {
            return None;
        }
        n = n * 10 + d;
        i += 1;
    }
    assert(s.take(s.len() as int) =~= s);
    Some(n)
}

/// What a text spells as an unsigned number of at most `max`: digits,
/// optionally after a plus sign.
pub open spec fn unsigned_value(s: Seq<char>, max: nat) -> Option<nat> {
    let digits = if s.len() > 0 && s[0] == '+' {
        s.skip(1)
    } else {
        s
    };
    if digits.len() > 0 && all_digits(digits) && digits_value(digits) <= max {
        Some(digits_value(digits))
    } else {
        None
    }
}

/// Reads an unsigned number of at most `max`.
pub fn read_unsigned(chars: &Vec<char>, max: u64) -> (n: Option<u64>)
    ensures
        match n {
            Some(n) => unsigned_value(chars@, max as nat) == Some(n as nat),
            None => unsigned_value(chars@, max as nat) is None,
        },
{
    assert(chars@.skip(0) =~= chars@);
    if chars.len() > 0 && chars[0] == '+' {
        read_digits(chars, 1, max)
    } else {
        read_digits(chars, 0, max)
    }
}

/// What a text spells as a signed 64-bit number: digits, optionally after a
/// sign.
pub open spec fn signed_value(s: Seq<char>) -> Option<int> {
    if s.len() > 0 && s[0] == '-' {
        let digits = s.skip(1);
        if digits.len() > 0 && all_digits(digits) && -digits_value(digits) >= i64::MIN {
            Some(-digits_value(digits))
        } else {
            None
        }
    } else {
        match unsigned_value(s, i64::MAX as nat) {
            Some(n) => Some(n as int),
            None => None,
        }
    }
}

/// Reads a signed 64-bit number.
pub fn read_signed(chars: &Vec<char>) -> (n: Option<i64>)
    ensures
        match n {
            Some(n) => signed_value(chars@) == Some(n as int),
            None => signed_value(chars@) is None,
        },
{
    if chars.len() > 0 && chars[0] == '-' {
        match read_digits(chars, 1, 0x8000_0000_0000_0000u64) {
            Some(n) => Some((-(n as i128)) as i64),
            None => None,
        }
    } else {
        match read_unsigned(chars, i64::MAX as u64) {
            Some(n) => Some(n as i64),
            None => None,
        }
    }
}

/// Whether `c` has Unicode's `White_Space` property.
pub open spec fn is_white(c: char) -> bool {
    let n = c as u32;
    ||| 0x9 <= n <= 0xd
    ||| n == 0x20
    ||| n == 0x85
    ||| n == 0xa0
    ||| n == 0x1680
    ||| 0x2000 <= n <= 0x200a
    ||| n == 0x2028
    ||| n == 0x2029
    ||| n == 0x202f
    ||| n == 0x205f
    ||| n == 0x3000
}

fn white(c: char) -> (w: bool)
    ensures
        w == is_white(c),
{
    let n: u32 = c as u32;
    (0x9 <= n && n <= 0xd) || n == 0x20 || n == 0x85 || n == 0xa0 || n == 0x1680 || (0x2000 <= n
        && n <= 0x200a) || n == 0x2028 || n == 0x2029 || n == 0x202f || n == 0x205f || n == 0x3000
}

/// `s` without the white space it begins with.
pub open spec fn trim_start(s: Seq<char>) -> Seq<char>
    decreases s.len(),
{
    if s.len() > 0 && is_white(s[0]) {
        trim_start(s.skip(1))
    } else {
        s
    }
}

/// `s` without the white space it ends with.
pub open spec fn trim_end(s: Seq<char>) -> Seq<char>
    decreases s.len(),
{
    if s.len() > 0 && is_white(s.last()) {
        trim_end(s.drop_last())
    } else {
        s
    }
}

/// `s` without the white space around it.
pub open spec fn trimmed(s: Seq<char>) -> Seq<char> {
    trim_end(trim_start(s))
}

/// The characters of `text` without the white space around them.
pub fn trim(text: &str) -> (chars: Vec<char>)
    ensures
        chars@ == trimmed(text@),
{
    let all = chars_of(text);
    let mut from: usize = 0;
    proof {
        assert(all@.skip(0) =~= all@);
    }
    while from < all.len() && white(all[from])
        invariant
            from <= all.len(),
            trim_start(all@) == trim_start(all@.skip(from as int)),
        decreases all.len() - from,
    {
        assert(all@.skip(from as int).skip(1) =~= all@.skip(from + 1));
        from += 1;
    }
    let ghost front = all@.skip(from as int);
    let mut to: usize = all.len();
    proof {
        assert(all@.subrange(from as int, to as int) =~= front);
    }
    while to > from && white(all[to - 1])
        invariant
            from <= to <= all.len(),
            trim_end(front) == trim_end(all@.subrange(from as int, to as int)),
        decreases to,
    {
        assert(all@.subrange(from as int, to as int).drop_last() =~= all@.subrange(
            from as int,
            to - 1,
        ));
        to -= 1;
    }
    let mut chars: Vec<char> = Vec::new();
    let mut i: usize = from;
    while i < to
        invariant
            from <= i <= to <= all.len(),
            chars@ == all@.subrange(from as int, i as int),
        decreases to - i,
    {
        chars.push(all[i]);
        assert(all@.subrange(from as int, i + 1) =~= all@.subrange(from as int, i as int).push(
            all@[i as int],
        ));
        i += 1;
    }
    chars
}

} // verus!
