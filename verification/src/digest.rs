//! The 32-byte names envelopes and keys go by.

use vstd::prelude::*;

use crate::order::Ordered;
use crate::text::text_of;

verus! {

/// Whether the bytes of `a` come before those of `b`, compared one by one.
pub open spec fn bytes_lt(a: Seq<u8>, b: Seq<u8>) -> bool
    decreases a.len(),
{
    if b.len() == 0 {
        false
    } else if a.len() == 0 {
        true
    } else if a[0] != b[0] {
        a[0] < b[0]
    } else {
        bytes_lt(a.skip(1), b.skip(1))
    }
}

proof fn bytes_lt_irreflexive(a: Seq<u8>)
    ensures
        !bytes_lt(a, a),
    decreases a.len(),
{
    if a.len() > 0 {
        bytes_lt_irreflexive(a.skip(1));
    }
}

proof fn bytes_lt_transitive(a: Seq<u8>, b: Seq<u8>, c: Seq<u8>)
    requires
        bytes_lt(a, b),
        bytes_lt(b, c),
    ensures
        bytes_lt(a, c),
    decreases a.len(),
{
    if a.len() > 0 && a[0] == b[0] && b[0] == c[0] {
        bytes_lt_transitive(a.skip(1), b.skip(1), c.skip(1));
    }
}

proof fn bytes_lt_total(a: Seq<u8>, b: Seq<u8>)
    ensures
        bytes_lt(a, b) || a == b || bytes_lt(b, a),
    decreases a.len(),
{
    if a.len() == 0 {
        if b.len() == 0 {
            assert(a =~= b);
        }
    } else if b.len() > 0 && a[0] == b[0] {
        bytes_lt_total(a.skip(1), b.skip(1));
        if a.skip(1) == b.skip(1) {
            assert(a.len() - 1 == a.skip(1).len());
            assert(b.len() - 1 == b.skip(1).len());
            assert forall|i: int| 0 <= i < a.len() implies a[i] == b[i] by {
                if i > 0 {
                    assert(a.skip(1)[i - 1] == b.skip(1)[i - 1]);
                }
            }
            assert(a =~= b);
        }
    }
}

fn bytes_less(a: &[u8; 32], b: &[u8; 32]) -> (less: bool)
    ensures
        less == bytes_lt(a@, b@),
{
    let mut i: usize = 0;
    proof {
        assert(a@.skip(0) =~= a@);
        assert(b@.skip(0) =~= b@);
    }
    while i < 32 && a[i] == b[i]
        invariant
            i <= 32,
            bytes_lt(a@, b@) == bytes_lt(a@.skip(i as int), b@.skip(i as int)),
        decreases 32 - i,
    {
        proof {
            assert(a@.skip(i as int).skip(1) =~= a@.skip(i + 1));
            assert(b@.skip(i as int).skip(1) =~= b@.skip(i + 1));
        }
        i += 1;
    }
    if i == 32 {
        false
    } else {
        a[i] < b[i]
    }
}

fn bytes_same(a: &[u8; 32], b: &[u8; 32]) -> (same: bool)
    ensures
        same == (a == b),
{
    let mut i: usize = 0;
    while i < 32
        invariant
            i <= 32,
            forall|j: int| 0 <= j < i ==> a[j] == b[j],
        decreases 32 - i,
    {
        if a[i] != b[i] {
            return false;
        }
        i += 1;
    }
    assert(a =~= b);
    true
}

/// The lowercase hexadecimal digit for `d`.
pub open spec fn hex_char(d: int) -> char {
    if d < 10 {
        (('0' as int) + d) as char
    } else {
        (('a' as int) + d - 10) as char
    }
}

/// `bytes` in lowercase hexadecimal, two digits a byte.
pub open spec fn hex_of(bytes: Seq<u8>) -> Seq<char> {
    Seq::new(
        2 * bytes.len(),
        |i: int| hex_char(if i % 2 == 0 { bytes[i / 2] as int / 16 } else { bytes[i / 2] as int % 16 }),
    )
}

fn hex_digit(d: u8) -> (c: char)
    requires
        d < 16,
    ensures
        c == hex_char(d as int),
{
    if d < 10 {
        (48u8 + d) as char
    } else {
        (87u8 + d) as char
    }
}

/// The characters of `bytes` in lowercase hexadecimal.
pub fn hex_chars(bytes: &[u8; 32]) -> (chars: Vec<char>)
    ensures
        chars@ == hex_of(bytes@),
{
    let mut chars: Vec<char> = Vec::new();
    let mut i: usize = 0;
    while i < 32
        invariant
            i <= 32,
            chars@.len() == 2 * i,
            forall|j: int| 0 <= j < 2 * i ==> chars@[j] == hex_of(bytes@)[j],
        decreases 32 - i,
    {
        chars.push(hex_digit(bytes[i] / 16));
        chars.push(hex_digit(bytes[i] % 16));
        i += 1;
    }
    assert(chars@ =~= hex_of(bytes@));
    chars
}

/// What a hexadecimal digit stands for, in either case.
pub open spec fn hex_value(c: char) -> Option<int> {
    if '0' <= c && c <= '9' {
        Some(c as int - '0' as int)
    } else if 'a' <= c && c <= 'f' {
        Some(c as int - 'a' as int + 10)
    } else if 'A' <= c && c <= 'F' {
        Some(c as int - 'A' as int + 10)
    } else {
        None
    }
}

fn read_hex_digit(c: char) -> (d: Option<u8>)
    ensures
        match d {
            Some(d) => hex_value(c) == Some(d as int) && d < 16,
            None => hex_value(c) is None,
        },
{
    let n: u32 = c as u32;
    if '0' <= c && c <= '9' {
        Some((n - 48) as u8)
    } else if 'a' <= c && c <= 'f' {
        Some((n - 97 + 10) as u8)
    } else if 'A' <= c && c <= 'F' {
        Some((n - 65 + 10) as u8)
    } else {
        None
    }
}

/// Why text could not be read as a 32-byte name in hexadecimal.
#[derive(Debug, Clone, Copy, PartialEq, Eq, Structural)]
pub enum HexError {
    /// It is not 64 characters long.
    Length,
    /// It holds a character that is not a hexadecimal digit.
    Digit,
}

impl HexError {
    /// The failure as a person reads it.
    pub open spec fn text(&self) -> Seq<char> {
        match self {
            HexError::Length => "expected 64 hexadecimal digits"@,
            HexError::Digit => "not a hexadecimal digit"@,
        }
    }

    /// The failure as a person reads it.
    pub fn describe(&self) -> (text: &'static str)
        ensures
            text@ == self.text(),
    {
        match self {
            HexError::Length => "expected 64 hexadecimal digits",
            HexError::Digit => "not a hexadecimal digit",
        }
    }
}

/// Whether `s` holds hexadecimal digits alone.
pub open spec fn all_hex(s: Seq<char>) -> bool {
    forall|i: int| 0 <= i < s.len() ==> hex_value(#[trigger] s[i]) is Some
}

/// The bytes that pairs of hexadecimal digits stand for.
pub open spec fn unhex(s: Seq<char>) -> Seq<u8> {
    Seq::new(
        s.len() / 2,
        |i: int| (hex_value(s[2 * i])->0 * 16 + hex_value(s[2 * i + 1])->0) as u8,
    )
}

/// The 32 bytes `chars` spell in hexadecimal.
fn read_hex(chars: &Vec<char>) -> (bytes: Result<[u8; 32], HexError>)
    ensures
        match bytes {
            Ok(b) => chars@.len() == 64 && all_hex(chars@) && b@ == unhex(chars@),
            Err(HexError::Length) => chars@.len() != 64,
            Err(HexError::Digit) => chars@.len() == 64 && !all_hex(chars@),
        },
{
    if chars.len() != 64 {
        return Err(HexError::Length);
    }
    let mut bytes: [u8; 32] = [0u8; 32];
    let mut i: usize = 0;
    while i < 32
        invariant
            i <= 32,
            chars@.len() == 64,
            forall|j: int| 0 <= j < 2 * i ==> hex_value(#[trigger] chars@[j]) is Some,
            forall|j: int| 0 <= j < i ==> bytes@[j] == unhex(chars@)[j],
        decreases 32 - i,
    {
        match (read_hex_digit(chars[2 * i]), read_hex_digit(chars[2 * i + 1])) {
            (Some(high), Some(low)) => {
                bytes[i] = high * 16 + low;
            },
            _ => {
                assert(hex_value(chars@[2 * i]) is None || hex_value(chars@[2 * i + 1]) is None);
                return Err(HexError::Digit);
            },
        }
        i += 1;
    }
    assert(bytes@ =~= unhex(chars@));
    Ok(bytes)
}

/// The digest an envelope is filed under.
#[derive(Debug, Clone, Copy, PartialOrd, Ord, Hash, Eq)]
pub struct EnvelopeDigest {
    pub bytes: [u8; 32],
}

impl PartialEq for EnvelopeDigest {
    fn eq(&self, other: &Self) -> (same: bool) {
        bytes_same(&self.bytes, &other.bytes)
    }
}

impl vstd::std_specs::cmp::PartialEqSpecImpl for EnvelopeDigest {
    open spec fn obeys_eq_spec() -> bool {
        true
    }

    open spec fn eq_spec(&self, other: &Self) -> bool {
        *self == *other
    }
}

impl View for EnvelopeDigest {
    type V = EnvelopeDigest;

    open spec fn view(&self) -> EnvelopeDigest {
        *self
    }
}

impl Ordered for EnvelopeDigest {
    open spec fn lt(a: EnvelopeDigest, b: EnvelopeDigest) -> bool {
        bytes_lt(a.bytes@, b.bytes@)
    }

    proof fn lt_irreflexive(a: EnvelopeDigest) {
        bytes_lt_irreflexive(a.bytes@);
    }

    proof fn lt_transitive(a: EnvelopeDigest, b: EnvelopeDigest, c: EnvelopeDigest) {
        bytes_lt_transitive(a.bytes@, b.bytes@, c.bytes@);
    }

    proof fn lt_total(a: EnvelopeDigest, b: EnvelopeDigest) {
        bytes_lt_total(a.bytes@, b.bytes@);
        if a.bytes@ == b.bytes@ {
            assert forall|i: int| 0 <= i < 32 implies a.bytes[i] == b.bytes[i] by {
                assert(a.bytes@[i] == b.bytes@[i]);
            }
            assert(a.bytes =~= b.bytes);
        }
    }

    fn less(&self, other: &Self) -> (less: bool) {
        bytes_less(&self.bytes, &other.bytes)
    }

    fn duplicate(&self) -> (copy: Self) {
        *self
    }
}

/// Digests with the same bytes are the same.
pub proof fn same_bytes_same_digest(a: EnvelopeDigest, b: EnvelopeDigest)
    requires
        a.bytes@ == b.bytes@,
    ensures
        a == b,
{
    assert(a.bytes =~= b.bytes);
}

impl EnvelopeDigest {
    /// The digest with these bytes.
    pub fn from_bytes(bytes: [u8; 32]) -> (digest: Self)
        ensures
            digest.bytes == bytes,
    {
        EnvelopeDigest { bytes }
    }

    /// The digest in lowercase hexadecimal.
    pub fn to_hex(&self) -> (text: String)
        ensures
            text@ == hex_of(self.bytes@),
    {
        let chars = hex_chars(&self.bytes);
        text_of(&chars)
    }
}

/// The id a key derives to.
#[derive(Debug, Clone, Copy, PartialOrd, Ord, Hash, Eq)]
pub struct KeyId {
    pub bytes: [u8; 32],
}

impl PartialEq for KeyId {
    fn eq(&self, other: &Self) -> (same: bool) {
        bytes_same(&self.bytes, &other.bytes)
    }
}

impl vstd::std_specs::cmp::PartialEqSpecImpl for KeyId {
    open spec fn obeys_eq_spec() -> bool {
        true
    }

    open spec fn eq_spec(&self, other: &Self) -> bool {
        *self == *other
    }
}

impl View for KeyId {
    type V = KeyId;

    open spec fn view(&self) -> KeyId {
        *self
    }
}

impl Ordered for KeyId {
    open spec fn lt(a: KeyId, b: KeyId) -> bool {
        bytes_lt(a.bytes@, b.bytes@)
    }

    proof fn lt_irreflexive(a: KeyId) {
        bytes_lt_irreflexive(a.bytes@);
    }

    proof fn lt_transitive(a: KeyId, b: KeyId, c: KeyId) {
        bytes_lt_transitive(a.bytes@, b.bytes@, c.bytes@);
    }

    proof fn lt_total(a: KeyId, b: KeyId) {
        bytes_lt_total(a.bytes@, b.bytes@);
        if a.bytes@ == b.bytes@ {
            assert forall|i: int| 0 <= i < 32 implies a.bytes[i] == b.bytes[i] by {
                assert(a.bytes@[i] == b.bytes@[i]);
            }
            assert(a.bytes =~= b.bytes);
        }
    }

    fn less(&self, other: &Self) -> (less: bool) {
        bytes_less(&self.bytes, &other.bytes)
    }

    fn duplicate(&self) -> (copy: Self) {
        *self
    }
}

impl KeyId {
    /// The id with these bytes.
    pub fn from_bytes(bytes: [u8; 32]) -> (id: Self)
        ensures
            id.bytes == bytes,
    {
        KeyId { bytes }
    }

    /// The id in lowercase hexadecimal.
    pub fn to_hex(&self) -> (text: String)
        ensures
            text@ == hex_of(self.bytes@),
    {
        let chars = hex_chars(&self.bytes);
        text_of(&chars)
    }

    /// Reads an id spelled in hexadecimal, in either case.
    pub fn from_hex(text: &str) -> (id: Result<Self, HexError>)
        ensures
            match id {
                Ok(id) => text@.len() == 64 && all_hex(text@) && id.bytes@ == unhex(text@),
                Err(HexError::Length) => text@.len() != 64,
                Err(HexError::Digit) => text@.len() == 64 && !all_hex(text@),
            },
    {
        let chars = crate::text::chars_of(text);
        match read_hex(&chars) {
            Ok(bytes) => Ok(KeyId { bytes }),
            Err(error) => Err(error),
        }
    }
}

/// A name written in hexadecimal reads back as itself.
pub proof fn hex_reads_back(bytes: Seq<u8>)
    ensures
        all_hex(hex_of(bytes)),
        unhex(hex_of(bytes)) == bytes,
{
    let s = hex_of(bytes);
    assert forall|i: int| 0 <= i < s.len() implies hex_value(#[trigger] s[i]) is Some by {
        let b = bytes[i / 2] as int;
        assert(0 <= b / 16 < 16);
        assert(0 <= b % 16 < 16);
    }
    assert forall|i: int| 0 <= i < bytes.len() implies unhex(s)[i] == bytes[i] by {
        let b = bytes[i] as int;
        assert(2 * i / 2 == i);
        assert((2 * i + 1) / 2 == i);
        assert((2 * i) % 2 == 0);
        assert((2 * i + 1) % 2 == 1);
        assert(s[2 * i] == hex_char(b / 16));
        assert(s[2 * i + 1] == hex_char(b % 16));
        assert(hex_value(hex_char(b / 16)) == Some(b / 16));
        assert(hex_value(hex_char(b % 16)) == Some(b % 16));
    }
    assert(unhex(s) =~= bytes);
}

} // verus!
