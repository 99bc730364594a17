//! How messages are spelled on the wire: canonical CBOR with integer keys.
//!
//! A message is a map of one pair, its key the message's tag. Envelopes
//! travel as their own encodings and nothing else wraps them: a batch is
//! written from the encodings of its envelopes, and read as how many there
//! are and the bytes that spell them one after the other.

use vstd::prelude::*;

use crate::digest::{same_bytes_same_digest, EnvelopeDigest};
use crate::envelope::WireError;
use crate::sync::items::{are_items, holds_items, items_add_up};
use crate::sync::proto::{CaughtUp, FindSplit, Hello, NoSplit, Split};

verus! {

/// A message as it is spelled, with its envelopes, if any, as bytes.
#[derive(Debug, PartialEq, Eq)]
pub enum Packet {
    Hello(Hello),
    FindSplit(FindSplit),
    Split(Split),
    NoSplit(NoSplit),
    /// So many envelopes, and their encodings one after the other.
    Envelopes { count: u64, encodings: Vec<u8> },
    CaughtUp(CaughtUp),
}

/// What a packet says.
pub enum Spelled {
    Hello { version: u32, head: EnvelopeDigest },
    FindSplit { locator: Seq<EnvelopeDigest> },
    Split { at: EnvelopeDigest },
    NoSplit,
    Envelopes { count: u64, encodings: Seq<u8> },
    CaughtUp,
}

impl View for Packet {
    type V = Spelled;

    open spec fn view(&self) -> Spelled {
        match self {
            Packet::Hello(hello) => Spelled::Hello { version: hello.version, head: hello.head },
            Packet::FindSplit(find) => Spelled::FindSplit { locator: find.locator@ },
            Packet::Split(split) => Spelled::Split { at: split.at },
            Packet::NoSplit(_) => Spelled::NoSplit,
            Packet::Envelopes { count, encodings } => Spelled::Envelopes {
                count: *count,
                encodings: encodings@,
            },
            Packet::CaughtUp(_) => Spelled::CaughtUp,
        }
    }
}

/// `n` in two bytes, the highest first.
pub open spec fn two_bytes(n: nat) -> Seq<u8> {
    seq![(n / 0x100 % 0x100) as u8, (n % 0x100) as u8]
}

/// `n` in four bytes, the highest first.
pub open spec fn four_bytes(n: nat) -> Seq<u8> {
    two_bytes(n / 0x1_0000 % 0x1_0000) + two_bytes(n % 0x1_0000)
}

/// `n` in eight bytes, the highest first.
pub open spec fn eight_bytes(n: nat) -> Seq<u8> {
    four_bytes(n / 0x1_0000_0000 % 0x1_0000_0000) + four_bytes(n % 0x1_0000_0000)
}

/// The head of an item of kind `kind`, carrying `n` in as few bytes as will
/// do.
pub open spec fn item_head(kind: u8, n: nat) -> Seq<u8> {
    let first = kind as int * 0x20;
    if n < 24 {
        seq![(first + n) as u8]
    } else if n < 0x100 {
        seq![(first + 24) as u8, n as u8]
    } else if n < 0x1_0000 {
        seq![(first + 25) as u8] + two_bytes(n)
    } else if n < 0x1_0000_0000 {
        seq![(first + 26) as u8] + four_bytes(n)
    } else {
        seq![(first + 27) as u8] + eight_bytes(n)
    }
}

/// The kind of an unsigned number, of an array.
pub const UNSIGNED: u8 = 0;

pub const ARRAY: u8 = 4;

/// A digest as a byte string.
pub open spec fn spelled_digest(digest: EnvelopeDigest) -> Seq<u8> {
    seq![0x58u8, 0x20u8] + digest.bytes@
}

/// Digests one after the other.
pub open spec fn spelled_digests(digests: Seq<EnvelopeDigest>) -> Seq<u8>
    decreases digests.len(),
{
    if digests.len() == 0 {
        Seq::empty()
    } else {
        spelled_digests(digests.drop_last()) + spelled_digest(digests.last())
    }
}

/// How a packet is spelled.
pub open spec fn spelling(packet: Spelled) -> Seq<u8> {
    match packet {
        Spelled::Hello { version, head } => seq![0xa1u8, 1u8, 0xa2u8, 1u8] + item_head(
            UNSIGNED,
            version as nat,
        ) + seq![2u8] + spelled_digest(head),
        Spelled::FindSplit { locator } => seq![0xa1u8, 2u8, 0xa1u8, 1u8] + item_head(
            ARRAY,
            locator.len(),
        ) + spelled_digests(locator),
        Spelled::Split { at } => seq![0xa1u8, 3u8, 0xa1u8, 1u8] + spelled_digest(at),
        Spelled::NoSplit => seq![0xa1u8, 4u8, 0xa0u8],
        Spelled::Envelopes { count, encodings } => seq![0xa1u8, 5u8, 0xa1u8, 1u8] + item_head(
            ARRAY,
            count as nat,
        ) + encodings,
        Spelled::CaughtUp => seq![0xa1u8, 6u8, 0xa0u8],
    }
}

/// Appends the head of an item.
fn put_head(bytes: &mut Vec<u8>, kind: u8, n: u64)
    requires
        kind < 8,
    ensures
        final(bytes)@ == old(bytes)@ + item_head(kind, n as nat),
{
    let ghost before = bytes@;
    let first: u8 = kind * 0x20;
    if n < 24 {
        bytes.push(first + n as u8);
    } else if n < 0x100 {
        bytes.push(first + 24);
        bytes.push(n as u8);
    } else if n < 0x1_0000 {
        bytes.push(first + 25);
        put_two(bytes, n);
    } else if n < 0x1_0000_0000 {
        bytes.push(first + 26);
        put_four(bytes, n);
    } else {
        bytes.push(first + 27);
        put_four(bytes, n / 0x1_0000_0000 % 0x1_0000_0000);
        put_four(bytes, n % 0x1_0000_0000);
    }
    assert(bytes@ =~= before + item_head(kind, n as nat));
}

fn put_two(bytes: &mut Vec<u8>, n: u64)
    ensures
        final(bytes)@ == old(bytes)@ + two_bytes(n as nat),
{
    let ghost before = bytes@;
    bytes.push((n / 0x100 % 0x100) as u8);
    bytes.push((n % 0x100) as u8);
    assert(bytes@ =~= before + two_bytes(n as nat));
}

fn put_four(bytes: &mut Vec<u8>, n: u64)
    ensures
        final(bytes)@ == old(bytes)@ + four_bytes(n as nat),
{
    let ghost before = bytes@;
    put_two(bytes, n / 0x1_0000 % 0x1_0000);
    put_two(bytes, n % 0x1_0000);
    assert(bytes@ =~= before + four_bytes(n as nat));
}

fn put_digest(bytes: &mut Vec<u8>, digest: EnvelopeDigest)
    ensures
        final(bytes)@ == old(bytes)@ + spelled_digest(digest),
{
    let ghost before = bytes@;
    bytes.push(0x58);
    bytes.push(0x20);
    let mut i: usize = 0;
    while i < 32
        invariant
            i <= 32,
            bytes@ == before + seq![0x58u8, 0x20u8] + digest.bytes@.take(i as int),
        decreases 32 - i,
    {
        bytes.push(digest.bytes[i]);
        i += 1;
        assert(bytes@ =~= before + seq![0x58u8, 0x20u8] + digest.bytes@.take(i as int));
    }
    assert(digest.bytes@.take(32) =~= digest.bytes@);
    assert(bytes@ =~= before + spelled_digest(digest));
}

fn put_bytes(bytes: &mut Vec<u8>, more: &Vec<u8>)
    ensures
        final(bytes)@ == old(bytes)@ + more@,
{
    let ghost before = bytes@;
    let mut i: usize = 0;
    while i < more.len()
        invariant
            i <= more@.len(),
            bytes@ == before + more@.take(i as int),
        decreases more@.len() - i,
    {
        bytes.push(more[i]);
        i += 1;
        assert(bytes@ =~= before + more@.take(i as int));
    }
    assert(more@.take(i as int) =~= more@);
}

fn put_opening(bytes: &mut Vec<u8>, a: u8, b: u8, c: u8, d: u8)
    ensures
        final(bytes)@ == old(bytes)@ + seq![a, b, c, d],
{
    let ghost before = bytes@;
    bytes.push(a);
    bytes.push(b);
    bytes.push(c);
    bytes.push(d);
    assert(bytes@ =~= before + seq![a, b, c, d]);
}

/// Encodings one after the other.
pub open spec fn end_to_end(encodings: Seq<Vec<u8>>) -> Seq<u8>
    decreases encodings.len(),
{
    if encodings.len() == 0 {
        Seq::empty()
    } else {
        end_to_end(encodings.drop_last()) + encodings.last()@
    }
}

impl Packet {
    /// The packet of a batch, from the encoding of each of its envelopes.
    pub fn of_batch(encodings: &Vec<Vec<u8>>) -> (packet: Self)
        ensures
            packet@ == (Spelled::Envelopes {
                count: encodings@.len() as u64,
                encodings: end_to_end(encodings@),
            }),
            (forall|i: int|
                0 <= i < encodings@.len() ==> are_items((#[trigger] encodings@[i])@, 1))
                ==> readable(packet@),
    {
        let mut bytes: Vec<u8> = Vec::new();
        let mut i: usize = 0;
        assert(encodings@.take(0).len() == 0);
        while i < encodings.len()
            invariant
                i <= encodings@.len(),
                bytes@ == end_to_end(encodings@.take(i as int)),
                (forall|j: int|
                    0 <= j < encodings@.len() ==> are_items((#[trigger] encodings@[j])@, 1))
                    ==> are_items(bytes@, i as nat),
            decreases encodings@.len() - i,
        {
            proof {
                if are_items(bytes@, i as nat) && are_items(encodings@[i as int]@, 1) {
                    items_add_up(bytes@, i as nat, encodings@[i as int]@, 1);
                }
            }
            put_bytes(&mut bytes, &encodings[i]);
            i += 1;
            assert(encodings@.take(i as int).drop_last() =~= encodings@.take(i - 1));
            assert(encodings@.take(i as int).last() == encodings@[i - 1]);
        }
        assert(encodings@.take(i as int) =~= encodings@);
        Packet::Envelopes { count: encodings.len() as u64, encodings: bytes }
    }

    /// The packet as it is spelled.
    pub fn encode(&self) -> (bytes: Vec<u8>)
        ensures
            bytes@ == spelling(self@),
    {
        let mut bytes: Vec<u8> = Vec::new();
        match self {
            Packet::Hello(hello) => {
                put_opening(&mut bytes, 0xa1, 1, 0xa2, 1);
                put_head(&mut bytes, UNSIGNED, hello.version as u64);
                bytes.push(2);
                put_digest(&mut bytes, hello.head);
            },
            Packet::FindSplit(find) => {
                put_opening(&mut bytes, 0xa1, 2, 0xa1, 1);
                put_head(&mut bytes, ARRAY, find.locator.len() as u64);
                let ghost before = bytes@;
                let mut i: usize = 0;
                assert(find.locator@.take(0).len() == 0);
                assert(before + spelled_digests(find.locator@.take(0)) =~= before);
                while i < find.locator.len()
                    invariant
                        i <= find.locator@.len(),
                        bytes@ == before + spelled_digests(find.locator@.take(i as int)),
                    decreases find.locator@.len() - i,
                {
                    put_digest(&mut bytes, find.locator[i]);
                    i += 1;
                    proof {
                        let now = find.locator@.take(i as int);
                        assert(now.drop_last() =~= find.locator@.take(i - 1));
                        assert(now.last() == find.locator@[i - 1]);
                        assert(bytes@ =~= before + spelled_digests(now));
                    }
                }
                assert(find.locator@.take(i as int) =~= find.locator@);
            },
            Packet::Split(split) => {
                put_opening(&mut bytes, 0xa1, 3, 0xa1, 1);
                put_digest(&mut bytes, split.at);
            },
            Packet::NoSplit(_) => {
                bytes.push(0xa1);
                bytes.push(4);
                bytes.push(0xa0);
            },
            Packet::Envelopes { count, encodings } => {
                put_opening(&mut bytes, 0xa1, 5, 0xa1, 1);
                put_head(&mut bytes, ARRAY, *count);
                put_bytes(&mut bytes, encodings);
            },
            Packet::CaughtUp(_) => {
                bytes.push(0xa1);
                bytes.push(6);
                bytes.push(0xa0);
            },
        }
        assert(bytes@ =~= spelling(self@));
        bytes
    }

    /// Tests whether the packet can be read back.
    fn reads(&self) -> (reads: bool)
        ensures
            reads == readable(self@),
    {
        match self {
            Packet::FindSplit(find) => find.locator.len() <= usize::MAX,
            Packet::Envelopes { count, encodings } => holds_items(encodings, *count),
            _ => true,
        }
    }

    /// Reads the packet that `bytes` spell; an error where they spell none.
    pub fn decode(bytes: &Vec<u8>) -> (packet: Result<Self, WireError>)
        ensures
            match packet {
                Ok(packet) => {
                    &&& readable(packet@)
                    &&& spelling(packet@) == bytes@
                    &&& forall|other: Spelled|
                        readable(other) && #[trigger] spelling(other) == bytes@ ==> other == packet@
                },
                Err(_) => forall|packet: Spelled|
                    readable(packet) ==> #[trigger] spelling(packet) != bytes@,
            },
    {
        match guess(bytes) {
            Some(packet) => {
                let again = packet.encode();
                if packet.reads() && same_bytes(&again, bytes) {
                    Ok(packet)
                } else {
                    Err(WireError)
                }
            },
            None => Err(WireError),
        }
    }
}

/// Whether a packet can be read: its locator is no longer than a list can
/// be, and its batch holds as many items as it counts, and nothing else.
pub open spec fn readable(packet: Spelled) -> bool {
    match packet {
        Spelled::FindSplit { locator } => locator.len() <= usize::MAX,
        Spelled::Envelopes { count, encodings } => are_items(encodings, count as nat),
        _ => true,
    }
}

fn same_bytes(a: &Vec<u8>, b: &Vec<u8>) -> (same: bool)
    ensures
        same == (a@ == b@),
{
    if a.len() != b.len() {
        return false;
    }
    let mut i: usize = 0;
    while i < a.len()
        invariant
            i <= a@.len(),
            a@.len() == b@.len(),
            forall|j: int| 0 <= j < i ==> a@[j] == b@[j],
        decreases a@.len() - i,
    {
        if a[i] != b[i] {
            return false;
        }
        i += 1;
    }
    assert(a@ =~= b@);
    true
}

/// Whether the item head at `at` carries `n`.
pub open spec fn carries(bytes: Seq<u8>, at: int, kind: u8, n: nat) -> bool {
    0 <= at && at + item_head(kind, n).len() <= bytes.len() && bytes.subrange(
        at,
        at + item_head(kind, n).len(),
    ) == item_head(kind, n)
}

/// Four bytes of `bytes` as a number.
pub open spec fn four_at(bytes: Seq<u8>, at: int) -> nat {
    (((bytes[at] * 0x100 + bytes[at + 1]) * 0x100 + bytes[at + 2]) * 0x100 + bytes[at + 3]) as nat
}

proof fn four_bytes_read_back(n: nat)
    requires
        n < 0x1_0000_0000,
    ensures
        four_at(four_bytes(n), 0) == n,
        four_bytes(n).len() == 4,
{
    let bytes = four_bytes(n);
    let high = n / 0x1_0000 % 0x1_0000;
    let low = n % 0x1_0000;
    assert(high == n / 0x1_0000);
    assert(bytes[0] == (high / 0x100 % 0x100) as u8);
    assert(bytes[1] == (high % 0x100) as u8);
    assert(bytes[2] == (low / 0x100 % 0x100) as u8);
    assert(bytes[3] == (low % 0x100) as u8);
    assert(bytes[0] * 0x100 + bytes[1] == high);
    assert(bytes[2] * 0x100 + bytes[3] == low);
    assert(high * 0x1_0000 + low == n);
}

fn read_four(bytes: &Vec<u8>, at: usize) -> (n: u64)
    requires
        at + 4 <= bytes@.len(),
    ensures
        n == four_at(bytes@, at as int),
        n < 0x1_0000_0000,
{
    let end: usize = bytes.len();
    assert(at + 4 <= end);
    ((bytes[at] as u64 * 0x100 + bytes[at + 1] as u64) * 0x100 + bytes[at + 2] as u64) * 0x100
        + bytes[at + 3] as u64
}

/// The number the item head at `at` carries, if there is one, and how long
/// the head is.
pub open spec fn head_at(bytes: Seq<u8>, at: int, kind: u8) -> Option<(u64, usize)> {
    let room = bytes.len() - at;
    let lead = bytes[at] - kind * 0x20;
    if room < 1 || lead < 0 || lead > 27 {
        None
    } else if lead < 24 {
        Some((lead as u64, 1usize))
    } else if lead == 24 {
        if room < 2 {
            None
        } else {
            Some((bytes[at + 1] as u64, 2usize))
        }
    } else if lead == 25 {
        if room < 3 {
            None
        } else {
            Some(((bytes[at + 1] * 0x100 + bytes[at + 2]) as u64, 3usize))
        }
    } else if lead == 26 {
        if room < 5 {
            None
        } else {
            Some((four_at(bytes, at + 1) as u64, 5usize))
        }
    } else {
        if room < 9 {
            None
        } else {
            Some(
                (
                    (four_at(bytes, at + 1) * 0x1_0000_0000 + four_at(bytes, at + 5)) as u64,
                    9usize,
                ),
            )
        }
    }
}

/// A head of nine bytes reads back as the number it was written for.
proof fn long_heads_read_back(bytes: Seq<u8>, at: int, kind: u8, n: nat)
    requires
        kind < 8,
        0x1_0000_0000 <= n <= u64::MAX,
        0 <= at,
        at + 9 <= bytes.len(),
        forall|i: int|
            0 <= i < 9 ==> bytes[at + i] == #[trigger] item_head(kind, n)[i],
    ensures
        head_at(bytes, at, kind) == Some((n as u64, 9usize)),
{
    let spelled = item_head(kind, n);
    let high = n / 0x1_0000_0000 % 0x1_0000_0000;
    let low = n % 0x1_0000_0000;
    four_bytes_read_back(high);
    four_bytes_read_back(low);
    assert(high == n / 0x1_0000_0000);
    assert(spelled.subrange(1, 5) =~= four_bytes(high));
    assert(spelled.subrange(5, 9) =~= four_bytes(low));
    four_stand(bytes, at + 1, spelled, 1, high);
    four_stand(bytes, at + 5, spelled, 5, low);
    assert(high * 0x1_0000_0000 + low == n);
    assert(bytes[at + 0] == spelled[0]);
}

/// A head reads back as the number it was written for.
pub proof fn heads_read_back(bytes: Seq<u8>, at: int, kind: u8, n: nat)
    requires
        kind < 8,
        n <= u64::MAX,
        carries(bytes, at, kind, n),
    ensures
        head_at(bytes, at, kind) == Some((n as u64, item_head(kind, n).len() as usize)),
{
    let spelled = item_head(kind, n);
    assert forall|i: int| 0 <= i < spelled.len() implies bytes[at + i] == #[trigger] spelled[i] by {
        assert(bytes.subrange(at, at + spelled.len())[i] == bytes[at + i]);
    }
    assert(bytes[at + 0] == spelled[0]);
    if n < 24 {
    } else if n < 0x100 {
        assert(bytes[at + 1] == spelled[1]);
    } else if n < 0x1_0000 {
        assert(bytes[at + 1] == spelled[1] && spelled[1] == two_bytes(n)[0]);
        assert(bytes[at + 2] == spelled[2] && spelled[2] == two_bytes(n)[1]);
    } else if n < 0x1_0000_0000 {
        four_bytes_read_back(n);
        assert(spelled.subrange(1, 5) =~= four_bytes(n));
        four_stand(bytes, at + 1, spelled, 1, n);
    } else {
        assert(spelled.len() == 9);
        long_heads_read_back(bytes, at, kind, n);
    }
}

/// Four bytes that stand in `bytes` as they stand in `spelled`.
proof fn four_stand(bytes: Seq<u8>, at: int, spelled: Seq<u8>, from: int, n: nat)
    requires
        n < 0x1_0000_0000,
        0 <= from,
        from + 4 <= spelled.len(),
        spelled.subrange(from, from + 4) == four_bytes(n),
        forall|i: int| from <= i < from + 4 ==> bytes[at - from + i] == #[trigger] spelled[i],
    ensures
        four_at(bytes, at) == n,
{
    four_bytes_read_back(n);
    let four = spelled.subrange(from, from + 4);
    assert(four[0] == spelled[from] && four[1] == spelled[from + 1]);
    assert(four[2] == spelled[from + 2] && four[3] == spelled[from + 3]);
    assert(bytes[at] == four[0]);
    assert(bytes[at + 1] == four[1]);
    assert(bytes[at + 2] == four[2]);
    assert(bytes[at + 3] == four[3]);
}

/// Reads the number an item head at `at` carries, and how long the head is.
pub(crate) fn read_head(bytes: &Vec<u8>, at: usize, kind: u8) -> (head: Option<(u64, usize)>)
    requires
        kind < 8,
        at <= bytes@.len(),
    ensures
        head == head_at(bytes@, at as int, kind),
        forall|n: nat| n <= u64::MAX && #[trigger] carries(bytes@, at as int, kind, n) ==> head
            == Some((n as u64, item_head(kind, n).len() as usize)),
        head matches Some((n, len)) ==> 1 <= len <= 9 && at + len <= bytes@.len(),
{
    proof {
        assert forall|n: nat| n <= u64::MAX && #[trigger] carries(
            bytes@,
            at as int,
            kind,
            n,
        ) implies head_at(bytes@, at as int, kind) == Some(
            (n as u64, item_head(kind, n).len() as usize),
        ) by {
            heads_read_back(bytes@, at as int, kind, n);
        }
    }
    let room: usize = bytes.len() - at;
    if room < 1 {
        return None;
    }
    let first: u8 = kind * 0x20;
    let lead: u8 = bytes[at];
    if lead < first {
        return None;
    }
    let lead: u8 = lead - first;
    if lead < 24 {
        Some((lead as u64, 1usize))
    } else if lead == 24 && room >= 2 {
        Some((bytes[at + 1] as u64, 2usize))
    } else if lead == 25 && room >= 3 {
        Some((bytes[at + 1] as u64 * 0x100 + bytes[at + 2] as u64, 3usize))
    } else if lead == 26 && room >= 5 {
        Some((read_four(bytes, at + 1), 5usize))
    } else if lead == 27 && room >= 9 {
        let high: u64 = read_four(bytes, at + 1);
        let low: u64 = read_four(bytes, at + 5);
        Some((high * 0x1_0000_0000 + low, 9usize))
    } else {
        None
    }
}

/// Reads the digest spelled at `at`, whatever stands before it.
fn read_digest(bytes: &Vec<u8>, at: usize) -> (digest: EnvelopeDigest)
    requires
        at + 34 <= bytes@.len(),
    ensures
        digest.bytes@ == bytes@.subrange(at + 2, at + 34),
{
    let mut digest: [u8; 32] = [0;32];
    let end: usize = bytes.len();
    let mut i: usize = 0;
    while i < 32
        invariant
            i <= 32,
            at + 34 <= end,
            end == bytes@.len(),
            forall|j: int| 0 <= j < i ==> digest@[j] == bytes@[at + 2 + j],
        decreases 32 - i,
    {
        digest[i] = bytes[at + 2 + i];
        i += 1;
    }
    assert(digest@ =~= bytes@.subrange(at + 2, at + 34));
    EnvelopeDigest { bytes: digest }
}

/// The only packet that `bytes` could spell.
fn guess(bytes: &Vec<u8>) -> (packet: Option<Packet>)
    ensures
        forall|spelled: Spelled|
            readable(spelled) && #[trigger] spelling(spelled) == bytes@ ==> packet is Some
                && packet->0@ == spelled,
{
    if bytes.len() < 3 {
        proof {
            assert forall|spelled: Spelled| readable(spelled) implies #[trigger] spelling(spelled)
                != bytes@ by {
                assert(spelling(spelled).len() >= 3);
            }
        }
        return None;
    }
    let tag: u8 = bytes[1];
    proof {
        assert forall|spelled: Spelled|
            readable(spelled) && #[trigger] spelling(spelled) == bytes@ implies tag == tag_of(
            spelled,
        ) by {
            assert(spelling(spelled)[1] == tag_of(spelled));
        }
    }
    let packet = if tag == 1 {
        guess_hello(bytes)
    } else if tag == 2 {
        guess_find_split(bytes)
    } else if tag == 3 {
        guess_split(bytes)
    } else if tag == 4 {
        Some(Packet::NoSplit(NoSplit {  }))
    } else if tag == 5 {
        guess_envelopes(bytes)
    } else if tag == 6 {
        Some(Packet::CaughtUp(CaughtUp {  }))
    } else {
        None
    };
    packet
}

/// The tag a packet goes under.
pub open spec fn tag_of(packet: Spelled) -> u8 {
    match packet {
        Spelled::Hello { .. } => 1,
        Spelled::FindSplit { .. } => 2,
        Spelled::Split { .. } => 3,
        Spelled::NoSplit => 4,
        Spelled::Envelopes { .. } => 5,
        Spelled::CaughtUp => 6,
    }
}

fn guess_hello(bytes: &Vec<u8>) -> (packet: Option<Packet>)
    requires
        bytes@.len() >= 3,
    ensures
        forall|version: u32, head: EnvelopeDigest| #[trigger]
            spelling(Spelled::Hello { version, head }) == bytes@ ==> packet is Some
                && packet->0@ == (Spelled::Hello { version, head }),
{
    proof {
        assert forall|version: u32, head: EnvelopeDigest| #[trigger]
            spelling(Spelled::Hello { version, head }) == bytes@ implies bytes@.len() >= 40
            && carries(bytes@, 4, UNSIGNED, version as nat) && bytes@.subrange(
            bytes@.len() - 32,
            bytes@.len() as int,
        ) == head.bytes@ by {
            let lead = item_head(UNSIGNED, version as nat);
            assert(lead.len() >= 1);
            assert(bytes@.subrange(4, 4 + lead.len() as int) =~= lead);
            assert(bytes@.subrange(bytes@.len() - 32, bytes@.len() as int) =~= head.bytes@);
        }
    }
    if bytes.len() < 40 {
        return None;
    }
    match read_head(bytes, 4, UNSIGNED) {
        Some((version, _)) => {
            if version > 0xffff_ffff {
                return None;
            }
            let head = read_digest(bytes, bytes.len() - 34);
            let packet = Packet::Hello(Hello { version: version as u32, head });
            proof {
                assert forall|v: u32, h: EnvelopeDigest| #[trigger]
                    spelling(Spelled::Hello { version: v, head: h }) == bytes@ implies packet@ == (
                Spelled::Hello { version: v, head: h }) by {
                    same_bytes_same_digest(h, head);
                }
            }
            Some(packet)
        },
        None => None,
    }
}

fn guess_split(bytes: &Vec<u8>) -> (packet: Option<Packet>)
    ensures
        forall|at: EnvelopeDigest| #[trigger]
            spelling(Spelled::Split { at }) == bytes@ ==> packet is Some && packet->0@ == (
            Spelled::Split { at }),
{
    proof {
        assert forall|at: EnvelopeDigest| #[trigger]
            spelling(Spelled::Split { at }) == bytes@ implies bytes@.len() == 38 && bytes@.subrange(
            6,
            38,
        ) == at.bytes@ by {
            assert(bytes@.subrange(6, 38) =~= at.bytes@);
        }
    }
    if bytes.len() != 38 {
        return None;
    }
    let at = read_digest(bytes, 4);
    proof {
        assert forall|other: EnvelopeDigest| #[trigger]
            spelling(Spelled::Split { at: other }) == bytes@ implies other == at by {
            same_bytes_same_digest(other, at);
        }
    }
    Some(Packet::Split(Split { at }))
}

fn guess_envelopes(bytes: &Vec<u8>) -> (packet: Option<Packet>)
    ensures
        forall|count: u64, encodings: Seq<u8>| #[trigger]
            spelling(Spelled::Envelopes { count, encodings }) == bytes@ ==> packet is Some
                && packet->0@ == (Spelled::Envelopes { count, encodings }),
{
    proof {
        assert forall|count: u64, encodings: Seq<u8>| #[trigger]
            spelling(Spelled::Envelopes { count, encodings }) == bytes@ implies bytes@.len() >= 5
            && carries(bytes@, 4, ARRAY, count as nat) && bytes@.skip(
            4 + item_head(ARRAY, count as nat).len() as int,
        ) == encodings by {
            let lead = item_head(ARRAY, count as nat);
            assert(lead.len() >= 1);
            assert(bytes@.subrange(4, 4 + lead.len() as int) =~= lead);
            assert(bytes@.skip(4 + lead.len() as int) =~= encodings);
        }
    }
    if bytes.len() < 5 {
        return None;
    }
    match read_head(bytes, 4, ARRAY) {
        Some((count, len)) => {
            let mut encodings: Vec<u8> = Vec::new();
            let start: usize = 4 + len;
            let mut i: usize = start;
            while i < bytes.len()
                invariant
                    start <= i <= bytes@.len(),
                    encodings@ == bytes@.subrange(start as int, i as int),
                decreases bytes@.len() - i,
            {
                encodings.push(bytes[i]);
                i += 1;
                assert(encodings@ =~= bytes@.subrange(start as int, i as int));
            }
            assert(encodings@ =~= bytes@.skip(start as int));
            Some(Packet::Envelopes { count, encodings })
        },
        None => None,
    }
}

/// So many digests are so many bytes long, and each stands in its place.
proof fn digests_stand_in_place(digests: Seq<EnvelopeDigest>)
    ensures
        spelled_digests(digests).len() == 34 * digests.len(),
        forall|i: int|
            0 <= i < digests.len() ==> spelled_digests(digests).subrange(34 * i + 2, 34 * i + 34)
                == (#[trigger] digests[i]).bytes@,
    decreases digests.len(),
{
    if digests.len() > 0 {
        let front = digests.drop_last();
        digests_stand_in_place(front);
        let all = spelled_digests(digests);
        assert forall|i: int| 0 <= i < digests.len() implies all.subrange(34 * i + 2, 34 * i + 34)
            == (#[trigger] digests[i]).bytes@ by {
            if i < front.len() {
                assert(front[i] == digests[i]);
                assert(all.subrange(34 * i + 2, 34 * i + 34) =~= spelled_digests(front).subrange(
                    34 * i + 2,
                    34 * i + 34,
                ));
            } else {
                assert(all.subrange(34 * i + 2, 34 * i + 34) =~= digests.last().bytes@);
            }
        }
    }
}

fn guess_find_split(bytes: &Vec<u8>) -> (packet: Option<Packet>)
    ensures
        forall|locator: Seq<EnvelopeDigest>|
            locator.len() <= usize::MAX && #[trigger] spelling(Spelled::FindSplit { locator })
                == bytes@ ==> packet is Some && packet->0@ == (Spelled::FindSplit { locator }),
{
    proof {
        assert forall|locator: Seq<EnvelopeDigest>|
            locator.len() <= usize::MAX && #[trigger] spelling(Spelled::FindSplit { locator })
                == bytes@ implies bytes@.len() >= 5 && carries(
            bytes@,
            4,
            ARRAY,
            locator.len(),
        ) && bytes@.skip(4 + item_head(ARRAY, locator.len()).len() as int) == spelled_digests(
            locator,
        ) by {
            let lead = item_head(ARRAY, locator.len());
            assert(lead.len() >= 1);
            assert(bytes@.subrange(4, 4 + lead.len() as int) =~= lead);
            assert(bytes@.skip(4 + lead.len() as int) =~= spelled_digests(locator));
        }
    }
    if bytes.len() < 5 {
        return None;
    }
    match read_head(bytes, 4, ARRAY) {
        Some((count, len)) => {
            let start: usize = 4 + len;
            let room: usize = (bytes.len() - start) / 34;
            if count != room as u64 || (bytes.len() - start) % 34 != 0 {
                proof {
                    assert forall|locator: Seq<EnvelopeDigest>|
                        locator.len() <= usize::MAX && #[trigger] spelling(
                            Spelled::FindSplit { locator },
                        ) == bytes@ implies false by {
                        digests_stand_in_place(locator);
                    }
                }
                return None;
            }
            let mut locator: Vec<EnvelopeDigest> = Vec::new();
            let end: usize = bytes.len();
            let mut i: usize = 0;
            while i < room
                invariant
                    i <= room,
                    start + 34 * room == end,
                    end == bytes@.len(),
                    locator@.len() == i,
                    forall|j: int|
                        0 <= j < i ==> (#[trigger] locator@[j]).bytes@ == bytes@.subrange(
                            start + 34 * j + 2,
                            start + 34 * j + 34,
                        ),
                decreases room - i,
            {
                assert(34 * i + 34 <= 34 * room) by (nonlinear_arith)
                    requires
                        i < room,
                ;
                locator.push(read_digest(bytes, start + 34 * i));
                i += 1;
            }
            proof {
                assert forall|other: Seq<EnvelopeDigest>|
                    other.len() <= usize::MAX && #[trigger] spelling(
                        Spelled::FindSplit { locator: other },
                    ) == bytes@ implies locator@ == other by {
                    digests_stand_in_place(other);
                    let rest = bytes@.skip(start as int);
                    assert forall|j: int| 0 <= j < other.len() implies locator@[j] == other[j] by {
                        assert(rest.subrange(34 * j + 2, 34 * j + 34) =~= bytes@.subrange(
                            start + 34 * j + 2,
                            start + 34 * j + 34,
                        ));
                        same_bytes_same_digest(locator@[j], other[j]);
                    }
                    assert(locator@ =~= other);
                }
            }
            Some(Packet::FindSplit(FindSplit { locator }))
        },
        None => None,
    }
}

} // verus!
