//! Length-prefixed framing.
//!
//! A frame is a four-byte big-endian length followed by that many bytes.
//! The prefix bounds what a peer can make us allocate: a frame claiming
//! more than [`MAX_FRAME_LEN`] is an error, not a large read.

use vstd::arithmetic::div_mod::lemma_div_denominator;
use vstd::prelude::*;

use crate::sync::error::Error;
use crate::sync::MAX_FRAME_LEN;

verus! {

/// Frames message bodies on and off a byte stream.
#[derive(Debug, Clone, Copy, PartialEq, Eq, Structural, Default)]
pub struct Codec;

/// The number four bytes spell, the highest first.
pub open spec fn big_endian(bytes: Seq<u8>) -> nat
    recommends
        bytes.len() == 4,
{
    (bytes[0] * 0x100_0000 + bytes[1] * 0x1_0000 + bytes[2] * 0x100 + bytes[3]) as nat
}

/// The four bytes that spell `n`, the highest first.
pub open spec fn prefix(n: nat) -> Seq<u8> {
    seq![
        (n / 0x100_0000 % 0x100) as u8,
        (n / 0x1_0000 % 0x100) as u8,
        (n / 0x100 % 0x100) as u8,
        (n % 0x100) as u8,
    ]
}

/// A body with its length before it.
pub open spec fn framed(body: Seq<u8>) -> Seq<u8> {
    prefix(body.len()) + body
}

/// What the front of `bytes` holds.
pub enum Front {
    /// Not a whole frame yet.
    Partial,
    /// A frame that claims to be longer than a frame may be.
    TooLarge(nat),
    /// A whole frame with this body.
    Whole(Seq<u8>),
}

/// What the front of `bytes` holds.
pub open spec fn front(bytes: Seq<u8>) -> Front {
    if bytes.len() < 4 {
        Front::Partial
    } else {
        let len = big_endian(bytes.take(4));
        if len > MAX_FRAME_LEN {
            Front::TooLarge(len)
        } else if bytes.len() < 4 + len {
            Front::Partial
        } else {
            Front::Whole(bytes.subrange(4, 4 + len as int))
        }
    }
}

/// The bytes of `bytes` from `start` to `end`.
fn copy_range(bytes: &Vec<u8>, start: usize, end: usize) -> (copy: Vec<u8>)
    requires
        start <= end <= bytes@.len(),
    ensures
        copy@ == bytes@.subrange(start as int, end as int),
{
    let mut copy: Vec<u8> = Vec::new();
    let mut i: usize = start;
    while i < end
        invariant
            start <= i <= end <= bytes@.len(),
            copy@ == bytes@.subrange(start as int, i as int),
        decreases end - i,
    {
        copy.push(bytes[i]);
        i += 1;
        assert(copy@ =~= bytes@.subrange(start as int, i as int));
    }
    copy
}

impl Codec {
    /// Takes one whole frame off the front of `src` and hands its body out;
    /// `None` while there is none yet, which leaves `src` alone.
    pub fn decode(&mut self, src: &mut Vec<u8>) -> (body: Result<Option<Vec<u8>>, Error>)
        ensures
            match (front(old(src)@), body) {
                (Front::Partial, Ok(None)) => final(src)@ == old(src)@,
                (Front::TooLarge(len), Err(Error::FrameTooLarge(claimed))) => claimed == len
                    && final(src)@ == old(src)@,
                (Front::Whole(whole), Ok(Some(body))) => body@ == whole && final(src)@ == old(
                    src,
                )@.skip(4 + whole.len() as int),
                _ => false,
            },
    {
        if src.len() < 4 {
            return Ok(None);
        }
        let len: u32 = src[0] as u32 * 0x100_0000 + src[1] as u32 * 0x1_0000 + src[2] as u32 * 0x100
            + src[3] as u32;
        assert(len == big_endian(src@.take(4)));
        if len > MAX_FRAME_LEN {
            return Err(Error::FrameTooLarge(len as u64));
        }
        let frame: usize = 4 + len as usize;
        if src.len() < frame {
            return Ok(None);
        }
        let body = copy_range(src, 4, frame);
        let rest = copy_range(src, frame, src.len());
        assert(rest@ =~= src@.skip(frame as int));
        *src = rest;
        Ok(Some(body))
    }

    /// Writes `body` to the end of `dst` as a frame; one too large to frame
    /// is refused, with nothing written.
    pub fn encode(&mut self, body: &Vec<u8>, dst: &mut Vec<u8>) -> (written: Result<(), Error>)
        ensures
            match written {
                Ok(_) => body@.len() <= MAX_FRAME_LEN && final(dst)@ == old(dst)@ + framed(body@),
                Err(error) => {
                    &&& body@.len() > MAX_FRAME_LEN
                    &&& error == Error::FrameTooLarge(body@.len() as u64)
                    &&& final(dst)@ == old(dst)@
                },
            },
    {
        if body.len() > MAX_FRAME_LEN as usize {
            return Err(Error::FrameTooLarge(body.len() as u64));
        }
        let ghost before = dst@;
        let len: u32 = body.len() as u32;
        dst.push((len / 0x100_0000 % 0x100) as u8);
        dst.push((len / 0x1_0000 % 0x100) as u8);
        dst.push((len / 0x100 % 0x100) as u8);
        dst.push((len % 0x100) as u8);
        assert(dst@ =~= before + prefix(body@.len()));
        let mut i: usize = 0;
        assert(body@.take(0) =~= Seq::<u8>::empty());
        while i < body.len()
            invariant
                i <= body@.len(),
                dst@ == before + prefix(body@.len()) + body@.take(i as int),
            decreases body@.len() - i,
        {
            dst.push(body[i]);
            i += 1;
            assert(body@.take(i as int) =~= body@.take(i - 1).push(body@[i - 1]));
            assert(dst@ =~= before + prefix(body@.len()) + body@.take(i as int));
        }
        assert(body@.take(i as int) =~= body@);
        assert(dst@ =~= before + framed(body@));
        Ok(())
    }
}

/// A prefix spells the number it was written for.
proof fn prefix_reads_back(n: nat)
    requires
        n <= u32::MAX,
    ensures
        big_endian(prefix(n)) == n,
{
    let q = n / 0x100;
    let r = q / 0x100;
    lemma_div_denominator(n as int, 0x100, 0x100);
    lemma_div_denominator(n as int, 0x1_0000, 0x100);
    assert(n / 0x1_0000 == r);
    assert(n / 0x100_0000 == r / 0x100);
    let bytes = prefix(n);
    assert(bytes[0] == r / 0x100);
    assert(bytes[1] == r % 0x100);
    assert(bytes[2] == q % 0x100);
    assert(bytes[3] == n % 0x100);
}

/// A frame reads back as the body it was written from, whatever follows it;
/// frames back to back come off one at a time.
pub proof fn a_frame_reads_back(body: Seq<u8>, rest: Seq<u8>)
    requires
        body.len() <= MAX_FRAME_LEN,
    ensures
        front(framed(body) + rest) == Front::Whole(body),
        (framed(body) + rest).skip(4 + body.len() as int) == rest,
{
    let bytes = framed(body) + rest;
    prefix_reads_back(body.len());
    assert(bytes.take(4) =~= prefix(body.len()));
    assert(bytes.subrange(4, 4 + body.len() as int) =~= body);
    assert(bytes.skip(4 + body.len() as int) =~= rest);
}

/// Anything short of a whole frame is waited for.
pub proof fn a_partial_frame_waits(body: Seq<u8>, n: int)
    requires
        body.len() <= MAX_FRAME_LEN,
        0 <= n < framed(body).len(),
    ensures
        front(framed(body).take(n)) == Front::Partial,
{
    let bytes = framed(body).take(n);
    if n >= 4 {
        prefix_reads_back(body.len());
        assert(bytes.take(4) =~= prefix(body.len()));
    }
}

} // verus!
