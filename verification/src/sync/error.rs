//! What moving frames on and off the wire can fail with.

use vstd::prelude::*;

use crate::envelope::WireError;
use crate::sync::MAX_FRAME_LEN;
use crate::text::{append, append_decimal, decimal, text_of};

verus! {

/// What moving frames on and off the wire can fail with. A peer that
/// misbehaves at the protocol level surfaces as a violation instead.
#[derive(Debug, Clone, Copy, PartialEq, Eq, Structural)]
pub enum Error {
    /// A message failed to encode or decode.
    Wire(WireError),
    /// A frame longer than [`MAX_FRAME_LEN`]; holds the claimed length.
    FrameTooLarge(u64),
}

/// How an error reads.
pub open spec fn error_text(error: Error) -> Seq<char> {
    match error {
        Error::Wire(_) => "message codec"@,
        Error::FrameTooLarge(len) => "a frame of "@ + decimal(len as nat) + " bytes exceeds the "@
            + decimal(MAX_FRAME_LEN as nat) + "-byte cap"@,
    }
}

impl Error {
    /// The error as a line of text.
    pub fn text(&self) -> (text: String)
        ensures
            text@ == error_text(*self),
    {
        let mut chars: Vec<char> = Vec::new();
        match self {
            Error::Wire(_) => {
                append(&mut chars, "message codec");
            },
            Error::FrameTooLarge(len) => {
                append(&mut chars, "a frame of ");
                append_decimal(&mut chars, *len);
                append(&mut chars, " bytes exceeds the ");
                append_decimal(&mut chars, MAX_FRAME_LEN as u64);
                append(&mut chars, "-byte cap");
            },
        }
        assert(chars@ =~= error_text(*self));
        text_of(&chars)
    }
}

} // verus!
