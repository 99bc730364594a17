//! Node-to-node sync: the messages peers exchange and the session machines
//! that speak them.
//!
//! Each node offers a peer exactly one thing: its own canonical path,
//! streamed parent-first from a point the peer already holds. The receiver
//! stores what applies, and fork resolution does all merging.
//!
//! The machines do no I/O. [`puller::Puller`] and [`server::Server`]
//! consume [`session::Input`]s and return [`session::Effect`]s; a driver
//! resolves the effects in order and feeds the next frame only once they
//! are resolved. An answer nothing asked for, a frame fed across an
//! unresolved effect, or any input after the session ended is a driver's
//! mistake, which the machines' contracts rule out. A peer that breaks the
//! protocol surfaces as [`session::Effect::Violation`].

use vstd::prelude::*;

pub mod encoding;
pub mod error;
pub mod frame;
pub mod items;
pub mod laws;
pub mod locator;
pub mod proto;
pub mod puller;
pub mod server;
pub mod session;
pub mod together;
pub mod trace;

verus! {

/// The protocol version spoken here. Peers must match it exactly.
pub const PROTOCOL_VERSION: u32 = 1;

/// The most envelopes one batch may carry.
pub const MAX_BATCH_ENVELOPES: u32 = 256;

/// The largest frame body either side will read or write.
pub const MAX_FRAME_LEN: u32 = 16_777_216;

/// The encoded-byte budget a segment must stay within, sized so a full
/// segment plus message overhead fits one frame.
pub const SEGMENT_BYTE_BUDGET: u32 = MAX_FRAME_LEN - 1024;

} // verus!
