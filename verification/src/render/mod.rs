//! How an envelope is shown to a person.
//!
//! One rendering, shared by everything that prints envelopes. A
//! [`envelope::Render`] is built up with whatever context the caller has,
//! which digests to mark, where the envelopes came from, whether to colour
//! them, and then writes stanzas.

pub mod envelope;
pub mod laws;
pub mod literal;
pub mod preview;
pub mod style;
pub mod value;
pub mod width;
