//! A replicated ledger of namespaced values.

use vstd::prelude::*;

pub mod digest;
pub mod envelope;
pub mod msg;
pub mod order;
pub mod path;
pub mod reading;
pub mod render;
pub mod state;
pub mod storage;
pub mod subkey;
pub mod sync;
pub mod text;
pub mod tree;
pub mod value;
pub mod version;
pub mod web;

verus! {

}
