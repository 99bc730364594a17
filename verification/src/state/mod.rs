//! Folding envelopes into state, and choosing between branches of them.

pub mod chain;
pub mod change;
pub mod converge;
pub mod error;
pub mod footing;
pub mod forks;
pub mod judge;
pub mod laws;
pub mod ledger;
pub mod movement;
pub mod nodes;
pub mod reserved;
pub mod rules;
pub mod told;
pub mod untouched;
pub mod verdict;
