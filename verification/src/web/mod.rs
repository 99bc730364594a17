//! A web view onto a running daemon: what its pages show, and what its
//! requests mean.
//!
//! One page, a sidebar of namespaces beside a main pane, walked like a file
//! browser: a namespace opens at its root, every table key and array index
//! is a link one level down, and breadcrumbs lead back up. A ledger
//! location is spelled in the URL as it is on the command line, so a path
//! copied from one reads in the other.

pub mod chain;
pub mod error;
pub mod frame;
pub mod json;
pub mod laws;
pub mod location;
pub mod view;
pub mod walk;
pub mod write;
