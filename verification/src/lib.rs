//! Instruction-driven filesystem materializer.
//!
//! The library consumes a linear stream of structural commands describing a
//! hierarchical project tree, accumulates a sorted descriptor of that tree,
//! and emits requests for the filesystem work that a thin runner performs.
//! Every failure is recorded in an ordered error log instead of aborting, so
//! a large conversion job completes as far as possible.

pub mod convert;
pub mod filesystem;
pub mod json;
pub mod laws;
pub mod logging;
pub mod order;
pub mod protocol;
