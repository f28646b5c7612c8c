//! Core engine of a game-version launcher: it discovers which versions are
//! installed locally, merges that with the list published by the remote
//! distribution service, and resolves one version's manifest into the
//! concrete set of artifacts a launch needs.
//!
//! Network and filesystem access live outside this crate; every function
//! here is a pure, verified computation over plain values.

pub mod catalog;
pub mod resolve;
pub mod scan;
pub mod text_order;
