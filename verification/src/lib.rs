//! Audits a package collection's build graph for non-reproducible
//! fixed-output derivations: build steps pinned to a declared content hash.
//!
//! This crate holds the verified core: attribute-output parsing, the
//! deduplicating derivation store, the fixed-output classifier, the
//! persistent-cache codec, the per-derivation verification protocol, and
//! the result aggregator. Running the build engine's commands is left to
//! the surrounding binary, which feeds their outcomes to this core.

pub mod bytes;
pub mod cache;
pub mod classify;
pub mod lines;
pub mod outcome;
pub mod paths;
pub mod protocol;
pub mod report;
pub mod store;
