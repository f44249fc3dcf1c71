//! The two error tiers of a run. A fatal failure aborts the whole run and
//! the process exits with code 1; a non-fatal one is logged to standard
//! error, the affected attribute or derivation is skipped, and the run
//! continues, so one bad item never prevents reporting on the rest.

use vstd::prelude::*;

verus! {

/// Everything that can go wrong during a run.
#[derive(Clone, Copy, PartialEq, Eq, Structural, Debug)]
pub enum Failure {
    /// The package tree's attributes could not be enumerated.
    Enumeration,
    /// The derivation cache file could not be read.
    CacheRead,
    /// The derivation cache file could not be deserialized.
    CacheParse,
    /// The updated derivation cache could not be written back.
    CacheWrite,
    /// One attribute could not be instantiated or evaluated.
    Instantiate,
    /// One derivation's requisite closure could not be queried.
    Requisites,
    /// One derivation's output could not be realized.
    Realise,
    /// One attribute's protection root could not be released.
    Release,
    /// One derivation's protection root or output could not be deleted.
    Delete,
    /// One derivation's description could not be read or parsed.
    Classify,
}

/// Whether the failure aborts the whole run: only enumeration failure and
/// cache I/O failure do; every per-item failure is logged and skipped.
pub open spec fn fatal(f: Failure) -> bool {
    match f {
        Failure::Enumeration | Failure::CacheRead | Failure::CacheParse
            | Failure::CacheWrite => true,
        Failure::Instantiate | Failure::Requisites | Failure::Realise | Failure::Release
            | Failure::Delete | Failure::Classify => false,
    }
}

/// Decides whether the failure must abort the run.
pub fn is_fatal(f: &Failure) -> (r: bool)
    ensures
        r == fatal(*f),
{
    match f {
        Failure::Enumeration | Failure::CacheRead | Failure::CacheParse
            | Failure::CacheWrite => true,
        Failure::Instantiate | Failure::Requisites | Failure::Realise | Failure::Release
            | Failure::Delete | Failure::Classify => false,
    }
}

/// The process exit code: 1 after a fatal failure, else 0 — a run that
/// merely found non-reproducible derivations still exits 0.
pub fn exit_code(failed: Option<&Failure>) -> (c: i32)
    ensures
        c == (match failed {
            Some(f) => if fatal(*f) {
                1int
            } else {
                0int
            },
            None => 0int,
        }),
{
    match failed {
        Some(f) => {
            if is_fatal(f) {
                1
            } else {
                0
            }
        },
        None => 0,
    }
}

} // verus!
