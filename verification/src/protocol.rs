//! The per-derivation verification protocol and the discovery decision.
//!
//! Each fixed-output derivation goes through a strict two-pass protocol:
//! probe for the derivation on disk, re-instantiate it if it is gone,
//! classify its description, realize its output, re-realize in verify mode
//! to obtain the reproducibility verdict, then clean the protection roots
//! up. The machine here makes every decision; the surrounding binary only
//! performs the commands and feeds their outcomes back.

use vstd::prelude::*;

use crate::classify::fod_mark;
use crate::classify::is_fod;
use crate::store::DedupStore;

verus! {

/// The stages of the per-derivation verification protocol, in order.
#[derive(Clone, Copy, PartialEq, Eq, Structural, Debug)]
pub enum Step {
    /// Ask whether the derivation still exists on disk.
    Probe,
    /// Re-instantiate the missing derivation from its owning attribute.
    Reinstantiate,
    /// Read the derivation description and classify it.
    Classify,
    /// Realize the derivation's output under a dedicated protection root.
    Realise,
    /// Re-realize in verify mode and compare against the first realization.
    Check,
    /// Release the attribute root and delete the derivation root and output.
    Cleanup,
    /// Nothing is left to do.
    Done,
}

/// What the discovery phase does with one attribute once instantiation has
/// been attempted.
#[derive(Clone, Copy, PartialEq, Eq, Structural, Debug)]
pub enum DiscoveryAction {
    /// The derivation is new: collect its requisites and merge them.
    Expand,
    /// Another attribute already owns the derivation: drop the duplicate.
    SkipDuplicate,
    /// Instantiation failed: log and skip the attribute, non-fatally.
    SkipFailed,
}

/// The discovery decision for one attribute, over the store's mapping.
pub open spec fn discovery_action_spec(
    m: Map<Seq<u8>, Seq<u8>>,
    instantiated: Option<Seq<u8>>,
) -> DiscoveryAction {
    match instantiated {
        None => DiscoveryAction::SkipFailed,
        Some(d) => if m.contains_key(d) {
            DiscoveryAction::SkipDuplicate
        } else {
            DiscoveryAction::Expand
        },
    }
}

/// Decides what to do with one attribute whose instantiation either yielded
/// a derivation reference or failed.
pub fn discovery_action(store: &DedupStore, instantiated: Option<&Vec<u8>>) -> (a: DiscoveryAction)
    ensures
        a == discovery_action_spec(
            store.as_map(),
            (match instantiated {
                Some(d) => Some(d@),
                None => None,
            }),
        ),
{
    match instantiated {
        None => DiscoveryAction::SkipFailed,
        Some(d) => {
            if store.contains(d) {
                DiscoveryAction::SkipDuplicate
            } else {
                DiscoveryAction::Expand
            }
        },
    }
}

/// One derivation's walk through the verification protocol.
pub struct VerifyTask {
    /// The attribute recorded as owning the derivation.
    pub attr: Vec<u8>,
    /// The derivation reference under verification.
    pub drv: Vec<u8>,
    /// The stage the protocol is at.
    pub step: Step,
    /// The reproducibility verdict, once the verify pass has run.
    pub verdict: Option<bool>,
    /// The derivation description that was classified, if one was readable.
    pub seen: Ghost<Option<Seq<u8>>>,
}

impl VerifyTask {
    /// The stage the protocol is at.
    pub open spec fn step(&self) -> Step {
        self.step
    }

    /// The reproducibility verdict, once the verify pass has run.
    pub open spec fn verdict(&self) -> Option<bool> {
        self.verdict
    }

    /// The derivation description that was classified, if any was readable.
    pub open spec fn seen(&self) -> Option<Seq<u8>> {
        self.seen@
    }

    /// Whether the classified description declared an output hash.
    pub open spec fn classified_fod(&self) -> bool {
        match self.seen() {
            Some(c) => fod_mark(c),
            None => false,
        }
    }

    /// Protocol validity: a verdict exists only past the verify pass, and
    /// the realize, verify and cleanup stages are reached only for a
    /// derivation classified as fixed-output.
    pub open spec fn wf(&self) -> bool {
        match self.step() {
            Step::Probe | Step::Reinstantiate | Step::Classify => self.verdict().is_none()
                && self.seen().is_none(),
            Step::Realise | Step::Check => self.verdict().is_none() && self.classified_fod(),
            Step::Cleanup => self.verdict().is_some() && self.classified_fod(),
            Step::Done => self.verdict().is_some() ==> self.classified_fod(),
        }
    }

    /// Starts the protocol for one recorded derivation.
    pub fn new(attr: Vec<u8>, drv: Vec<u8>) -> (t: Self)
        ensures
            t.wf(),
            t.attr == attr,
            t.drv == drv,
            t.step() == Step::Probe,
            t.verdict().is_none(),
    {
        VerifyTask { attr, drv, step: Step::Probe, verdict: None, seen: Ghost(None) }
    }

    /// The stage the protocol is at, for the driving loop.
    pub fn current_step(&self) -> (s: Step)
        ensures
            s == self.step(),
    {
        self.step
    }

    /// The reproducibility verdict, absent where the protocol ended early.
    pub fn result(&self) -> (r: Option<bool>)
        ensures
            r == self.verdict(),
    {
        self.verdict
    }

    /// Consumes the probe outcome: a derivation still on disk goes straight
    /// to classification, a missing one is re-instantiated first.
    pub fn probe(&mut self, exists: bool)
        requires
            old(self).wf(),
            old(self).step() == Step::Probe,
        ensures
            final(self).wf(),
            final(self).attr == old(self).attr,
            final(self).drv == old(self).drv,
            final(self).verdict().is_none(),
            final(self).step() == (if exists {
                Step::Classify
            } else {
                Step::Reinstantiate
            }),
    {
        self.step = if exists {
            Step::Classify
        } else {
            Step::Reinstantiate
        };
    }

    /// Consumes the re-instantiation outcome. Failure is non-fatal: it is
    /// logged and classification proceeds against whatever is on disk.
    pub fn reinstantiated(&mut self, ok: bool)
        requires
            old(self).wf(),
            old(self).step() == Step::Reinstantiate,
        ensures
            final(self).wf(),
            final(self).attr == old(self).attr,
            final(self).drv == old(self).drv,
            final(self).verdict().is_none(),
            final(self).step() == Step::Classify,
    {
        let _ = ok;
        self.step = Step::Classify;
    }

    /// Consumes the derivation description, or `None` where it could not be
    /// read. Only a readable description declaring an output hash moves on
    /// to realization; everything else ends the task with no result, so an
    /// unreadable description never counts as needing a check.
    pub fn classify(&mut self, contents: Option<&Vec<u8>>)
        requires
            old(self).wf(),
            old(self).step() == Step::Classify,
        ensures
            final(self).wf(),
            final(self).attr == old(self).attr,
            final(self).drv == old(self).drv,
            final(self).verdict().is_none(),
            final(self).seen() == (match contents {
                Some(c) => Some(c@),
                None => None::<Seq<u8>>,
            }),
            final(self).step() == (match contents {
                Some(c) => if fod_mark(c@) {
                    Step::Realise
                } else {
                    Step::Done
                },
                None => Step::Done,
            }),
    {
        match contents {
            Some(c) => {
                self.seen = Ghost(Some(c@));
                self.step = if is_fod(c) {
                    Step::Realise
                } else {
                    Step::Done
                };
            },
            None => {
                self.seen = Ghost(None);
                self.step = Step::Done;
            },
        }
    }

    /// Consumes the realization outcome. Failure is non-fatal: the task
    /// ends with no result.
    pub fn realised(&mut self, ok: bool)
        requires
            old(self).wf(),
            old(self).step() == Step::Realise,
        ensures
            final(self).wf(),
            final(self).attr == old(self).attr,
            final(self).drv == old(self).drv,
            final(self).verdict().is_none(),
            final(self).step() == (if ok {
                Step::Check
            } else {
                Step::Done
            }),
    {
        self.step = if ok {
            Step::Check
        } else {
            Step::Done
        };
    }

    /// Consumes the verify pass's outcome: whether the second realization
    /// matched the first. This comparison is the reproducibility verdict.
    pub fn check(&mut self, reproduced: bool)
        requires
            old(self).wf(),
            old(self).step() == Step::Check,
        ensures
            final(self).wf(),
            final(self).attr == old(self).attr,
            final(self).drv == old(self).drv,
            final(self).step() == Step::Cleanup,
            final(self).verdict() == Some(reproduced),
    {
        self.verdict = Some(reproduced);
        self.step = Step::Cleanup;
    }

    /// Consumes the cleanup outcomes: whether the attribute root was
    /// released and the derivation root and output deleted. Either failure
    /// is non-fatal and leaves the verdict as it is.
    pub fn delete(&mut self, released: bool, deleted: bool) -> (clean: bool)
        requires
            old(self).wf(),
            old(self).step() == Step::Cleanup,
        ensures
            final(self).wf(),
            final(self).attr == old(self).attr,
            final(self).drv == old(self).drv,
            final(self).step() == Step::Done,
            final(self).verdict() == old(self).verdict(),
            clean == (released && deleted),
    {
        self.step = Step::Done;
        released && deleted
    }
}

/// Law: a task yields a verdict only when the derivation description it
/// classified declared an output hash, so no result is ever produced for a
/// derivation lacking one.
pub proof fn lemma_no_verdict_without_hash(t: &VerifyTask)
    requires
        t.wf(),
        t.verdict().is_some(),
    ensures
        t.seen().is_some(),
        fod_mark(t.seen().unwrap()),
{
}

/// Law: with a pre-seeded cache, a run never expands a cached derivation
/// again: discovery drops it as a duplicate, so its requisites are not
/// re-queried.
pub proof fn lemma_cached_not_expanded(
    cache: Map<Seq<u8>, Seq<u8>>,
    m: Map<Seq<u8>, Seq<u8>>,
    d: Seq<u8>,
)
    requires
        cache.submap_of(m),
        cache.contains_key(d),
    ensures
        discovery_action_spec(m, Some(d)) == DiscoveryAction::SkipDuplicate,
{
    assert(m.contains_key(d));
}

} // verus!
