//! Per-request records. Everything is logged, and aggregated later.
//!
//! All times are nanoseconds since the start of the run.

use vstd::prelude::*;

use crate::binary64::Binary64;
use crate::clock::duration_to_ms;
use crate::clock::elapsed;
use crate::clock::ns_to_ms;
use crate::span::CallSpan;

verus! {

#[derive(Clone, Copy, Debug, PartialEq, Eq, Structural)]
pub enum Outcome {
    /// Completed by the deadline, required work done, digest matched.
    Success,
    /// Completed after the deadline.
    Expired,
    /// On time, but the digest did not match or required work was skipped.
    Incorrect,
    /// The service returned an error.
    Error,
    /// The service refused the request.
    Dropped,
    /// Nothing came back by the end of the run. Recorded, never left out.
    NeverServed,
}

impl Outcome {
    pub fn is_ok(self) -> (r: bool)
        ensures
            r == (self == Outcome::Success),
    {
        match self {
            Outcome::Success => true,
            _ => false,
        }
    }
}

#[derive(Debug)]
pub struct RequestRecord {
    pub request_id: u64,
    pub class: String,
    pub intended_dispatch_ns: u64,
    pub actual_dispatch_ns: u64,
    /// The intended dispatch plus the budget: a generator that lags gives the
    /// service no extra time.
    pub deadline_ns: u64,
    pub first_byte_ns: Option<u64>,
    pub completion_ns: Option<u64>,
    pub outcome: Outcome,
    pub expired: bool,
    /// The arrival rate at the intended dispatch.
    pub offered_load_rps: Binary64,
    pub response_digest: Option<u64>,
    pub digest_ok: Option<bool>,
    pub required_calls_met: bool,
    pub spans: Vec<CallSpan>,
    /// 0 if dispatched on time.
    pub late_dispatch_ns: u64,
}

impl RequestRecord {
    /// Latency from the intended dispatch, where the request completed.
    pub open spec fn latency(self) -> Option<nat> {
        match self.completion_ns {
            Some(c) => Some(elapsed(self.intended_dispatch_ns as nat, c as nat)),
            None => None,
        }
    }

    /// Latency from the intended dispatch. `None` if the request never
    /// completed.
    pub fn e2e_ns(&self) -> (r: Option<u64>)
        ensures
            match r {
                Some(ns) => self.latency() == Some(ns as nat),
                None => self.latency() is None,
            },
    {
        match self.completion_ns {
            Some(c) => Some(
                if c > self.intended_dispatch_ns {
                    c - self.intended_dispatch_ns
                } else {
                    0
                },
            ),
            None => None,
        }
    }

    /// What this request adds to the latency population.
    pub open spec fn scored(self, penalty_ms: Binary64) -> Binary64 {
        if self.outcome == Outcome::Success {
            match self.latency() {
                Some(ns) => ns_to_ms(ns),
                None => penalty_ms,
            }
        } else {
            penalty_ms
        }
    }

    /// What this request adds to the latency population. Every request adds
    /// something: a percentile over successes alone is won by failing the slow
    /// ones.
    pub fn scored_latency_ms(&self, penalty_ms: Binary64) -> (r: Binary64)
        ensures
            r == self.scored(penalty_ms),
    {
        if self.outcome.is_ok() {
            match self.e2e_ns() {
                Some(ns) => duration_to_ms(ns),
                None => penalty_ms,
            }
        } else {
            penalty_ms
        }
    }
}

/// Whatever a request did, unless it succeeded it scores the penalty.
pub proof fn lemma_failure_scores_penalty(r: RequestRecord, penalty_ms: Binary64)
    requires
        r.outcome != Outcome::Success,
    ensures
        r.scored(penalty_ms) == penalty_ms,
{
}

/// Latency counts from the intended dispatch: where the generator lags, it is
/// never less than what the service itself took.
pub proof fn lemma_lag_counts(r: RequestRecord)
    requires
        r.intended_dispatch_ns <= r.actual_dispatch_ns,
        r.completion_ns is Some,
    ensures
        r.latency()->0 >= elapsed(r.actual_dispatch_ns as nat, r.completion_ns->0 as nat),
{
}

/// Written once per run beside the log.
#[derive(Clone, Debug)]
pub struct RunManifest {
    pub scenario_id: String,
    /// Path of the scenario file as given: what was run, where `scenario_id`
    /// is a label that the file sets about itself.
    pub scenario_path: String,
    pub seed: u64,
    pub git_sha: Option<String>,
    /// SHA-256 of the program's source file, or `unknown`.
    pub program_sha256: String,
    /// Whether the tree had uncommitted changes.
    pub git_dirty: bool,
    /// The branch name. `None` on a detached head or outside a checkout.
    pub program_variant: Option<String>,
    /// `linux-pinned` or `unpinned`.
    pub environment: String,
    pub cpuset: Option<String>,
    pub worker_threads: Option<usize>,
    pub kernel: Option<String>,
    pub budget_ms: Binary64,
    pub penalty_ms: Binary64,
    pub warmup_s: Binary64,
    pub duration_s: Binary64,
    pub scheduled_requests: usize,
    pub late_dispatches: usize,
    pub coordinated_omission_failure: bool,
}

impl RunManifest {
    /// Only a pinned run is quoted as a result.
    pub fn is_authoritative(&self) -> (r: bool)
        ensures
            r == (self.environment@ == "linux-pinned"@),
    {
        self.environment == "linux-pinned".to_owned()
    }
}

} // verus!
