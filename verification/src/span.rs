//! What one downstream call came to.

use vstd::prelude::*;

verus! {

#[derive(Clone, Copy, Debug, PartialEq, Eq, Structural)]
pub enum CallOutcome {
    /// Answered in time.
    Success,
    Timeout,
    Error,
}

/// One downstream call, as the program reports it.
#[derive(Debug)]
pub struct CallSpan {
    pub downstream_id: String,
    pub attempt: u32,
    /// Time spent waiting for a capacity permit. Part of the call's latency.
    pub queue_wait_ns: u64,
    pub service_ns: u64,
    pub outcome: CallOutcome,
}

impl Clone for CallSpan {
    fn clone(&self) -> (r: Self)
        ensures
            r == *self,
    {
        CallSpan {
            downstream_id: self.downstream_id.clone(),
            attempt: self.attempt,
            queue_wait_ns: self.queue_wait_ns,
            service_ns: self.service_ns,
            outcome: self.outcome,
        }
    }
}

impl CallSpan {
    /// The latency of the call, queueing included.
    pub fn total_ns(&self) -> (r: u64)
        requires
            self.queue_wait_ns + self.service_ns <= u64::MAX,
        ensures
            r == self.queue_wait_ns + self.service_ns,
    {
        self.queue_wait_ns + self.service_ns
    }
}

} // verus!
