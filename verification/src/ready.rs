//! The readiness handshake.
//!
//! A peer that has started is not yet a peer that listens: it says so by a
//! marker file, and whoever needs it looks for the marker.

use vstd::prelude::*;

verus! {

/// How often to look for the marker before giving up.
pub const ATTEMPTS: u32 = 300;

/// How long to wait between two looks: 100 milliseconds.
pub const PAUSE_NS: u64 = 100_000_000;

/// What to do after a look at the marker.
#[derive(Clone, Copy, Debug, PartialEq, Eq, Structural)]
pub enum Wait {
    Ready,
    /// Look again after the pause.
    Again,
    TimedOut,
}

/// What to do after the `attempt`th look, counted from 0.
pub open spec fn look(attempt: u32, marker_exists: bool) -> Wait {
    if attempt >= ATTEMPTS {
        Wait::TimedOut
    } else if marker_exists {
        Wait::Ready
    } else {
        Wait::Again
    }
}

/// What to do after the `attempt`th look, counted from 0.
pub fn after_look(attempt: u32, marker_exists: bool) -> (r: Wait)
    ensures
        r == look(attempt, marker_exists),
{
    if attempt >= ATTEMPTS {
        Wait::TimedOut
    } else if marker_exists {
        Wait::Ready
    } else {
        Wait::Again
    }
}

/// How an input or output operation failed.
#[derive(Clone, Copy, Debug, PartialEq, Eq, Structural)]
pub enum IoFailure {
    UnexpectedEof,
    BrokenPipe,
    Other,
}

/// Whether an error means that the peer is gone. A peer that closes at the end
/// of a run is normal, and not worth reporting. `None` stands for an error
/// that is not one of input or output.
pub fn is_disconnect(failure: Option<IoFailure>) -> (r: bool)
    ensures
        r == (failure == Some(IoFailure::UnexpectedEof) || failure == Some(IoFailure::BrokenPipe)),
{
    match failure {
        Some(IoFailure::UnexpectedEof) => true,
        Some(IoFailure::BrokenPipe) => true,
        _ => false,
    }
}

/// The wait for a peer lasts half a minute, and no longer: it ends at the first
/// look that finds the marker, or once these looks have come to nothing.
pub proof fn lemma_half_a_minute(attempt: u32, marker_exists: bool)
    ensures
        look(attempt, marker_exists) == Wait::TimedOut <==> attempt >= 300,
        look(attempt, marker_exists) == Wait::TimedOut <==> attempt * PAUSE_NS >= 30_000_000_000,
        look(attempt, marker_exists) == Wait::Ready <==> attempt * PAUSE_NS < 30_000_000_000
            && marker_exists,
        look(attempt, marker_exists) == Wait::Again <==> attempt * PAUSE_NS < 30_000_000_000
            && !marker_exists,
{
}

} // verus!
