//! The reconnection policy for a supervised transport: a bounded retry
//! count that resets after a sustained connection.

use vstd::prelude::*;

verus! {

/// How many consecutive short-lived attempts are made before giving up.
pub const MAX_RETRIES: u32 = 10;

/// Seconds to wait between attempts.
pub const RETRY_DELAY_SECS: u64 = 5;

/// A connection that lived at least this many seconds counts as
/// sustained, and resets the attempt count.
pub const RESET_THRESHOLD_SECS: u64 = 60;

/// The supervisor's state: which attempt comes next.
#[derive(Clone, Copy, PartialEq, Eq, Structural, Debug)]
pub struct RetryState {
    pub attempt: u32,
}

impl RetryState {
    /// The attempt count stays within the retry budget.
    pub open spec fn wf(&self) -> bool {
        1 <= self.attempt <= MAX_RETRIES
    }

    /// Before the first attempt.
    pub fn new() -> (r: RetryState)
        ensures
            r.wf(),
            r.attempt == 1,
    {
        RetryState { attempt: 1 }
    }

    /// Decides after a failed connection whether to try again: a
    /// sustained connection resets the count to one; otherwise the
    /// count grows, and past the budget the supervisor gives up.
    pub fn on_failure(&mut self, sustained: bool) -> (retry: bool)
        requires
            old(self).wf(),
        ensures
            final(self).attempt == if sustained {
                1u32
            } else {
                (old(self).attempt + 1) as u32
            },
            retry == (final(self).attempt <= MAX_RETRIES),
            retry ==> final(self).wf(),
    {
        if sustained {
            self.attempt = 1;
            true
        } else {
            self.attempt = self.attempt + 1;
            self.attempt <= MAX_RETRIES
        }
    }
}

} // verus!
