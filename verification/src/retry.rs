//! Control state of the bounded-retry loop that wraps every remote call.
//!
//! The loop itself is run by the caller (it involves the actual remote call
//! and a sleep, which the library does not perform); the budget accounting
//! and the retry/give-up decision live here.

use vstd::prelude::*;

verus! {

/// Total number of attempts one remote operation is given before its last
/// error is surfaced to the caller.
pub const MAX_ATTEMPTS: u32 = 5;

/// Fixed number of seconds to wait between two attempts of one remote
/// operation. No jitter, no exponential growth.
pub const BACKOFF_SECS: u64 = 10;

/// Retry budget for a single remote operation: how many attempts are still
/// allowed, counting the one about to be made.
pub struct RetryState {
    pub remaining: u32,
}

impl RetryState {
    /// A fresh budget: all `MAX_ATTEMPTS` attempts are still available.
    pub fn new() -> (r: RetryState)
        ensures
            r.remaining == MAX_ATTEMPTS,
    {
        RetryState { remaining: MAX_ATTEMPTS }
    }

    /// Record that the attempt just made failed. Returns `true` when another
    /// attempt may be made (after the fixed backoff), `false` when the budget
    /// is exhausted and the last error must be surfaced. After `MAX_ATTEMPTS`
    /// consecutive failures no further attempt is allowed.
    pub fn on_failure(&mut self) -> (retry: bool)
        ensures
            retry == (old(self).remaining > 1),
            old(self).remaining > 1 ==> final(self).remaining == old(self).remaining - 1,
            old(self).remaining <= 1 ==> final(self).remaining == 0,
    {
        if self.remaining > 1 {
            self.remaining = self.remaining - 1;
            true
        } else {
            self.remaining = 0;
            false
        }
    }

    /// Seconds to sleep before the next attempt.
    pub fn backoff_secs(&self) -> (r: u64)
        ensures
            r == BACKOFF_SECS,
    {
        BACKOFF_SECS
    }
}

} // verus!
