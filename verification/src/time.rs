//! A polled timer: a suspension point that resolves once a deadline passes.
//!
//! No timer thread or interrupt is involved. The deadline is captured when
//! the `Sleep` is created, and every poll compares a caller-supplied clock
//! reading against it, so resolution is bounded by how often the scheduler's
//! poll cycle runs. Instants are plain milliseconds from whatever epoch the
//! caller's monotonic clock uses; the host embedding reads the clock and
//! hands the readings in.

use vstd::prelude::*;

verus! {

/// A suspension point that completes once a deadline has passed.
pub struct Sleep {
    deadline: u64,
}

impl Sleep {
    /// The absolute instant, in milliseconds, at which this sleep completes.
    pub closed spec fn deadline(&self) -> u64 {
        self.deadline
    }

    /// Reports whether the deadline has been reached at clock reading `now`:
    /// ready exactly when `now` is at or past the deadline.
    pub fn poll(&self, now: u64) -> (ready: bool)
        ensures
            ready == (now >= self.deadline()),
    {
        now >= self.deadline
    }
}

/// Creates a `Sleep` that completes `duration` milliseconds after the clock
/// reading `now`, saturating at the largest representable instant.
pub fn sleep(duration: u64, now: u64) -> (s: Sleep)
    ensures
        s.deadline() == if now + duration <= u64::MAX {
            (now + duration) as u64
        } else {
            u64::MAX
        },
{
    if now <= u64::MAX - duration {
        Sleep { deadline: now + duration }
    } else {
        Sleep { deadline: u64::MAX }
    }
}

} // verus!
