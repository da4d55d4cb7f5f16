//! The quit flag of the outermost driver loop.
//!
//! The loop itself — poll every pending task, run the externally registered
//! poll hooks, then exit if quitting was requested — is driven by the host
//! embedding, because the hooks are arbitrary host callbacks. What the
//! library owns is the flag's protocol: `quit` is a one-way request that is
//! checked once per cycle, so the loop always finishes the cycle that is in
//! progress before exiting.

use vstd::prelude::*;

verus! {

/// The control state of the outermost driver loop: a latch that records
/// whether the loop was asked to stop.
pub struct Loop {
    quit_flag: bool,
}

impl Loop {
    /// Whether the loop has been asked to stop.
    pub closed spec fn quit_requested(&self) -> bool {
        self.quit_flag
    }

    /// Creates the control state of a fresh loop, with no quit requested.
    pub fn new() -> (lp: Self)
        ensures
            !lp.quit_requested(),
    {
        Loop { quit_flag: false }
    }

    /// Requests that the loop stop. The request is permanent: the loop exits
    /// after completing the cycle during which it observes the flag.
    pub fn quit(&mut self)
        ensures
            final(self).quit_requested(),
    {
        self.quit_flag = true;
    }

    /// Reads the flag; the driver checks this once per cycle, after the
    /// cycle's work is done.
    pub fn should_quit(&self) -> (q: bool)
        ensures
            q == self.quit_requested(),
    {
        self.quit_flag
    }
}

impl Default for Loop {
    /// A fresh loop control state, identical to `Loop::new`.
    fn default() -> (lp: Self)
        ensures
            !lp.quit_requested(),
    {
        Loop::new()
    }
}

} // verus!
