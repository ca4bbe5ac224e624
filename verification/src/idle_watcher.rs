//! The idle watcher: a generic debounced idle-timeout detector.
//!
//! The runtime's worker races "an activity pulse arrives" against "the
//! idle duration elapses" and feeds whichever happened into this state
//! machine with the current time.  A pulse pushes the deadline out; when
//! the deadline passes, the callback is due exactly once and the timer is
//! rearmed from the moment it fired.  Pulses are best-effort: a dropped
//! pulse is harmless as long as any other pulse lands within the window.

use vstd::prelude::*;

verus! {

/// The state of one idle timer: the configured idle duration and the
/// moment the callback becomes due, both in milliseconds.
pub struct IdleWatcher {
    idle_ms: u64,
    deadline: u64,
}

impl IdleWatcher {
    /// The configured idle duration.
    pub closed spec fn idle_spec(&self) -> int {
        self.idle_ms as int
    }

    /// When the callback becomes due.
    pub closed spec fn deadline_spec(&self) -> int {
        self.deadline as int
    }

    /// A timer armed at `now` for the given idle duration.
    pub fn new(idle_ms: u64, now: u64) -> (r: Self)
        requires
            now + idle_ms <= u64::MAX,
        ensures
            r.idle_spec() == idle_ms,
            r.deadline_spec() == now + idle_ms,
    {
        IdleWatcher { idle_ms, deadline: now + idle_ms }
    }

    /// An activity pulse at `now`: the timer restarts, so the callback is
    /// not due before `now` plus the idle duration.
    pub fn pulse(&mut self, now: u64)
        requires
            now + old(self).idle_spec() <= u64::MAX,
        ensures
            final(self).idle_spec() == old(self).idle_spec(),
            final(self).deadline_spec() == now + old(self).idle_spec(),
    {
        self.deadline = now + self.idle_ms;
    }

    /// One timeout check at `now`: true exactly when the idle duration
    /// elapsed without a pulse, in which case the callback fires once and
    /// the timer rearms from `now`.
    pub fn check(&mut self, now: u64) -> (r: bool)
        requires
            now + old(self).idle_spec() <= u64::MAX,
        ensures
            final(self).idle_spec() == old(self).idle_spec(),
            r == (now >= old(self).deadline_spec()),
            r ==> final(self).deadline_spec() == now + old(self).idle_spec(),
            !r ==> final(self).deadline_spec() == old(self).deadline_spec(),
    {
        if now >= self.deadline {
            self.deadline = now + self.idle_ms;
            true
        } else {
            false
        }
    }
}

} // verus!
