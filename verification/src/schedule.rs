//! The daemon's periodic work: when to save state after a batch of changes,
//! when to decay heat, and when to drop old write timestamps. Times are
//! milliseconds on a monotonic clock; the caller reads the clock and does
//! the work.

use vstd::prelude::*;

verus! {

/// Milliseconds between state saves after batches of changes (a save is due
/// once more than this has passed).
pub const SAVE_INTERVAL_MS: u64 = 1000;

/// Milliseconds between clean-ups of old write timestamps.
pub const CLEANUP_INTERVAL_MS: u64 = 300000;

/// When each kind of periodic work last ran, and how often decay runs.
#[derive(PartialEq, Eq, Structural, Clone, Copy, Debug)]
pub struct Schedule {
    pub decay_interval_ms: u64,
    pub last_decay: u64,
    pub last_cleanup: u64,
    pub last_save: u64,
}

/// Time since `last`, or 0 when the clock reads earlier than `last`.
pub open spec fn elapsed(now: u64, last: u64) -> nat {
    if now >= last {
        (now - last) as nat
    } else {
        0
    }
}

fn elapsed_exec(now: u64, last: u64) -> (r: u64)
    ensures
        r == elapsed(now, last),
{
    if now >= last {
        now - last
    } else {
        0
    }
}

impl Schedule {
    /// Everything counts as having just run at `now`.
    pub fn start(now: u64, decay_interval_ms: u64) -> (r: Self)
        ensures
            r == (Schedule { decay_interval_ms, last_decay: now, last_cleanup: now, last_save: now }),
    {
        Schedule { decay_interval_ms, last_decay: now, last_cleanup: now, last_save: now }
    }

    /// After a batch of changes: whether to save state now, which is when
    /// more than a second has passed since the last save. A save restarts
    /// the count.
    pub fn save_due(&mut self, now: u64) -> (r: bool)
        ensures
            r == (elapsed(now, old(self).last_save) > SAVE_INTERVAL_MS),
            *final(self) == (if r {
                Schedule { last_save: now, ..*old(self) }
            } else {
                *old(self)
            }),
    {
        if elapsed_exec(now, self.last_save) > SAVE_INTERVAL_MS {
            self.last_save = now;
            true
        } else {
            false
        }
    }

    /// Whether heat decays now: once a full decay interval has passed since
    /// the last decay, which restarts the count.
    pub fn decay_due(&mut self, now: u64) -> (r: bool)
        ensures
            r == (elapsed(now, old(self).last_decay) >= old(self).decay_interval_ms),
            *final(self) == (if r {
                Schedule { last_decay: now, ..*old(self) }
            } else {
                *old(self)
            }),
    {
        if elapsed_exec(now, self.last_decay) >= self.decay_interval_ms {
            self.last_decay = now;
            true
        } else {
            false
        }
    }

    /// Whether old write timestamps are dropped now: once five minutes have
    /// passed since the last clean-up, which restarts the count.
    pub fn cleanup_due(&mut self, now: u64) -> (r: bool)
        ensures
            r == (elapsed(now, old(self).last_cleanup) >= CLEANUP_INTERVAL_MS),
            *final(self) == (if r {
                Schedule { last_cleanup: now, ..*old(self) }
            } else {
                *old(self)
            }),
    {
        if elapsed_exec(now, self.last_cleanup) >= CLEANUP_INTERVAL_MS {
            self.last_cleanup = now;
            true
        } else {
            false
        }
    }
}

/// Right after a decay, no other decay is due until a full interval has
/// passed again.
pub proof fn lemma_no_decay_twice(s: Schedule, now: u64, later: u64)
    requires
        now <= later,
        later - now < s.decay_interval_ms,
    ensures
        !(elapsed(later, Schedule { last_decay: now, ..s }.last_decay) >= s.decay_interval_ms),
{
}

} // verus!
