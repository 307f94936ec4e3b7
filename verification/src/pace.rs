//! When to look at the repository again.

use vstd::prelude::*;

verus! {

/// Milliseconds from the first sign of a change to the next look.
pub const DEBOUNCE_MS: u64 = 250;

/// The least number of milliseconds between two looks when nothing seems to change.
pub const MIN_POLL_MS: u64 = 500;

/// When the repository was looked at last, and since when a change has been pending, in
/// milliseconds.
#[derive(Clone, Copy, Debug)]
pub struct Pace {
    pub last_refresh: u64,
    pub pending: Option<u64>,
}

/// The milliseconds between two looks for a configured number.
pub open spec fn poll_interval(poll_ms: u64) -> u64 {
    if poll_ms < MIN_POLL_MS {
        MIN_POLL_MS
    } else {
        poll_ms
    }
}

/// The milliseconds between two looks for a configured number.
pub fn poll_every(poll_ms: u64) -> (r: u64)
    ensures
        r == poll_interval(poll_ms),
{
    if poll_ms < MIN_POLL_MS {
        MIN_POLL_MS
    } else {
        poll_ms
    }
}

/// The milliseconds from `then` to `now`.
pub open spec fn since(then: u64, now: u64) -> nat {
    if then <= now {
        (now - then) as nat
    } else {
        0
    }
}

/// Since when a change has been pending, after a look for signs of one.
pub open spec fn noted(pending: Option<u64>, now: u64, dirty: bool) -> Option<u64> {
    if dirty && pending is None {
        Some(now)
    } else {
        pending
    }
}

/// Whether it is time to look: a change has been pending long enough, or the last look is too
/// long ago.
pub open spec fn due(p: Pace, now: u64, dirty: bool, poll_ms: u64) -> bool {
    ||| noted(p.pending, now, dirty) matches Some(t) && since(t, now) >= DEBOUNCE_MS
    ||| since(p.last_refresh, now) >= poll_interval(poll_ms)
}

impl Pace {
    /// The pace right after a look.
    pub fn new(now: u64) -> (r: Pace)
        ensures
            r == (Pace { last_refresh: now, pending: None }),
    {
        Pace { last_refresh: now, pending: None }
    }

    /// Note whether there was a sign of a change, and tell whether to look now.
    pub fn tick(&mut self, now: u64, dirty: bool, poll_ms: u64) -> (r: bool)
        ensures
            r == due(*old(self), now, dirty, poll_ms),
            *final(self) == (Pace { pending: noted(old(self).pending, now, dirty), ..*old(self) }),
    {
        if dirty && self.pending.is_none() {
            self.pending = Some(now);
        }
        let fs_due = match self.pending {
            Some(t) => now.saturating_sub(t) >= DEBOUNCE_MS,
            None => false,
        };
        let poll_due = now.saturating_sub(self.last_refresh) >= poll_every(poll_ms);
        fs_due || poll_due
    }

    /// Note that the repository was looked at.
    pub fn refreshed(&mut self, now: u64)
        ensures
            *final(self) == (Pace { last_refresh: now, pending: None }),
    {
        self.pending = None;
        self.last_refresh = now;
    }
}

/// A change is seen to: from a quarter of a second after its first sign on, it is time to look,
/// whatever signs there are in between.
pub proof fn law_change_is_seen_to(p: Pace, now: u64, dirty: bool, poll_ms: u64)
    requires
        p.pending matches Some(t) && t + DEBOUNCE_MS <= now,
    ensures
        due(p, now, dirty, poll_ms),
{
}

/// Without a sign of a change, no two looks are less than half a second apart.
pub proof fn law_quiet_polling(last: u64, now: u64, poll_ms: u64)
    requires
        now < last + MIN_POLL_MS,
    ensures
        !due(Pace { last_refresh: last, pending: None }, now, false, poll_ms),
{
}

} // verus!
