//! Per-address attack state.
//!
//! Times are milliseconds on a monotonic clock; a caller supplies the
//! current time, the library never reads a clock itself.

use vstd::prelude::*;

verus! {

/// A source address, IPv4 or IPv6, held as its numeric value.
#[derive(Clone, Copy, PartialEq, Eq, Structural, Hash, Debug)]
pub enum Address {
    V4(u32),
    V6(u128),
}

/// State kept for one source address: how many failed attempts were seen
/// inside the current attempt window, and when the address was last seen.
#[derive(Clone, Copy, PartialEq, Eq, Structural, Debug)]
pub struct AttackerInfo {
    /// Number of failed attempts since the last eviction.
    pub attempts: u32,
    /// Timestamp (monotonic milliseconds) of the most recent attempt, or of
    /// creation if no attempt was recorded yet.
    pub last_seen: u64,
}

/// The state after eviction: attempts are reset when the address was last
/// seen strictly before the cutoff; `last_seen` is kept as the record of
/// last contact.
pub open spec fn spec_evicted(s: AttackerInfo, cutoff: u64) -> AttackerInfo {
    if s.last_seen < cutoff {
        AttackerInfo { attempts: 0, last_seen: s.last_seen }
    } else {
        s
    }
}

/// The state after one recorded attempt at time `now`.
pub open spec fn spec_recorded(s: AttackerInfo, now: u64) -> AttackerInfo
    recommends
        s.attempts < u32::MAX,
{
    AttackerInfo { attempts: (s.attempts + 1) as u32, last_seen: now }
}

impl AttackerInfo {
    /// Return a new attacker record with no attempts, last seen at
    /// `timestamp` if one is given, else at `now`.
    pub fn new(timestamp: Option<u64>, now: u64) -> (r: Self)
        ensures
            r.attempts == 0,
            r.last_seen == (match timestamp {
                Some(t) => t,
                None => now,
            }),
    {
        Self {
            attempts: 0,
            last_seen: match timestamp {
                Some(t) => t,
                None => now,
            },
        }
    }

    /// Record a new failed attempt observed at time `now` and return the
    /// updated attempt count.
    pub fn record_attempt(&mut self, now: u64) -> (r: u32)
        requires
            old(self).attempts < u32::MAX,
        ensures
            *final(self) == spec_recorded(*old(self), now),
            r == final(self).attempts,
    {
        self.attempts = self.attempts + 1;
        self.last_seen = now;
        self.attempts
    }

    /// Reset the attempt count if the address was last seen strictly before
    /// `cutoff`; `last_seen` itself is never changed here.
    pub fn evict_old_attempts(&mut self, cutoff: u64)
        ensures
            *final(self) == spec_evicted(*old(self), cutoff),
    {
        if self.last_seen < cutoff {
            self.attempts = 0;
        }
    }
}

} // verus!
