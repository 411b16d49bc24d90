//! Escalation policy: pure decisions over an attacker's state and the
//! process-wide policy constants.

use vstd::prelude::*;
use vstd::arithmetic::power2::pow2;
use vstd::arithmetic::power2::lemma2_to64;
use vstd::arithmetic::power2::lemma_pow2_unfold;
use crate::attack::AttackerInfo;
use crate::attack::spec_evicted;
use crate::attack::spec_recorded;

verus! {

/// Attempts per escalation level.
pub const LIMIT_ATTEMPTS: u32 = 4;

/// Sliding window (milliseconds) inside which attempts accumulate; 60 minutes.
pub const ATTEMPT_WINDOW_MS: u64 = 3_600_000;

/// Base unblock delay (milliseconds) for the first escalation level; 5 minutes.
pub const UNLOCK_TIME_MS: u64 = 300_000;

/// Period (milliseconds) of the unblock sweep; 60 seconds.
pub const CHECK_UNLOCK_INTERVAL_MS: u64 = 60_000;

/// Escalation level of an attempt count: one level per `LIMIT_ATTEMPTS`
/// attempts; level 0 means no active escalation tier.
pub open spec fn spec_escalation_level(attempts: u32) -> int {
    attempts as int / LIMIT_ATTEMPTS as int
}

/// A block decision fires exactly on each threshold crossing: when the
/// attempt count is a positive exact multiple of `LIMIT_ATTEMPTS`.
pub open spec fn spec_should_block(attempts: u32) -> bool {
    attempts > 0 && attempts as int % LIMIT_ATTEMPTS as int == 0
}

/// Clamp a mathematical value into `u64`.
pub open spec fn cap_u64(x: int) -> u64
    recommends
        x >= 0,
{
    if x > u64::MAX { u64::MAX as u64 } else { x as u64 }
}

/// How long a block at this attempt count must be held past the last
/// attempt: the base delay doubled once per escalation level beyond the
/// first, saturating at `u64::MAX`.
pub open spec fn spec_unblock_delay(attempts: u32) -> u64
    recommends
        spec_escalation_level(attempts) >= 1,
{
    cap_u64(UNLOCK_TIME_MS * pow2((spec_escalation_level(attempts) - 1) as nat) as int)
}

/// The moment an address may be unblocked: `None` while it carries no
/// escalation level, else its last contact plus the held delay, saturating.
pub open spec fn spec_unblock_deadline(info: AttackerInfo) -> Option<u64> {
    if spec_escalation_level(info.attempts) == 0 {
        None
    } else {
        Some(cap_u64(info.last_seen + spec_unblock_delay(info.attempts)))
    }
}

/// Whether the sweep owes this address an unblock at time `now`.
pub open spec fn spec_is_unblock_due(info: AttackerInfo, now: u64) -> bool {
    match spec_unblock_deadline(info) {
        Some(t) => now >= t,
        None => false,
    }
}

/// Whether the address is still owed a block at time `now`: its deadline
/// exists and has not yet passed.
pub open spec fn spec_block_owed(info: AttackerInfo, now: u64) -> bool {
    match spec_unblock_deadline(info) {
        Some(t) => now < t,
        None => false,
    }
}

/// Escalation level reached by an attempt count.
pub fn escalation_level(attempts: u32) -> (r: u32)
    ensures
        r == spec_escalation_level(attempts),
{
    attempts / LIMIT_ATTEMPTS
}

/// Threshold-crossing block decision: true iff `attempts` is a positive
/// exact multiple of `LIMIT_ATTEMPTS`.
pub fn should_block(attempts: u32) -> (r: bool)
    ensures
        r == spec_should_block(attempts),
{
    attempts != 0 && attempts % LIMIT_ATTEMPTS == 0
}

/// The delay a block at this attempt count must be held, doubling per
/// level and saturating at `u64::MAX`.
fn unblock_delay(attempts: u32) -> (r: u64)
    requires
        spec_escalation_level(attempts) >= 1,
    ensures
        r == spec_unblock_delay(attempts),
{
    let level = attempts / LIMIT_ATTEMPTS;
    let mut delay: u64 = UNLOCK_TIME_MS;
    let mut i: u32 = 1;
    proof {
        lemma2_to64();
    }
    while i < level
        invariant
            1 <= i <= level,
            level == spec_escalation_level(attempts),
            delay == cap_u64(UNLOCK_TIME_MS * pow2((i - 1) as nat) as int),
        decreases level - i,
    {
        proof {
            lemma_pow2_unfold(i as nat);
            assert(pow2(i as nat) == 2 * pow2((i - 1) as nat));
        }
        delay = if delay > u64::MAX / 2 {
            u64::MAX
        } else {
            delay * 2
        };
        i = i + 1;
    }
    delay
}

/// Calculate when an attacker can be unblocked.
/// Returns `None` if the attacker carries no escalation level (never owed a
/// block); else `Some(t)`, the last attempt's time plus the level's delay.
pub fn evaluate_attacker_unblock_time(info: &AttackerInfo) -> (r: Option<u64>)
    ensures
        r == spec_unblock_deadline(*info),
{
    let attacker_level = info.attempts / LIMIT_ATTEMPTS;
    if attacker_level == 0 {
        return None;
    }
    let delay = unblock_delay(info.attempts);
    let cutoff = if info.last_seen > u64::MAX - delay {
        u64::MAX
    } else {
        info.last_seen + delay
    };
    Some(cutoff)
}

/// Whether an unblock is due for this state at time `now`.
pub fn is_unblock_due(info: &AttackerInfo, now: u64) -> (r: bool)
    ensures
        r == spec_is_unblock_due(*info, now),
{
    match evaluate_attacker_unblock_time(info) {
        Some(t) => now >= t,
        None => false,
    }
}

/// The eviction cutoff for time `now`: the start of the attempt window,
/// clamped at zero.
pub open spec fn spec_cutoff(now: u64) -> u64 {
    if now >= ATTEMPT_WINDOW_MS {
        (now - ATTEMPT_WINDOW_MS) as u64
    } else {
        0
    }
}

/// The combined effect of one observed attempt at time `now`: attempts that
/// fell out of the window are evicted first, then the attempt is recorded.
pub open spec fn spec_observe(s: AttackerInfo, now: u64) -> AttackerInfo {
    spec_recorded(spec_evicted(s, spec_cutoff(now)), now)
}

/// The state after a whole sequence of attempts is observed in order.
pub open spec fn spec_run_attempts(s: AttackerInfo, times: Seq<u64>) -> AttackerInfo
    decreases times.len(),
{
    if times.len() == 0 {
        s
    } else {
        spec_run_attempts(spec_observe(s, times[0]), times.drop_first())
    }
}

/// Law: attempts spaced closer than the attempt window apart all count.
/// Starting from a state seen within the window of the first attempt, a
/// run of attempts whose consecutive gaps are below `ATTEMPT_WINDOW_MS`
/// evicts nothing, so the count grows by exactly one per attempt (and in
/// particular never decreases).
pub proof fn lemma_attempts_accumulate(s: AttackerInfo, times: Seq<u64>)
    requires
        s.attempts + times.len() <= u32::MAX,
        times.len() > 0 ==> s.last_seen <= times[0] && times[0] - s.last_seen
            < ATTEMPT_WINDOW_MS,
        forall|i: int|
            0 <= i < times.len() - 1 ==> #[trigger] times[i] <= times[i + 1] && times[i + 1]
                - times[i] < ATTEMPT_WINDOW_MS,
    ensures
        spec_run_attempts(s, times).attempts == s.attempts + times.len(),
        times.len() > 0 ==> spec_run_attempts(s, times).last_seen == times[times.len() - 1],
        times.len() == 0 ==> spec_run_attempts(s, times).last_seen == s.last_seen,
    decreases times.len(),
{
    if times.len() > 0 {
        let s1 = spec_observe(s, times[0]);
        assert(s.last_seen >= spec_cutoff(times[0]));
        assert(s1.attempts == s.attempts + 1);
        assert(s1.last_seen == times[0]);
        let rest = times.drop_first();
        assert forall|i: int| 0 <= i < rest.len() - 1 implies #[trigger] rest[i] <= rest[i + 1]
            && rest[i + 1] - rest[i] < ATTEMPT_WINDOW_MS by {
            assert(times[i + 1] <= times[i + 2] && times[i + 2] - times[i + 1]
                < ATTEMPT_WINDOW_MS);
        }
        if rest.len() > 0 {
            assert(times[0] <= times[1] && times[1] - times[0] < ATTEMPT_WINDOW_MS);
        }
        lemma_attempts_accumulate(s1, rest);
    }
}

/// Law: after a silence strictly longer than the attempt window, the next
/// recorded attempt restarts the count at one.
pub proof fn lemma_stale_gap_resets(s: AttackerInfo, now: u64)
    requires
        s.last_seen <= now,
        now - s.last_seen > ATTEMPT_WINDOW_MS,
    ensures
        spec_observe(s, now).attempts == 1,
        spec_observe(s, now).last_seen == now,
{
    assert(now >= ATTEMPT_WINDOW_MS);
    assert(s.last_seen < spec_cutoff(now));
}

/// Law: an address with no recorded attempts carries no escalation level,
/// has no unblock deadline, and is never due for an unblock, at any time.
pub proof fn lemma_zero_attempts_never_due(info: AttackerInfo, now: u64)
    requires
        info.attempts == 0,
    ensures
        spec_escalation_level(info.attempts) == 0,
        spec_unblock_deadline(info) is None,
        !spec_is_unblock_due(info, now),
{
}

/// Law: under a monotonic clock, `last_seen` never moves backward — a
/// recorded attempt only advances it, and eviction never touches it.
pub proof fn lemma_last_seen_monotonic(s: AttackerInfo, cutoff: u64, now: u64)
    requires
        s.last_seen <= now,
    ensures
        spec_observe(s, now).last_seen >= s.last_seen,
        spec_evicted(s, cutoff).last_seen == s.last_seen,
{
}

/// Law: at any time, an address with an unblock deadline is either still
/// owed its block or due for an unblock — exactly one of the two — and an
/// address without a deadline is neither. No address the policy ever
/// blocked can fall through the sweep.
pub proof fn lemma_owed_or_due(info: AttackerInfo, now: u64)
    ensures
        spec_unblock_deadline(info) is Some ==> (spec_block_owed(info, now)
            <==> !spec_is_unblock_due(info, now)),
        spec_unblock_deadline(info) is None ==> !spec_block_owed(info, now)
            && !spec_is_unblock_due(info, now),
{
}

/// Law: the held delay doubles from one escalation level to the next, as
/// long as the larger delay still fits in the time representation.
pub proof fn lemma_delay_doubles(a1: u32, a2: u32)
    requires
        spec_escalation_level(a1) >= 1,
        spec_escalation_level(a2) == spec_escalation_level(a1) + 1,
        UNLOCK_TIME_MS * pow2((spec_escalation_level(a2) - 1) as nat) <= u64::MAX,
    ensures
        spec_unblock_delay(a2) == 2 * spec_unblock_delay(a1),
{
    let l1 = (spec_escalation_level(a1) - 1) as nat;
    let l2 = (spec_escalation_level(a2) - 1) as nat;
    lemma_pow2_unfold(l2);
    assert(pow2(l2) == 2 * pow2(l1));
    assert(UNLOCK_TIME_MS * pow2(l2) == 2 * (UNLOCK_TIME_MS * pow2(l1))) by (nonlinear_arith)
        requires
            pow2(l2) == 2 * pow2(l1),
    ;
}

} // verus!
