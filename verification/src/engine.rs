//! Event-loop decisions: what one observed attempt means, when the sweep
//! runs, which addresses it must unblock, and which blocks the recovery
//! protocol must replay after the packet-filter backend loses its state.
//!
//! The caller performs the outside work (reading events, driving the
//! packet filter) and feeds the outcomes back in as plain values.

use vstd::prelude::*;
use crate::attack::Address;
use crate::attack::AttackerInfo;
use crate::policy::evaluate_attacker_unblock_time;
use crate::policy::should_block;
use crate::policy::spec_block_owed;
use crate::policy::spec_is_unblock_due;
use crate::policy::spec_observe;
use crate::policy::spec_should_block;
use crate::policy::CHECK_UNLOCK_INTERVAL_MS;
use crate::registry::lemma_entry_in_map;
use crate::registry::lemma_key_has_entry;
use crate::registry::spec_prior;
use crate::registry::Registry;

verus! {

/// The failure classes a block or unblock call against the packet-filter
/// backend can report.
#[derive(Clone, Copy, PartialEq, Eq, Structural, Debug)]
pub enum FirewallErrorKind {
    /// The backend's own tables are missing, corrupted, or were wiped by an
    /// external actor while applying the ruleset.
    RulesetCorrupt,
    /// Any other backend failure; its cause is not known to be table-state
    /// related.
    Other,
}

/// A failed block call triggers the reinit-and-replay recovery exactly for
/// the ruleset-corrupt class; every other failure propagates untried.
pub fn should_attempt_recovery(kind: FirewallErrorKind) -> (r: bool)
    ensures
        r == (kind is RulesetCorrupt),
{
    match kind {
        FirewallErrorKind::RulesetCorrupt => true,
        FirewallErrorKind::Other => false,
    }
}

/// Whether the periodic unblock sweep is due: at least
/// `CHECK_UNLOCK_INTERVAL_MS` has elapsed since the last sweep. A clock
/// that moved backward reads as "not yet due" rather than failing.
pub fn sweep_due(last_check: u64, now: u64) -> (r: bool)
    ensures
        r == (now >= last_check && now - last_check >= CHECK_UNLOCK_INTERVAL_MS),
{
    now >= last_check && now - last_check >= CHECK_UNLOCK_INTERVAL_MS
}

/// The decision for one observed attempt: update the registry and say
/// whether the block protocol must now be invoked for the address — true
/// exactly when the updated count crossed an escalation threshold.
pub fn observe_attempt(reg: &mut Registry, addr: Address, now: u64) -> (block: bool)
    requires
        old(reg).wf(),
        old(reg)@.contains_key(addr) ==> old(reg)@[addr].attempts < u32::MAX,
    ensures
        final(reg).wf(),
        final(reg)@ == old(reg)@.insert(
            addr,
            spec_observe(spec_prior(old(reg)@, addr, now), now),
        ),
        block == spec_should_block(spec_observe(spec_prior(old(reg)@, addr, now), now).attempts),
{
    let attempts = reg.record_attempt(addr, now);
    should_block(attempts)
}

/// Which of the two address selections a collection pass makes.
spec fn spec_selected(info: AttackerInfo, now: u64, owed: bool) -> bool {
    if owed {
        spec_block_owed(info, now)
    } else {
        spec_is_unblock_due(info, now)
    }
}

/// The addresses of the registry whose state satisfies the selection, each
/// exactly once.
fn collect_addresses(reg: &Registry, now: u64, owed: bool) -> (r: Vec<Address>)
    requires
        reg.wf(),
    ensures
        forall|p: int|
            0 <= p < r@.len() ==> reg@.contains_key(#[trigger] r@[p]) && spec_selected(
                reg@[r@[p]],
                now,
                owed,
            ),
        forall|a: Address|
            reg@.contains_key(a) && spec_selected(#[trigger] reg@[a], now, owed) ==> r@.contains(
                a,
            ),
        forall|p: int, q: int| 0 <= p < q < r@.len() ==> r@[p] != r@[q],
{
    let ghost entries = reg.entries_seq();
    let snapshot = reg.snapshot();
    let mut out: Vec<Address> = Vec::new();
    let mut i: usize = 0;
    while i < snapshot.len()
        invariant
            i <= entries.len(),
            snapshot@ == entries,
            reg.wf(),
            entries == reg.entries_seq(),
            forall|p: int|
                0 <= p < out@.len() ==> exists|j: int|
                    0 <= j < i && (#[trigger] entries[j]).0 == #[trigger] out@[p] && spec_selected(
                        entries[j].1,
                        now,
                        owed,
                    ),
            forall|j: int|
                0 <= j < i && spec_selected((#[trigger] entries[j]).1, now, owed) ==> out@.contains(
                    entries[j].0,
                ),
            forall|p: int, q: int| 0 <= p < q < out@.len() ==> out@[p] != out@[q],
        decreases entries.len() - i,
    {
        let entry = snapshot[i];
        let selected = match evaluate_attacker_unblock_time(&entry.1) {
            Some(t) => if owed {
                now < t
            } else {
                now >= t
            },
            None => false,
        };
        if selected {
            proof {
                // the address cannot already be collected: its entry would
                // have to appear twice
                if out@.contains(entry.0) {
                    let p = choose|p: int| 0 <= p < out@.len() && out@[p] == entry.0;
                    let j = choose|j: int|
                        0 <= j < i && (#[trigger] entries[j]).0 == out@[p] && spec_selected(
                            entries[j].1,
                            now,
                            owed,
                        );
                    assert(entries[j].0 == entries[i as int].0);
                    assert(false);
                }
            }
            let ghost old_out = out@;
            out.push(entry.0);
            proof {
                assert forall|j: int|
                    0 <= j < i + 1 && spec_selected(
                        (#[trigger] entries[j]).1,
                        now,
                        owed,
                    ) implies out@.contains(entries[j].0) by {
                    if j < i {
                        let p = choose|p: int| 0 <= p < old_out.len() && old_out[p] == entries[j].0;
                        assert(out@[p] == entries[j].0);
                    } else {
                        assert(out@[old_out.len() as int] == entries[j].0);
                    }
                }
            }
        }
        i = i + 1;
    }
    proof {
        assert forall|p: int| 0 <= p < out@.len() implies reg@.contains_key(#[trigger] out@[p])
            && spec_selected(reg@[out@[p]], now, owed) by {
            let j = choose|j: int|
                0 <= j < entries.len() && (#[trigger] entries[j]).0 == out@[p] && spec_selected(
                    entries[j].1,
                    now,
                    owed,
                );
            lemma_entry_in_map(entries, j);
        }
        assert forall|a: Address|
            reg@.contains_key(a) && spec_selected(
                #[trigger] reg@[a],
                now,
                owed,
            ) implies out@.contains(a) by {
            lemma_key_has_entry(entries, a);
            let k = choose|k: int| 0 <= k < entries.len() && #[trigger] entries[k] == (a, reg@[a]);
            assert(spec_selected(entries[k].1, now, owed));
        }
    }
    out
}

/// The addresses the sweep owes an unblock at time `now`: those whose
/// unblock deadline exists and has passed. Each appears exactly once; an
/// address with no escalation level never appears.
pub fn unblock_due_addresses(reg: &Registry, now: u64) -> (r: Vec<Address>)
    requires
        reg.wf(),
    ensures
        forall|p: int|
            0 <= p < r@.len() ==> reg@.contains_key(#[trigger] r@[p]) && spec_is_unblock_due(
                reg@[r@[p]],
                now,
            ),
        forall|a: Address|
            reg@.contains_key(a) && spec_is_unblock_due(#[trigger] reg@[a], now) ==> r@.contains(
                a,
            ),
        forall|p: int, q: int| 0 <= p < q < r@.len() ==> r@[p] != r@[q],
{
    collect_addresses(reg, now, false)
}

/// The addresses still owed a block at time `now`: those whose unblock
/// deadline exists and has not yet passed. Recovery replays exactly these
/// onto a freshly initialized backend. Each appears exactly once.
pub fn blocks_owed(reg: &Registry, now: u64) -> (r: Vec<Address>)
    requires
        reg.wf(),
    ensures
        forall|p: int|
            0 <= p < r@.len() ==> reg@.contains_key(#[trigger] r@[p]) && spec_block_owed(
                reg@[r@[p]],
                now,
            ),
        forall|a: Address|
            reg@.contains_key(a) && spec_block_owed(#[trigger] reg@[a], now) ==> r@.contains(a),
        forall|p: int, q: int| 0 <= p < q < r@.len() ==> r@[p] != r@[q],
{
    collect_addresses(reg, now, true)
}

} // verus!
