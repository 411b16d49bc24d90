//! Attack-tracking and escalation engine for a log-driven firewall daemon.
//!
//! The library tracks failed authentication attempts per source address,
//! decides when an address crosses the blocking threshold, how long each
//! block must be held, which addresses a periodic sweep should unblock,
//! and which blocks must be replayed after the packet-filter backend loses
//! its state.

mod attack;
mod engine;
mod firewall;
mod policy;
mod registry;

pub use attack::Address;
pub use attack::AttackerInfo;
pub use attack::spec_evicted;
pub use attack::spec_recorded;
pub use engine::FirewallErrorKind;
pub use engine::blocks_owed;
pub use engine::observe_attempt;
pub use engine::should_attempt_recovery;
pub use engine::sweep_due;
pub use engine::unblock_due_addresses;
pub use firewall::FirewallModel;
pub use firewall::fw_apply_blocks;
pub use firewall::lemma_apply_blocks_contains;
pub use firewall::lemma_block_idempotent;
pub use firewall::lemma_recovery_round_trip;
pub use firewall::lemma_unblock_of_unblocked;
pub use policy::ATTEMPT_WINDOW_MS;
pub use policy::CHECK_UNLOCK_INTERVAL_MS;
pub use policy::LIMIT_ATTEMPTS;
pub use policy::UNLOCK_TIME_MS;
pub use policy::cap_u64;
pub use policy::escalation_level;
pub use policy::evaluate_attacker_unblock_time;
pub use policy::is_unblock_due;
pub use policy::lemma_attempts_accumulate;
pub use policy::lemma_delay_doubles;
pub use policy::lemma_last_seen_monotonic;
pub use policy::lemma_owed_or_due;
pub use policy::lemma_stale_gap_resets;
pub use policy::lemma_zero_attempts_never_due;
pub use policy::should_block;
pub use policy::spec_block_owed;
pub use policy::spec_cutoff;
pub use policy::spec_escalation_level;
pub use policy::spec_is_unblock_due;
pub use policy::spec_observe;
pub use policy::spec_run_attempts;
pub use policy::spec_should_block;
pub use policy::spec_unblock_deadline;
pub use policy::spec_unblock_delay;
pub use registry::Registry;
pub use registry::lemma_entry_in_map;
pub use registry::lemma_key_has_entry;
pub use registry::lemma_map_domain;
pub use registry::map_of_entries;
pub use registry::spec_prior;
pub use registry::spec_reaped;
pub use registry::unique_keys;
