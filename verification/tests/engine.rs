use logblock::Address;
use logblock::FirewallErrorKind;
use logblock::FirewallModel;
use logblock::Registry;
use logblock::blocks_owed;
use logblock::observe_attempt;
use logblock::should_attempt_recovery;
use logblock::sweep_due;
use logblock::unblock_due_addresses;
use logblock::CHECK_UNLOCK_INTERVAL_MS;
use logblock::UNLOCK_TIME_MS;

#[test]
fn sweep_due_after_interval() {
    assert!(!sweep_due(1_000, 1_000));
    assert!(!sweep_due(1_000, 1_000 + CHECK_UNLOCK_INTERVAL_MS - 1));
    assert!(sweep_due(1_000, 1_000 + CHECK_UNLOCK_INTERVAL_MS));
    // a clock that moved backward reads as "not yet due"
    assert!(!sweep_due(1_000, 999));
}

#[test]
fn only_ruleset_corruption_is_recoverable() {
    assert!(should_attempt_recovery(FirewallErrorKind::RulesetCorrupt));
    assert!(!should_attempt_recovery(FirewallErrorKind::Other));
}

#[test]
fn end_to_end_escalation_and_unblock() {
    // 203.0.113.5
    let attacker = Address::V4(0xCB_00_71_05);
    let mut reg = Registry::new();
    // four attempts inside the window: the fourth crosses the threshold
    assert!(!observe_attempt(&mut reg, attacker, 0));
    assert!(!observe_attempt(&mut reg, attacker, 60_000));
    assert!(!observe_attempt(&mut reg, attacker, 120_000));
    assert!(observe_attempt(&mut reg, attacker, 180_000));
    // a fifth and sixth attempt do not trigger another block call
    assert!(!observe_attempt(&mut reg, attacker, 240_000));
    assert!(!observe_attempt(&mut reg, attacker, 300_000));
    // before the base delay has passed since the last attempt, nothing to do
    let due = unblock_due_addresses(&reg, 300_000 + UNLOCK_TIME_MS - 1);
    assert!(due.is_empty());
    // once it has passed, the sweep owes exactly this address an unblock
    let due = unblock_due_addresses(&reg, 300_000 + UNLOCK_TIME_MS);
    assert_eq!(due, vec![attacker]);
}

#[test]
fn zero_level_address_never_swept() {
    let mut reg = Registry::new();
    // three attempts: below the first escalation level
    observe_attempt(&mut reg, Address::V4(9), 0);
    observe_attempt(&mut reg, Address::V4(9), 1_000);
    observe_attempt(&mut reg, Address::V4(9), 2_000);
    assert!(unblock_due_addresses(&reg, u64::MAX).is_empty());
    assert!(blocks_owed(&reg, 2_500).is_empty());
}

#[test]
fn recovery_replays_every_owed_block() {
    let first = Address::V4(0xC0_A8_00_01);
    let second = Address::V6(0x2001_0db8_0000_0000_0000_0000_0000_0042);
    let mut reg = Registry::new();
    for t in [0, 1_000, 2_000, 3_000] {
        observe_attempt(&mut reg, first, t);
    }
    for t in [500, 1_500, 2_500, 3_500] {
        observe_attempt(&mut reg, second, t);
    }
    let now = 10_000;
    // both addresses are still owed a block
    let plan = blocks_owed(&reg, now);
    assert_eq!(plan.len(), 2);
    assert!(plan.contains(&first));
    assert!(plan.contains(&second));
    // the backend lost its state: reinitialize, replay, retry the trigger
    let mut backend = FirewallModel::new();
    for addr in &plan {
        backend.block(*addr);
    }
    backend.block(first);
    assert!(backend.is_blocked(first));
    assert!(backend.is_blocked(second));
}

#[test]
fn firewall_block_and_unblock_are_idempotent() {
    let a = Address::V4(1);
    let b = Address::V4(2);
    let mut backend = FirewallModel::new();
    backend.block(a);
    backend.block(a);
    assert!(backend.is_blocked(a));
    assert!(!backend.is_blocked(b));
    // unblocking an address that was never blocked changes nothing
    backend.unblock(b);
    assert!(backend.is_blocked(a));
    assert!(!backend.is_blocked(b));
    backend.unblock(a);
    assert!(!backend.is_blocked(a));
}

#[test]
fn owed_turns_into_due_at_the_deadline() {
    let addr = Address::V4(7);
    let mut reg = Registry::new();
    for t in [0, 1, 2, 3] {
        observe_attempt(&mut reg, addr, t);
    }
    // deadline is last_seen + UNLOCK_TIME_MS == 3 + 300_000
    let before = 3 + UNLOCK_TIME_MS - 1;
    let at = 3 + UNLOCK_TIME_MS;
    assert_eq!(blocks_owed(&reg, before), vec![addr]);
    assert!(unblock_due_addresses(&reg, before).is_empty());
    assert!(blocks_owed(&reg, at).is_empty());
    assert_eq!(unblock_due_addresses(&reg, at), vec![addr]);
}
