use logblock::AttackerInfo;
use logblock::escalation_level;
use logblock::evaluate_attacker_unblock_time;
use logblock::is_unblock_due;
use logblock::should_block;
use logblock::ATTEMPT_WINDOW_MS;
use logblock::CHECK_UNLOCK_INTERVAL_MS;
use logblock::LIMIT_ATTEMPTS;
use logblock::UNLOCK_TIME_MS;

#[test]
fn policy_constants() {
    assert_eq!(LIMIT_ATTEMPTS, 4);
    assert_eq!(ATTEMPT_WINDOW_MS, 60 * 60 * 1000);
    assert_eq!(UNLOCK_TIME_MS, 5 * 60 * 1000);
    assert_eq!(CHECK_UNLOCK_INTERVAL_MS, 60 * 1000);
}

#[test]
fn block_fires_exactly_on_threshold_crossings() {
    assert!(!should_block(0));
    assert!(!should_block(1));
    assert!(!should_block(2));
    assert!(!should_block(3));
    assert!(should_block(4));
    assert!(!should_block(5));
    assert!(!should_block(6));
    assert!(!should_block(7));
    assert!(should_block(8));
}

#[test]
fn escalation_levels() {
    assert_eq!(escalation_level(0), 0);
    assert_eq!(escalation_level(3), 0);
    assert_eq!(escalation_level(4), 1);
    assert_eq!(escalation_level(7), 1);
    assert_eq!(escalation_level(8), 2);
    assert_eq!(escalation_level(12), 3);
}

#[test]
fn unblock_deadline_grows_geometrically() {
    let last_seen = 1_000_000;
    let level1 = AttackerInfo { attempts: 4, last_seen };
    let level2 = AttackerInfo { attempts: 8, last_seen };
    let level3 = AttackerInfo { attempts: 12, last_seen };
    // 5 minutes, 10 minutes, 20 minutes past the last attempt
    assert_eq!(evaluate_attacker_unblock_time(&level1), Some(last_seen + 300_000));
    assert_eq!(evaluate_attacker_unblock_time(&level2), Some(last_seen + 600_000));
    assert_eq!(evaluate_attacker_unblock_time(&level3), Some(last_seen + 1_200_000));
}

#[test]
fn unblock_deadline_none_below_first_level() {
    for attempts in 0..4 {
        let info = AttackerInfo { attempts, last_seen: 5_000 };
        assert_eq!(evaluate_attacker_unblock_time(&info), None);
    }
}

#[test]
fn unblock_deadline_saturates() {
    // 256 attempts is level 64: the doubled delay no longer fits in u64
    let info = AttackerInfo { attempts: 256, last_seen: 123 };
    assert_eq!(evaluate_attacker_unblock_time(&info), Some(u64::MAX));
}

#[test]
fn unblock_due_boundary() {
    let info = AttackerInfo { attempts: 4, last_seen: 1_000 };
    // deadline is 301_000
    assert!(!is_unblock_due(&info, 300_999));
    assert!(is_unblock_due(&info, 301_000));
    assert!(is_unblock_due(&info, 400_000));
}

#[test]
fn zero_attempts_never_due() {
    let info = AttackerInfo { attempts: 0, last_seen: 0 };
    assert!(!is_unblock_due(&info, 0));
    assert!(!is_unblock_due(&info, u64::MAX));
}
