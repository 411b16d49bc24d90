use logblock::AttackerInfo;

#[test]
fn new_uses_given_timestamp() {
    let info = AttackerInfo::new(Some(1234), 9999);
    assert_eq!(info.attempts, 0);
    assert_eq!(info.last_seen, 1234);
}

#[test]
fn new_falls_back_to_now() {
    let info = AttackerInfo::new(None, 9999);
    assert_eq!(info.attempts, 0);
    assert_eq!(info.last_seen, 9999);
}

#[test]
fn record_attempt_increments_and_stamps() {
    let mut info = AttackerInfo::new(None, 100);
    let n = info.record_attempt(250);
    assert_eq!(n, 1);
    assert_eq!(info.attempts, 1);
    assert_eq!(info.last_seen, 250);
    let n = info.record_attempt(300);
    assert_eq!(n, 2);
    assert_eq!(info.last_seen, 300);
}

#[test]
fn evict_resets_only_stale_attempts() {
    let mut info = AttackerInfo::new(None, 100);
    info.record_attempt(100);
    info.record_attempt(150);
    // last_seen == cutoff: not older than the cutoff, kept
    info.evict_old_attempts(150);
    assert_eq!(info.attempts, 2);
    // last_seen < cutoff: stale, reset; last_seen stays as last contact
    info.evict_old_attempts(151);
    assert_eq!(info.attempts, 0);
    assert_eq!(info.last_seen, 150);
}
