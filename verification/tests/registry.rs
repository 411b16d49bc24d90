use logblock::Address;
use logblock::Registry;
use logblock::ATTEMPT_WINDOW_MS;

#[test]
fn first_attempt_creates_entry() {
    let mut reg = Registry::new();
    assert_eq!(reg.len(), 0);
    let n = reg.record_attempt(Address::V4(1), 500);
    assert_eq!(n, 1);
    assert_eq!(reg.len(), 1);
    let info = reg.get(Address::V4(1)).copied().unwrap();
    assert_eq!(info.attempts, 1);
    assert_eq!(info.last_seen, 500);
    assert!(reg.get(Address::V4(2)).is_none());
}

#[test]
fn attempts_inside_window_accumulate() {
    let mut reg = Registry::new();
    let addr = Address::V6(0xfe80_0000_0000_0000_0000_0000_0000_0001);
    assert_eq!(reg.record_attempt(addr, 0), 1);
    assert_eq!(reg.record_attempt(addr, 10_000), 2);
    assert_eq!(reg.record_attempt(addr, ATTEMPT_WINDOW_MS - 1), 3);
    // spaced exactly the window apart: last_seen is not older than the
    // cutoff, so the count still accumulates
    assert_eq!(reg.record_attempt(addr, 2 * ATTEMPT_WINDOW_MS - 1), 4);
    assert_eq!(reg.len(), 1);
}

#[test]
fn stale_gap_resets_count() {
    let mut reg = Registry::new();
    let addr = Address::V4(0x0a00_0001);
    assert_eq!(reg.record_attempt(addr, 1_000), 1);
    assert_eq!(reg.record_attempt(addr, 2_000), 2);
    // a gap beyond the window: the next attempt starts over at one
    assert_eq!(reg.record_attempt(addr, 2_000 + ATTEMPT_WINDOW_MS + 1), 1);
    let info = reg.get(addr).copied().unwrap();
    assert_eq!(info.attempts, 1);
    assert_eq!(info.last_seen, 2_000 + ATTEMPT_WINDOW_MS + 1);
}

#[test]
fn addresses_are_tracked_independently() {
    let mut reg = Registry::new();
    let a = Address::V4(1);
    let b = Address::V4(2);
    assert_eq!(reg.record_attempt(a, 10), 1);
    assert_eq!(reg.record_attempt(b, 20), 1);
    assert_eq!(reg.record_attempt(a, 30), 2);
    assert_eq!(reg.len(), 2);
    assert_eq!(reg.get(a).copied().unwrap().attempts, 2);
    assert_eq!(reg.get(b).copied().unwrap().attempts, 1);
}

#[test]
fn reap_keeps_entries_with_attempts() {
    let mut reg = Registry::new();
    reg.record_attempt(Address::V4(1), 0);
    reg.record_attempt(Address::V4(2), 50);
    // every entry still carries attempts, so nothing is reaped even far
    // past the retention horizon
    reg.reap_stale(ATTEMPT_WINDOW_MS * 10);
    assert_eq!(reg.len(), 2);
    assert_eq!(reg.get(Address::V4(1)).copied().unwrap().attempts, 1);
    assert_eq!(reg.get(Address::V4(2)).copied().unwrap().attempts, 1);
}

#[test]
fn snapshot_lists_every_entry_once() {
    let mut reg = Registry::new();
    reg.record_attempt(Address::V4(1), 10);
    reg.record_attempt(Address::V4(2), 20);
    reg.record_attempt(Address::V4(1), 30);
    let snap = reg.snapshot();
    assert_eq!(snap.len(), 2);
    let seen: Vec<Address> = snap.iter().map(|e| e.0).collect();
    assert!(seen.contains(&Address::V4(1)));
    assert!(seen.contains(&Address::V4(2)));
}
