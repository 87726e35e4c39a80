use tank_battle::timing::{respawn_allowed, RESPAWN_DELAY_MS};

#[test]
fn respawn_button_waits_five_seconds() {
    assert_eq!(RESPAWN_DELAY_MS, 5000);
    assert!(!respawn_allowed(4999, 0));
    assert!(respawn_allowed(5000, 0));
    assert!(respawn_allowed(12_000, 7000));
    assert!(!respawn_allowed(7000, 7000));
}

#[test]
fn respawn_wait_stays_over_when_waiting_longer() {
    assert!(respawn_allowed(6000, 1000));
    assert!(respawn_allowed(6001, 1000));
    assert!(respawn_allowed(u64::MAX, 1000));
}
