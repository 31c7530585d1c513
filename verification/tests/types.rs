use matchmaking_engine::types::{tolerance_for_wait, QueuedPlayer};

#[test]
fn claim_is_single_owner() {
    let mut p = QueuedPlayer::new(1, 1500);
    assert!(!p.reserved);
    assert!(p.try_reserve());
    assert!(p.reserved);
    assert!(!p.try_reserve());
    p.release();
    assert!(!p.reserved);
    assert!(p.try_reserve());
    assert_eq!(p.player_id, 1);
    assert_eq!(p.mmr, 1500);
}

#[test]
fn tolerance_widens_every_five_seconds() {
    assert_eq!(tolerance_for_wait(0), Some(50));
    assert_eq!(tolerance_for_wait(4_999), Some(50));
    assert_eq!(tolerance_for_wait(5_000), Some(75));
    assert_eq!(tolerance_for_wait(12_000), Some(100));
    assert_eq!(tolerance_for_wait(60_000), Some(50 + 12 * 25));
}

#[test]
fn tolerance_overflow_is_none() {
    // 85_899_343 periods still fit: 50 + 25 * 85_899_343 = 2_147_483_625.
    assert_eq!(tolerance_for_wait(85_899_343u128 * 5_000), Some(2_147_483_625));
    assert_eq!(tolerance_for_wait(85_899_344u128 * 5_000), None);
    assert_eq!(tolerance_for_wait(u128::MAX), None);
}

#[test]
fn fresh_player_has_base_tolerance() {
    let p = QueuedPlayer::new(3, 2000);
    assert_eq!(p.mmr_tolerance(), Some(50));
    assert!(p.wait_ms() < 5_000);
}
