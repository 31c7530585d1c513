use matchmaking_engine::metrics::Metrics;

#[test]
fn fresh_snapshot_is_zero() {
    let m = Metrics::new();
    let s = m.snapshot();
    assert_eq!(s.queue_size, 0);
    assert_eq!(s.matches_created, 0);
    assert_eq!(s.players_matched, 0);
    assert_eq!(s.wait_ms_total, 0);
    assert_eq!(s.p50_wait_ms, 0);
    assert_eq!(s.p95_wait_ms, 0);
    assert_eq!(s.worker_cycles, 0);
}

#[test]
fn match_created_updates_counters_and_percentiles() {
    let mut m = Metrics::default();
    for _ in 0..12 {
        m.player_enqueued();
    }
    m.worker_cycle();
    m.worker_cycle();
    m.match_created(&[50, 10, 40, 30, 20, 100, 90, 80, 70, 60]);
    let s = m.snapshot();
    assert_eq!(s.queue_size, 2);
    assert_eq!(s.matches_created, 1);
    assert_eq!(s.players_matched, 10);
    assert_eq!(s.wait_ms_total, 550);
    // Sorted: 10, 20, ..., 100; ranks 5 and 9.
    assert_eq!(s.p50_wait_ms, 60);
    assert_eq!(s.p95_wait_ms, 100);
    assert_eq!(s.worker_cycles, 2);
    assert_eq!(m.sample_count(), 10);
}

#[test]
fn negative_queue_size_reads_as_zero() {
    let mut m = Metrics::new();
    m.match_created(&[1, 2, 3]);
    assert_eq!(m.queue_size, -3);
    assert_eq!(m.snapshot().queue_size, 0);
}

#[test]
fn samples_saturate_at_u32_max() {
    let mut m = Metrics::new();
    m.match_created(&[u64::from(u32::MAX) + 5]);
    let s = m.snapshot();
    assert_eq!(s.p50_wait_ms, u32::MAX);
    assert_eq!(s.wait_ms_total, u64::from(u32::MAX) + 5);
}

#[test]
fn median_not_above_p95() {
    let mut m = Metrics::new();
    m.match_created(&[7, 3, 9, 1]);
    m.match_created(&[500, 2]);
    let s = m.snapshot();
    // Sorted: 1, 2, 3, 7, 9, 500; ranks 3 and 5.
    assert_eq!(s.p50_wait_ms, 7);
    assert_eq!(s.p95_wait_ms, 500);
    assert!(s.p50_wait_ms <= s.p95_wait_ms);
}

#[test]
fn match_order_does_not_change_the_snapshot() {
    let a = [5u64, 300, 7];
    let b = [90u64, 1, 44, 12];
    let mut m1 = Metrics::new();
    m1.match_created(&a);
    m1.match_created(&b);
    let mut m2 = Metrics::new();
    m2.match_created(&b);
    m2.match_created(&a);
    let (s1, s2) = (m1.snapshot(), m2.snapshot());
    assert_eq!(s1.queue_size, s2.queue_size);
    assert_eq!(s1.matches_created, s2.matches_created);
    assert_eq!(s1.players_matched, s2.players_matched);
    assert_eq!(s1.wait_ms_total, s2.wait_ms_total);
    assert_eq!(s1.p50_wait_ms, s2.p50_wait_ms);
    assert_eq!(s1.p95_wait_ms, s2.p95_wait_ms);
    assert_eq!(s1.worker_cycles, s2.worker_cycles);
}

#[test]
fn snapshot_accounts_for_every_event() {
    let mut m = Metrics::new();
    for _ in 0..25 {
        m.player_enqueued();
    }
    for _ in 0..4 {
        m.worker_cycle();
    }
    m.match_created(&[10; 10]);
    m.match_created(&[20; 10]);
    let s = m.snapshot();
    assert_eq!(s.queue_size, 5);
    assert_eq!(s.matches_created, 2);
    assert_eq!(s.players_matched, 20);
    assert_eq!(s.worker_cycles, 4);
    assert_eq!(s.wait_ms_total, 300);
}
