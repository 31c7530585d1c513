use matchmaking_engine::engine::{default_worker_threads, EngineConfig};
use matchmaking_engine::metrics::Metrics;
use matchmaking_engine::queue::MatchmakingQueue;
use matchmaking_engine::types::{PlayerSnapshot, QueuedPlayer};
use matchmaking_engine::worker::{cycle_anchors, finish_match, form_match, form_match_at, select_my_anchors, WorkerConfig};

fn cfg(id: usize, count: usize) -> WorkerConfig {
    WorkerConfig { worker_id: id, worker_count: count, idle_sleep_us: 100 }
}

fn queue_with(players: &[(u64, i32)]) -> MatchmakingQueue {
    let mut q = MatchmakingQueue::new();
    for &(id, mmr) in players {
        assert!(q.enqueue(QueuedPlayer::new(id, mmr)));
    }
    q
}

#[test]
fn too_few_players_form_nothing() {
    let players: Vec<(u64, i32)> = (0..9).map(|i| (i, 1000)).collect();
    let mut q = queue_with(&players);
    assert!(form_match(&mut q, &cfg(0, 1)).is_none());
    assert_eq!(q.len(), 9);
}

#[test]
fn a_cycle_matches_the_lowest_ten_near_the_anchor() {
    let players: Vec<(u64, i32)> = (0..20).map(|i| (i, 1000 + i as i32)).collect();
    let mut q = queue_with(&players);
    let snaps = form_match(&mut q, &cfg(0, 1)).expect("a match");
    let ids: Vec<u64> = snaps.iter().map(|s| s.player_id).collect();
    assert_eq!(ids, (0..10).collect::<Vec<u64>>());
    assert_eq!(q.len(), 10);
    // The matched players left; the others stayed, unreserved.
    assert!(q.remove(3, 1003).is_none());
    assert!(q.is_available(15, 1015));
}

#[test]
fn spread_out_players_form_nothing_and_stay_unreserved() {
    let players: Vec<(u64, i32)> = (0..12).map(|i| (i, 1000 * i as i32)).collect();
    let mut q = queue_with(&players);
    assert!(form_match(&mut q, &cfg(0, 1)).is_none());
    assert_eq!(q.len(), 12);
    for i in 0..12u64 {
        assert!(q.is_available(i, 1000 * i as i32));
    }
}

#[test]
fn two_brackets_form_two_matches() {
    let mut players: Vec<(u64, i32)> = (0..10).map(|i| (i, 1000 + 5 * i as i32)).collect();
    players.extend((10..20).map(|i| (i, 1500 + 5 * i as i32)));
    let mut q = queue_with(&players);
    let first = form_match(&mut q, &cfg(0, 1)).expect("first match");
    assert!(first.iter().all(|s| s.mmr < 1100));
    let second = form_match(&mut q, &cfg(0, 1)).expect("second match");
    assert!(second.iter().all(|s| s.mmr >= 1500));
    assert!(q.is_empty());
    assert!(form_match(&mut q, &cfg(0, 1)).is_none());
}

#[test]
fn anchors_are_split_by_position() {
    let anchors: Vec<QueuedPlayer> = (0..7).map(|i| QueuedPlayer::new(i, 100)).collect();
    let mine: Vec<u64> = select_my_anchors(&anchors, &cfg(1, 3)).iter().map(|p| p.player_id).collect();
    assert_eq!(mine, vec![1, 4]);
    let all: Vec<u64> = select_my_anchors(&anchors, &cfg(0, 1)).iter().map(|p| p.player_id).collect();
    assert_eq!(all, (0..7).collect::<Vec<u64>>());
}

#[test]
fn finish_match_balances_and_records() {
    let snaps: Vec<PlayerSnapshot> =
        (0..10).map(|i| PlayerSnapshot { player_id: i, mmr: 1000, wait_ms: 100 * i }).collect();
    let mut m = Metrics::new();
    for _ in 0..10 {
        m.player_enqueued();
    }
    let r = finish_match(snaps, 11, &mut m);
    assert_eq!(r.match_id, 11);
    assert_eq!(r.team_sum_diff, 0);
    let s = m.snapshot();
    assert_eq!(s.queue_size, 0);
    assert_eq!(s.matches_created, 1);
    assert_eq!(s.players_matched, 10);
    assert_eq!(s.wait_ms_total, 4500);
}

#[test]
fn worker_thread_defaults() {
    assert_eq!(default_worker_threads(None), 4);
    assert_eq!(default_worker_threads(Some(1)), 2);
    assert_eq!(default_worker_threads(Some(16)), 16);
    let c = EngineConfig::with_defaults(3, std::time::Duration::from_secs(5));
    assert_eq!(c.worker_threads, 3);
    assert_eq!(c.match_channel_capacity, 8192);
    assert_eq!(c.worker_idle_sleep_us, 500);
    assert!(c.enable_stats_reporter);
    assert_eq!(c.stats_interval, std::time::Duration::from_secs(5));
}

fn ladder() -> MatchmakingQueue {
    // 11 players 20 MMR apart: a ±50 window never holds 10 of them.
    let players: Vec<(u64, i32)> = (0..11).map(|i| (i, 1000 + 20 * i as i32)).collect();
    queue_with(&players)
}

#[test]
fn fresh_anchors_with_narrow_windows_form_nothing() {
    let mut q = ladder();
    let waits = vec![0u64; 11];
    assert!(form_match_at(&mut q, &cfg(0, 1), &waits).is_none());
    assert_eq!(q.len(), 11);
}

#[test]
fn a_long_wait_widens_the_window_into_a_match() {
    let mut q = ladder();
    let mut waits = vec![0u64; 11];
    // 40 s of waiting: tolerance 50 + 8 * 25 = 250, window [750, 1250].
    waits[0] = 40_000;
    let players = form_match_at(&mut q, &cfg(0, 1), &waits).expect("a match");
    let ids: Vec<u64> = players.iter().map(|p| p.player_id).collect();
    assert_eq!(ids, (0..10).collect::<Vec<u64>>());
    assert_eq!(q.len(), 1);
    assert!(q.is_available(10, 1200));
}

#[test]
fn a_wait_too_short_for_ten_forms_nothing() {
    let mut q = ladder();
    let mut waits = vec![0u64; 11];
    // 20 s: tolerance 150, window [1050, 1350] holds only 8 players.
    waits[10] = 20_000;
    assert!(form_match_at(&mut q, &cfg(0, 1), &waits).is_none());
    assert_eq!(q.len(), 11);
}

#[test]
fn the_first_eligible_anchor_decides() {
    // Two brackets; the later anchor waits long enough to reach down.
    let mut players: Vec<(u64, i32)> = (0..10).map(|i| (i, 1000 + i as i32)).collect();
    players.extend((10..20).map(|i| (i, 3000 + i as i32)));
    let mut q = queue_with(&players);
    let mut waits = vec![0u64; 20];
    waits[15] = 1_000_000;
    let first = form_match_at(&mut q, &cfg(0, 1), &waits).expect("a match");
    // Anchor 0 already holds 10 within ±50, so its bracket is taken.
    assert!(first.iter().all(|p| p.mmr < 2000));
}

#[test]
fn workers_split_anchor_positions() {
    let players: Vec<(u64, i32)> = (0..7).map(|i| (i, 100 * i as i32)).collect();
    let q = queue_with(&players);
    let w1: Vec<u64> = cycle_anchors(&q, &cfg(1, 2)).iter().map(|p| p.player_id).collect();
    assert_eq!(w1, vec![1, 3, 5]);
    let w0: Vec<u64> = cycle_anchors(&q, &cfg(0, 3)).iter().map(|p| p.player_id).collect();
    assert_eq!(w0, vec![0, 3, 6]);
}

#[test]
fn wait_readings_saturate() {
    assert_eq!(matchmaking_engine::types::saturate_ms(5), 5);
    assert_eq!(matchmaking_engine::types::saturate_ms(u128::from(u64::MAX) + 1), u64::MAX);
}

#[test]
fn short_queue_needs_no_workers() {
    let players: Vec<(u64, i32)> = (0..5).map(|i| (i, 1000)).collect();
    let mut q = queue_with(&players);
    assert!(form_match(&mut q, &cfg(0, 0)).is_none());
    assert_eq!(q.len(), 5);
}
