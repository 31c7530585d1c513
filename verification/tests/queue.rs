use matchmaking_engine::queue::MatchmakingQueue;
use matchmaking_engine::types::QueuedPlayer;

fn queue_with(players: &[(u64, i32)]) -> MatchmakingQueue {
    let mut q = MatchmakingQueue::new();
    for &(id, mmr) in players {
        assert!(q.enqueue(QueuedPlayer::new(id, mmr)));
    }
    q
}

fn ids(ps: &[QueuedPlayer]) -> Vec<u64> {
    ps.iter().map(|p| p.player_id).collect()
}

#[test]
fn enqueue_rejects_duplicate_key() {
    let mut q = MatchmakingQueue::new();
    assert!(q.is_empty());
    assert!(q.enqueue(QueuedPlayer::new(7, 1200)));
    assert!(!q.enqueue(QueuedPlayer::new(7, 1200)));
    assert_eq!(q.len(), 1);
    assert!(!q.is_empty());
}

#[test]
fn remove_returns_the_enqueued_player() {
    let mut q = queue_with(&[(1, 1000), (2, 1100)]);
    let removed = q.remove(2, 1100).expect("present");
    assert_eq!(removed.player_id, 2);
    assert_eq!(removed.mmr, 1100);
    assert!(q.remove(2, 1100).is_none());
    // Wrong rating: a different key.
    assert!(q.remove(1, 1001).is_none());
    assert_eq!(q.len(), 1);
}

#[test]
fn candidates_lie_in_the_window_in_key_order() {
    let q = queue_with(&[(5, 1040), (1, 900), (2, 960), (3, 1000), (4, 1000), (6, 1051), (7, 949), (8, 950)]);
    let c = q.find_candidates(1000, 50, 30);
    // [950, 1050], lowest MMR first, player id breaking ties.
    assert_eq!(ids(&c), vec![8, 2, 3, 4, 5]);
}

#[test]
fn candidates_respect_limit_and_skip_reserved() {
    let mut q = queue_with(&[(1, 1000), (2, 1001), (3, 1002), (4, 1003), (5, 1004)]);
    assert!(q.try_reserve(2, 1001));
    let c = q.find_candidates(1000, 50, 3);
    assert_eq!(ids(&c), vec![1, 3, 4]);
    assert!(c.iter().all(|p| !p.reserved));
}

#[test]
fn window_bounds_saturate() {
    let q = queue_with(&[(1, i32::MAX), (2, i32::MAX - 60), (5, i32::MAX - 61), (3, i32::MIN), (4, i32::MIN + 40)]);
    let top = q.find_candidates(i32::MAX - 10, 50, 30);
    assert_eq!(ids(&top), vec![2, 1]);
    let bottom = q.find_candidates(i32::MIN + 10, 50, 30);
    assert_eq!(ids(&bottom), vec![3, 4]);
}

#[test]
fn zero_tolerance_window_is_one_rating() {
    let q = queue_with(&[(1, 999), (2, 1000), (3, 1000), (4, 1001)]);
    assert_eq!(ids(&q.find_candidates(1000, 0, 30)), vec![2, 3]);
}

#[test]
fn sample_anchors_takes_every_stride_th_unreserved() {
    let mut q = queue_with(&[(1, 10), (2, 20), (3, 30), (4, 40), (5, 50), (6, 60), (7, 70)]);
    assert_eq!(ids(&q.sample_anchors(1)), vec![1, 2, 3, 4, 5, 6, 7]);
    assert_eq!(ids(&q.sample_anchors(0)), vec![1, 2, 3, 4, 5, 6, 7]);
    assert_eq!(ids(&q.sample_anchors(3)), vec![1, 4, 7]);
    assert!(q.try_reserve(4, 40));
    // Positions are counted before the reserved filter.
    assert_eq!(ids(&q.sample_anchors(3)), vec![1, 7]);
    assert_eq!(ids(&q.sample_anchors(100)), vec![1]);
}

#[test]
fn remove_batch_removes_only_those_keys() {
    let mut q = queue_with(&[(1, 10), (2, 20), (3, 30), (4, 40)]);
    let batch = vec![QueuedPlayer::new(2, 20), QueuedPlayer::new(4, 40), QueuedPlayer::new(9, 90)];
    q.remove_batch(&batch);
    assert_eq!(q.len(), 2);
    assert_eq!(ids(&q.sample_anchors(1)), vec![1, 3]);
}

#[test]
fn queue_reservation_is_exclusive() {
    let mut q = queue_with(&[(1, 1000)]);
    assert!(q.is_available(1, 1000));
    assert!(q.try_reserve(1, 1000));
    assert!(!q.is_available(1, 1000));
    assert!(!q.try_reserve(1, 1000));
    q.release(1, 1000);
    assert!(q.is_available(1, 1000));
    assert!(q.try_reserve(1, 1000));
    // Unknown players can be neither claimed nor seen as available.
    assert!(!q.try_reserve(2, 1000));
    assert!(!q.is_available(2, 1000));
}

#[test]
fn default_queue_is_empty() {
    let q = MatchmakingQueue::default();
    assert!(q.is_empty());
    assert_eq!(q.len(), 0);
}
