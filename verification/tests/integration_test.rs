use matchmaking_engine::engine::admit_player;
use matchmaking_engine::metrics::Metrics;
use matchmaking_engine::queue::MatchmakingQueue;

#[test]
fn enqueue_players() {
    let mut queue = MatchmakingQueue::new();
    let mut metrics = Metrics::new();

    for i in 0..10 {
        assert!(admit_player(&mut queue, &mut metrics, i, 1000));
    }

    assert_eq!(queue.len(), 10);
}

#[test]
fn duplicate_enqueue_is_refused_and_not_counted() {
    let mut queue = MatchmakingQueue::new();
    let mut metrics = Metrics::new();
    assert!(admit_player(&mut queue, &mut metrics, 42, 1500));
    assert!(!admit_player(&mut queue, &mut metrics, 42, 1500));
    // Same id with another rating is a different key.
    assert!(admit_player(&mut queue, &mut metrics, 42, 1600));
    assert_eq!(queue.len(), 2);
    assert_eq!(metrics.queue_size, 2);
}
