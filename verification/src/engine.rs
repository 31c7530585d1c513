//! Engine configuration and the engine's bookkeeping around the queue.

use vstd::prelude::*;
use crate::metrics::{cycle_effect, enqueue_effect, is_fresh, match_effect, snapshot_of, Metrics};
use crate::queue::{key_of, MatchmakingQueue, QueueKey};
use crate::types::{Mmr, PlayerId, QueuedPlayer};
use crate::worker::MATCH_SIZE;

verus! {

/// Engine configuration.
#[derive(Clone, Copy, Debug)]
pub struct EngineConfig {
    /// Number of parallel worker threads.
    pub worker_threads: usize,
    /// Capacity of the match output channel.
    pub match_channel_capacity: usize,
    /// How long a worker sleeps when idle (µs).
    pub worker_idle_sleep_us: u64,
    /// Whether to print periodic stats to stdout.
    pub enable_stats_reporter: bool,
    /// Stats reporter interval.
    pub stats_interval: std::time::Duration,
}

/// Default match channel capacity.
pub const DEFAULT_MATCH_CHANNEL_CAPACITY: usize = 8192;

/// Default idle sleep of a worker, in microseconds.
pub const DEFAULT_WORKER_IDLE_SLEEP_US: u64 = 500;

/// Worker threads to start by default, given the parallelism the machine
/// reports (`None` when it cannot say): that number, 4 when unknown, and at
/// least 2.
pub fn default_worker_threads(available: Option<usize>) -> (n: usize)
    ensures
        n == (match available {
            Some(a) => if a < 2 { 2 } else { a },
            None => 4,
        }),
{
    let n: usize = match available {
        Some(a) => a,
        None => 4,
    };
    if n < 2 { 2 } else { n }
}

impl EngineConfig {
    /// The default configuration for `worker_threads` workers and the given
    /// stats interval: channel capacity 8192, idle sleep 500 µs, stats
    /// reporter on.
    pub fn with_defaults(worker_threads: usize, stats_interval: std::time::Duration) -> (c: Self)
        ensures
            c.worker_threads == worker_threads,
            c.match_channel_capacity == DEFAULT_MATCH_CHANNEL_CAPACITY,
            c.worker_idle_sleep_us == DEFAULT_WORKER_IDLE_SLEEP_US,
            c.enable_stats_reporter,
            c.stats_interval == stats_interval,
    {
        EngineConfig {
            worker_threads,
            match_channel_capacity: DEFAULT_MATCH_CHANNEL_CAPACITY,
            worker_idle_sleep_us: DEFAULT_WORKER_IDLE_SLEEP_US,
            enable_stats_reporter: true,
            stats_interval,
        }
    }
}

/// Enqueue a player for matchmaking: a fresh, unreserved player is queued
/// unless one with the same `(mmr, player_id)` is already there. Returns
/// whether it was added; only then is the enqueue counted in the metrics.
pub fn admit_player(queue: &mut MatchmakingQueue, metrics: &mut Metrics, player_id: PlayerId, mmr: Mmr) -> (added: bool)
    requires
        old(queue).wf(),
    ensures
        final(queue).wf(),
        added == !old(queue)@.contains_key((mmr, player_id)),
        added ==> final(queue)@.dom() == old(queue)@.dom().insert((mmr, player_id)),
        added ==> {
            let p = final(queue)@[(mmr, player_id)];
            p.player_id == player_id && p.mmr == mmr && !p.reserved
        },
        added ==> forall|k| #[trigger] old(queue)@.contains_key(k) ==> final(queue)@[k] == old(queue)@[k],
        !added ==> final(queue)@ == old(queue)@,
        added ==> enqueue_effect(*old(metrics), *final(metrics)),
        !added ==> *final(metrics) == *old(metrics),
{
    let player = QueuedPlayer::new(player_id, mmr);
    assert(key_of(player) == (mmr, player_id));
    let added = queue.enqueue(player);
    if added {
        metrics.player_enqueued();
    }
    added
}

/// The metrics are in step with the queue: the queue size they hold is the
/// number of queued players, and every counted match took 10 players.
pub open spec fn in_step(q: Map<QueueKey, QueuedPlayer>, m: Metrics) -> bool {
    &&& m.queue_size == q.len()
    &&& m.players_matched == MATCH_SIZE * m.matches_created
}

/// An empty queue and fresh metrics are in step.
pub proof fn lemma_in_step_fresh(q: Map<QueueKey, QueuedPlayer>, m: Metrics)
    requires
        q == Map::<QueueKey, QueuedPlayer>::empty(),
        is_fresh(m),
    ensures
        in_step(q, m),
{
    assert(q.dom() =~= Set::<QueueKey>::empty());
}

/// Admitting a player keeps the queue and the metrics in step: a new key
/// adds one queued player and one enqueue; a refused one changes neither.
pub proof fn lemma_in_step_admit(
    q1: Map<QueueKey, QueuedPlayer>,
    q2: Map<QueueKey, QueuedPlayer>,
    m1: Metrics,
    m2: Metrics,
    added: bool,
    key: QueueKey,
)
    requires
        in_step(q1, m1),
        q1.dom().finite(),
        q1.len() < i64::MAX,
        added == !q1.contains_key(key),
        added ==> q2.dom() == q1.dom().insert(key),
        added ==> enqueue_effect(m1, m2),
        !added ==> q2 == q1,
        !added ==> m2 == m1,
    ensures
        in_step(q2, m2),
{
}

/// A worker cycle's count leaves the queue and the metrics in step.
pub proof fn lemma_in_step_cycle(q: Map<QueueKey, QueuedPlayer>, m1: Metrics, m2: Metrics)
    requires
        in_step(q, m1),
        cycle_effect(m1, m2),
    ensures
        in_step(q, m2),
{
}

/// A formed match (10 players leave the queue) that is then recorded keeps
/// the queue and the metrics in step.
pub proof fn lemma_in_step_match(
    q1: Map<QueueKey, QueuedPlayer>,
    q2: Map<QueueKey, QueuedPlayer>,
    m1: Metrics,
    waits: Seq<u64>,
    m2: Metrics,
)
    requires
        in_step(q1, m1),
        q2.len() + MATCH_SIZE == q1.len(),
        waits.len() == MATCH_SIZE,
        match_effect(m1, waits, m2),
        MATCH_SIZE * (m1.matches_created + 1) <= u64::MAX,
    ensures
        in_step(q2, m2),
{
}

/// While in step, the snapshot reports the queue's length, and 10 matched
/// players per match.
pub proof fn lemma_in_step_snapshot(q: Map<QueueKey, QueuedPlayer>, m: Metrics)
    requires
        in_step(q, m),
    ensures
        snapshot_of(m).queue_size == q.len(),
        snapshot_of(m).players_matched == MATCH_SIZE * snapshot_of(m).matches_created,
{
}

} // verus!
