//! One matching cycle of a worker.
//!
//! 1. Anchor selection: the unreserved queued players in key order, of which
//!    this worker takes every `worker_count`-th, starting at position
//!    `worker_id`, so that workers split the queue between them.
//! 2. Window scan: for each anchor in turn, up to 30 unreserved players
//!    within the tolerance the anchor's wait has earned.
//! 3. Reservation: the first anchor whose window holds 10 such players gets
//!    its first 10 candidates claimed.
//! 4. Commit: the 10 claimed players leave the queue.
//!
//! `form_match_at` is this cycle for given anchor waits; `form_match` reads
//! the waits from the clock and snapshots the matched players.
//! `finish_match` then balances the 10 snapshots into teams and records the
//! match in the metrics; the caller emits it.

use vstd::prelude::*;
use crate::queue::{
    candidates_spec, free_in_window, is_listing, lemma_candidates_window, key_lt, key_of, keyed, keys_of, lemma_remove_distinct_keys_len,
    lemma_strided_props, max_key, min_key, sorted_keys, strided_unreserved, with_reserved,
    MatchmakingQueue, QueueKey,
};
use crate::balancer::{balance_teams, best_mask, mmrs_of, select_team, split_diff};
use crate::metrics::{match_effect, sum_ms, Metrics};
use crate::types::{
    tolerance_for_wait, tolerance_option, MatchResult, PlayerSnapshot, QueuedPlayer,
};

verus! {

/// Players in one match.
pub const MATCH_SIZE: usize = 10;

/// Candidates fetched per anchor: three times the match size.
pub const CANDIDATE_LIMIT: usize = 30;

/// Configuration for a worker.
#[derive(Clone, Copy, Debug)]
pub struct WorkerConfig {
    pub worker_id: usize,
    pub worker_count: usize,
    /// How long to sleep (µs) when the queue has nothing to match.
    pub idle_sleep_us: u64,
}

/// The anchors at positions `id` modulo `count`, in order.
pub open spec fn owned_by(anchors: Seq<QueuedPlayer>, count: nat, id: nat) -> Seq<QueuedPlayer>
    decreases anchors.len(),
{
    if anchors.len() == 0 || count == 0 {
        Seq::empty()
    } else {
        let prev = owned_by(anchors.drop_last(), count, id);
        if (anchors.len() - 1) % (count as int) == id {
            prev.push(anchors.last())
        } else {
            prev
        }
    }
}

/// The anchors a worker scans on a queue in state `m`: the unreserved
/// players in key order at positions `worker_id`, `worker_id + worker_count`,
/// `worker_id + 2 * worker_count`, ...
pub open spec fn anchors_for(m: Map<QueueKey, QueuedPlayer>, cfg: WorkerConfig) -> Seq<QueuedPlayer> {
    owned_by(strided_unreserved(m, sorted_keys(m), 1), cfg.worker_count as nat, cfg.worker_id as nat)
}

/// The snapshots describe these players, in order.
pub open spec fn snapshots_of(snaps: Seq<PlayerSnapshot>, players: Seq<QueuedPlayer>) -> bool {
    &&& snaps.len() == players.len()
    &&& forall|i: int| 0 <= i < snaps.len() ==> {
        &&& (#[trigger] snaps[i]).player_id == players[i].player_id
        &&& snaps[i].mmr == players[i].mmr
    }
}

/// The players matched around anchor `a` with tolerance `t`: the first 10
/// of its candidates.
pub open spec fn match_pick(m: Map<QueueKey, QueuedPlayer>, a: QueuedPlayer, t: i32) -> Seq<QueuedPlayer> {
    candidates_spec(m, a.mmr, t, CANDIDATE_LIMIT as nat).take(MATCH_SIZE as int)
}

/// Anchor `a`, having waited `wait_ms`, can host a match: its tolerance fits
/// in an `Mmr` and its window holds at least 10 unreserved players.
pub open spec fn eligible(m: Map<QueueKey, QueuedPlayer>, a: QueuedPlayer, wait_ms: int) -> bool {
    &&& tolerance_option(wait_ms) is Some
    &&& candidates_spec(m, a.mmr, tolerance_option(wait_ms)->0, CANDIDATE_LIMIT as nat).len() >= MATCH_SIZE
}

/// Anchor `i` is the first of `anchors` that can host a match.
pub open spec fn first_eligible(
    m: Map<QueueKey, QueuedPlayer>,
    anchors: Seq<QueuedPlayer>,
    waits: Seq<u64>,
    i: int,
) -> bool {
    &&& 0 <= i < anchors.len()
    &&& eligible(m, anchors[i], waits[i] as int)
    &&& forall|j: int| 0 <= j < i ==> !eligible(m, #[trigger] anchors[j], waits[j] as int)
}

/// The outcome of a cycle on queue `old_q` whose anchors had waited `waits`:
/// no match and the queue unchanged when no anchor can host one; otherwise
/// the first 10 candidates of the first anchor that can, and exactly those
/// players leave the queue.
pub open spec fn cycle_outcome(
    old_q: Map<QueueKey, QueuedPlayer>,
    new_q: Map<QueueKey, QueuedPlayer>,
    cfg: WorkerConfig,
    waits: Seq<u64>,
    matched: Option<Seq<QueuedPlayer>>,
) -> bool {
    let anchors = anchors_for(old_q, cfg);
    match matched {
        None => {
            &&& new_q == old_q
            &&& forall|i: int| 0 <= i < anchors.len() ==> !eligible(old_q, #[trigger] anchors[i], waits[i] as int)
        },
        Some(ps) => exists|i: int|
            #[trigger] first_eligible(old_q, anchors, waits, i) && ps == match_pick(old_q, anchors[i], tolerance_option(waits[i] as int)->0)
                && new_q == old_q.remove_keys(keys_of(ps)),
    }
}

/// Anchor `a`, having waited `wait_ms`, has at least 10 free players in its
/// scan window `[clamp(a.mmr - t), clamp(a.mmr + t)]`, `t` its tolerance.
pub open spec fn window_full(m: Map<QueueKey, QueuedPlayer>, a: QueuedPlayer, wait_ms: int) -> bool {
    match tolerance_option(wait_ms) {
        Some(t) => free_in_window(m, a.mmr, t as int).len() >= MATCH_SIZE,
        None => false,
    }
}

/// `ps` are the 10 lowest keys of the free players in `a`'s scan window,
/// in key order.
pub open spec fn lowest_ten_in_window(m: Map<QueueKey, QueuedPlayer>, a: QueuedPlayer, t: int, ps: Seq<QueuedPlayer>) -> bool {
    let w = free_in_window(m, a.mmr, t);
    &&& ps.len() == MATCH_SIZE
    &&& forall|x: int| 0 <= x < ps.len() ==> w.contains(key_of(#[trigger] ps[x])) && m[key_of(ps[x])] == ps[x]
    &&& forall|x: int, y: int| 0 <= x < y < ps.len() ==> key_lt(key_of(#[trigger] ps[x]), key_of(#[trigger] ps[y]))
    &&& forall|k: QueueKey|
        #[trigger] w.contains(k) && (forall|x: int| 0 <= x < ps.len() ==> key_of(ps[x]) != k) ==> forall|x: int|
            0 <= x < ps.len() ==> key_lt(key_of(#[trigger] ps[x]), k)
}

/// A cycle's outcome stated against the queue's contents: nothing happens
/// when no anchor's scan window holds 10 free players; otherwise the first
/// anchor whose window does has its 10 lowest-keyed free players matched,
/// and exactly they leave the queue.
pub open spec fn scan_outcome(
    old_q: Map<QueueKey, QueuedPlayer>,
    new_q: Map<QueueKey, QueuedPlayer>,
    cfg: WorkerConfig,
    waits: Seq<u64>,
    matched: Option<Seq<QueuedPlayer>>,
) -> bool {
    let anchors = anchors_for(old_q, cfg);
    match matched {
        None => {
            &&& new_q == old_q
            &&& forall|i: int| 0 <= i < anchors.len() ==> !window_full(old_q, #[trigger] anchors[i], waits[i] as int)
        },
        Some(ps) => exists|i: int|
            0 <= i < anchors.len() && #[trigger] window_full(old_q, anchors[i], waits[i] as int)
                && (forall|j: int| 0 <= j < i ==> !window_full(old_q, #[trigger] anchors[j], waits[j] as int))
                && lowest_ten_in_window(old_q, anchors[i], (tolerance_option(waits[i] as int)->0) as int, ps)
                && new_q == old_q.remove_keys(keys_of(ps)),
    }
}

/// A cycle scans, around an anchor of MMR `a` with tolerance `t`, exactly
/// the window `[clamp(a - t), clamp(a + t)]`: whatever `cycle_outcome`
/// allows is what `scan_outcome` says of the queue's contents.
pub proof fn lemma_cycle_scans_windows(
    old_q: Map<QueueKey, QueuedPlayer>,
    new_q: Map<QueueKey, QueuedPlayer>,
    cfg: WorkerConfig,
    waits: Seq<u64>,
    matched: Option<Seq<QueuedPlayer>>,
)
    requires
        keyed(old_q),
        old_q.dom().finite(),
        waits.len() == anchors_for(old_q, cfg).len(),
        cycle_outcome(old_q, new_q, cfg, waits, matched),
    ensures
        scan_outcome(old_q, new_q, cfg, waits, matched),
{
    let anchors = anchors_for(old_q, cfg);
    assert forall|i: int| 0 <= i < anchors.len() implies eligible(old_q, anchors[i], waits[i] as int) == window_full(old_q, anchors[i], waits[i] as int) by {
        let w = waits[i] as int;
        if tolerance_option(w) is Some {
            crate::types::lemma_tolerance_valid(w);
            let t = tolerance_option(w)->0;
            lemma_candidates_window(old_q, anchors[i].mmr, t, CANDIDATE_LIMIT as nat);
        }
    }
    match matched {
        None => {},
        Some(ps) => {
            let i = choose|i: int| #[trigger] first_eligible(old_q, anchors, waits, i)
                && ps == match_pick(old_q, anchors[i], tolerance_option(waits[i] as int)->0)
                && new_q == old_q.remove_keys(keys_of(ps));
            let w = waits[i] as int;
            crate::types::lemma_tolerance_valid(w);
            let t = tolerance_option(w)->0;
            let a = anchors[i];
            lemma_candidates_window(old_q, a.mmr, t, CANDIDATE_LIMIT as nat);
            let c = candidates_spec(old_q, a.mmr, t, CANDIDATE_LIMIT as nat);
            assert(ps == c.take(MATCH_SIZE as int));
            let f = free_in_window(old_q, a.mmr, t as int);
            assert forall|k: QueueKey|
                #[trigger] f.contains(k) && (forall|x: int| 0 <= x < ps.len() ==> key_of(ps[x]) != k) implies forall|x: int|
                    0 <= x < ps.len() ==> key_lt(key_of(#[trigger] ps[x]), k) by {
                if exists|y: int| 0 <= y < c.len() && key_of(c[y]) == k {
                    let y = choose|y: int| 0 <= y < c.len() && key_of(c[y]) == k;
                    if y < MATCH_SIZE {
                        assert(key_of(ps[y]) == k);
                    }
                    assert forall|x: int| 0 <= x < ps.len() implies key_lt(key_of(#[trigger] ps[x]), k) by {
                        assert(ps[x] == c[x]);
                    }
                } else {
                    assert forall|x: int| 0 <= x < ps.len() implies key_lt(key_of(#[trigger] ps[x]), k) by {
                        assert(ps[x] == c[x]);
                    }
                }
            }
            assert forall|x: int, y: int| 0 <= x < y < ps.len() implies key_lt(key_of(#[trigger] ps[x]), key_of(#[trigger] ps[y])) by {
                assert(ps[x] == c[x]);
                assert(ps[y] == c[y]);
            }
            assert forall|x: int| 0 <= x < ps.len() implies f.contains(key_of(#[trigger] ps[x])) && old_q[key_of(ps[x])] == ps[x] by {
                assert(ps[x] == c[x]);
            }
            assert(lowest_ten_in_window(old_q, a, t as int, ps));
            assert(window_full(old_q, anchors[i], waits[i] as int));
        },
    }
}

/// `m` with every entry whose key is in `keys` marked reserved.
pub open spec fn reserve_all(m: Map<QueueKey, QueuedPlayer>, keys: Set<QueueKey>) -> Map<QueueKey, QueuedPlayer> {
    Map::new(
        |k: QueueKey| m.dom().contains(k),
        |k: QueueKey| if keys.contains(k) { with_reserved(m[k], true) } else { m[k] },
    )
}

/// The waits, in milliseconds, of a list of snapshots.
pub open spec fn waits_of(snaps: Seq<PlayerSnapshot>) -> Seq<u64> {
    snaps.map_values(|p: PlayerSnapshot| p.wait_ms)
}

proof fn lemma_owned_by_subset(anchors: Seq<QueuedPlayer>, count: nat, id: nat)
    ensures
        forall|i: int| 0 <= i < owned_by(anchors, count, id).len() ==> anchors.contains(#[trigger] owned_by(anchors, count, id)[i]),
    decreases anchors.len(),
{
    if anchors.len() > 0 && count > 0 {
        let init = anchors.drop_last();
        lemma_owned_by_subset(init, count, id);
        let o = owned_by(anchors, count, id);
        assert forall|i: int| 0 <= i < o.len() implies anchors.contains(#[trigger] o[i]) by {
            let prev = owned_by(init, count, id);
            if i < prev.len() {
                assert(o[i] == prev[i]);
                let j = choose|j: int| 0 <= j < init.len() && init[j] == prev[i];
                assert(anchors[j] == init[j]);
            } else {
                assert(o[i] == anchors.last());
                assert(anchors[anchors.len() - 1] == anchors.last());
            }
        }
    }
}

/// The anchors a worker scans are queued and unreserved.
proof fn lemma_anchors_available(m: Map<QueueKey, QueuedPlayer>, cfg: WorkerConfig)
    requires
        keyed(m),
        m.dom().finite(),
        exists|s: Seq<QueueKey>| is_listing(s, m.dom(), min_key(), max_key()),
    ensures
        forall|i: int| 0 <= i < anchors_for(m, cfg).len() ==> {
            let a = #[trigger] anchors_for(m, cfg)[i];
            &&& m.contains_key(key_of(a))
            &&& m[key_of(a)] == a
            &&& !a.reserved
        },
{
    let keys = sorted_keys(m);
    assert(is_listing(keys, m.dom(), min_key(), max_key()));
    let s = strided_unreserved(m, keys, 1);
    lemma_strided_props(m, keys, 1);
    lemma_owned_by_subset(s, cfg.worker_count as nat, cfg.worker_id as nat);
    let o = anchors_for(m, cfg);
    assert forall|i: int| 0 <= i < o.len() implies {
        let a = #[trigger] o[i];
        &&& m.contains_key(key_of(a))
        &&& m[key_of(a)] == a
        &&& !a.reserved
    } by {
        let j = choose|j: int| 0 <= j < s.len() && s[j] == o[i];
        assert(s[j] == o[i]);
    }
}

/// Keep the anchors whose position is `worker_id` modulo `worker_count`.
pub fn select_my_anchors(anchors: &Vec<QueuedPlayer>, cfg: &WorkerConfig) -> (mine: Vec<QueuedPlayer>)
    requires
        cfg.worker_count > 0,
    ensures
        mine@ == owned_by(anchors@, cfg.worker_count as nat, cfg.worker_id as nat),
{
    let mut mine: Vec<QueuedPlayer> = Vec::new();
    let mut i: usize = 0;
    while i < anchors.len()
        invariant
            cfg.worker_count > 0,
            i <= anchors.len(),
            mine@ == owned_by(anchors@.take(i as int), cfg.worker_count as nat, cfg.worker_id as nat),
        decreases anchors.len() - i,
    {
        assert(anchors@.take(i + 1).drop_last() =~= anchors@.take(i as int));
        if i % cfg.worker_count == cfg.worker_id {
            mine.push(anchors[i]);
        }
        i = i + 1;
    }
    assert(anchors@.take(anchors.len() as int) =~= anchors@);
    mine
}

/// The players of one match are distinct queued players: each is queued
/// under its own key, unreserved, and their keys strictly increase.
pub open spec fn distinct_queued(m: Map<QueueKey, QueuedPlayer>, ps: Seq<QueuedPlayer>) -> bool {
    &&& forall|i: int| 0 <= i < ps.len() ==> {
        let p = #[trigger] ps[i];
        &&& m.contains_key(key_of(p))
        &&& m[key_of(p)] == p
        &&& !p.reserved
    }
    &&& forall|i: int, j: int| 0 <= i < j < ps.len() ==> key_lt(key_of(#[trigger] ps[i]), key_of(#[trigger] ps[j]))
}

proof fn lemma_queue_shrinks(qs: Seq<Map<QueueKey, QueuedPlayer>>, matches: Seq<Seq<QueuedPlayer>>, i: int, j: int)
    requires
        qs.len() == matches.len() + 1,
        forall|c: int| 0 <= c < matches.len() ==> qs[c + 1] == qs[c].remove_keys(keys_of(#[trigger] matches[c])),
        0 <= i <= j < qs.len(),
    ensures
        qs[j].dom().subset_of(qs[i].dom()),
    decreases j - i,
{
    if i < j {
        lemma_queue_shrinks(qs, matches, i, j - 1);
        assert(qs[j] == qs[j - 1].remove_keys(keys_of(matches[j - 1])));
    }
}

/// No player is matched twice over any number of cycles: if each cycle
/// draws its match from the queue and removes it, the matches are pairwise
/// disjoint.
pub proof fn lemma_all_matches_disjoint(qs: Seq<Map<QueueKey, QueuedPlayer>>, matches: Seq<Seq<QueuedPlayer>>)
    requires
        qs.len() == matches.len() + 1,
        forall|c: int| 0 <= c < matches.len() ==> qs[c + 1] == qs[c].remove_keys(keys_of(#[trigger] matches[c])),
        forall|c: int, x: int| 0 <= c < matches.len() && 0 <= x < matches[c].len() ==> qs[c].contains_key(key_of(#[trigger] matches[c][x])),
    ensures
        forall|a: int, b: int| 0 <= a < b < matches.len() ==> keys_of(#[trigger] matches[a]).disjoint(keys_of(#[trigger] matches[b])),
{
    assert forall|a: int, b: int| 0 <= a < b < matches.len() implies keys_of(#[trigger] matches[a]).disjoint(keys_of(#[trigger] matches[b])) by {
        lemma_queue_shrinks(qs, matches, a + 1, b);
        assert(qs[a + 1] == qs[a].remove_keys(keys_of(matches[a])));
        assert forall|k: QueueKey| keys_of(matches[a]).contains(k) implies !keys_of(matches[b]).contains(k) by {
            if keys_of(matches[b]).contains(k) {
                let x = choose|x: int| 0 <= x < matches[b].len() && #[trigger] key_of(matches[b][x]) == k;
                assert(qs[b].contains_key(key_of(matches[b][x])));
                assert(qs[a + 1].dom().contains(k));
            }
        }
    }
}

/// The anchors this worker scans, in order.
pub fn cycle_anchors(queue: &MatchmakingQueue, cfg: &WorkerConfig) -> (anchors: Vec<QueuedPlayer>)
    requires
        queue.wf(),
        cfg.worker_count > 0,
    ensures
        anchors@ == anchors_for(queue@, *cfg),
        forall|i: int| 0 <= i < anchors.len() ==> {
            let a = #[trigger] anchors@[i];
            &&& queue@.contains_key(key_of(a))
            &&& queue@[key_of(a)] == a
            &&& !a.reserved
        },
{
    let all = queue.sample_anchors(1);
    proof {
        lemma_anchors_available(queue@, *cfg);
    }
    select_my_anchors(&all, cfg)
}

/// One matching cycle for anchors that have waited `anchor_waits`
/// milliseconds (`anchor_waits[i]` for the `i`-th anchor of `cycle_anchors`).
/// Returns the matched players, which have left the queue, exactly as
/// `cycle_outcome` says.
pub fn form_match_at(queue: &mut MatchmakingQueue, cfg: &WorkerConfig, anchor_waits: &Vec<u64>) -> (r: Option<Vec<QueuedPlayer>>)
    requires
        old(queue).wf(),
        cfg.worker_count > 0,
        anchor_waits.len() == anchors_for(old(queue)@, *cfg).len(),
    ensures
        final(queue).wf(),
        cycle_outcome(old(queue)@, final(queue)@, *cfg, anchor_waits@, match r {
            Some(v) => Some(v@),
            None => None,
        }),
        scan_outcome(old(queue)@, final(queue)@, *cfg, anchor_waits@, match r {
            Some(v) => Some(v@),
            None => None,
        }),
        r matches Some(ps) ==> ps.len() == MATCH_SIZE,
        r matches Some(ps) ==> distinct_queued(old(queue)@, ps@),
        r is Some ==> final(queue)@.len() + MATCH_SIZE == old(queue)@.len(),
{
    let ghost q0 = queue@;
    let mine = cycle_anchors(queue, cfg);
    let mut idx: usize = 0;
    while idx < mine.len()
        invariant
            queue.wf(),
            queue@ == q0,
            q0 == old(queue)@,
            cfg.worker_count > 0,
            mine@ == anchors_for(q0, *cfg),
            anchor_waits.len() == mine.len(),
            idx <= mine.len(),
            forall|j: int| 0 <= j < idx ==> !eligible(q0, #[trigger] mine@[j], anchor_waits@[j] as int),
        decreases mine.len() - idx,
    {
        let anchor = mine[idx];
        let tolerance = match tolerance_for_wait(anchor_waits[idx] as u128) {
            Some(t) => t,
            // The window no longer fits in an `Mmr`.
            None => {
                idx = idx + 1;
                continue;
            },
        };
        proof {
            crate::types::lemma_tolerance_valid(anchor_waits@[idx as int] as int);
        }
        let candidates = queue.find_candidates(anchor.mmr, tolerance, CANDIDATE_LIMIT);
        if candidates.len() < MATCH_SIZE {
            idx = idx + 1;
            continue;
        }
        // Claim the first 10 candidates.
        let mut reserved: Vec<QueuedPlayer> = Vec::with_capacity(MATCH_SIZE);
        let mut j: usize = 0;
        while j < candidates.len() && reserved.len() < MATCH_SIZE
            invariant
                queue.wf(),
                candidates.len() >= MATCH_SIZE,
                j <= candidates.len(),
                j <= MATCH_SIZE,
                reserved.len() == j,
                candidates@ == candidates_spec(q0, anchor.mmr, tolerance, CANDIDATE_LIMIT as nat),
                reserved@ == candidates@.take(j as int),
                queue@ == reserve_all(q0, keys_of(candidates@.take(j as int))),
                forall|i: int| 0 <= i < candidates.len() ==> {
                    let p = #[trigger] candidates@[i];
                    &&& q0.contains_key(key_of(p))
                    &&& q0[key_of(p)] == p
                    &&& !p.reserved
                },
                forall|a: int, b: int| 0 <= a < b < candidates.len() ==> key_lt(
                    key_of(#[trigger] candidates@[a]),
                    key_of(#[trigger] candidates@[b]),
                ),
            decreases candidates.len() - j,
        {
            let c = candidates[j];
            let ghost before = queue@;
            let ghost done = keys_of(candidates@.take(j as int));
            proof {
                if done.contains(key_of(c)) {
                    let i = choose|i: int| 0 <= i < j && #[trigger] key_of(candidates@.take(j as int)[i]) == key_of(c);
                    assert(key_lt(key_of(candidates@[i]), key_of(candidates@[j as int])));
                }
                assert(candidates@[j as int] == c);
            }
            if queue.try_reserve(c.player_id, c.mmr) {
                reserved.push(c);
            }
            proof {
                let next = keys_of(candidates@.take(j + 1));
                assert forall|k: QueueKey| next.contains(k) <==> (done.contains(k) || k == key_of(c)) by {
                    if next.contains(k) {
                        let i = choose|i: int| 0 <= i < j + 1 && #[trigger] key_of(candidates@.take(j + 1)[i]) == k;
                        if i < j {
                            assert(key_of(candidates@.take(j as int)[i]) == k);
                        }
                    }
                    if done.contains(k) {
                        let i = choose|i: int| 0 <= i < j && #[trigger] key_of(candidates@.take(j as int)[i]) == k;
                        assert(key_of(candidates@.take(j + 1)[i]) == k);
                    }
                    if k == key_of(c) {
                        assert(key_of(candidates@.take(j + 1)[j as int]) == k);
                    }
                }
                assert(queue@ =~= reserve_all(q0, next));
                assert(reserved@ =~= candidates@.take(j + 1));
            }
            j = j + 1;
        }
        assert(reserved@.take(reserved.len() as int) =~= reserved@);
        // Commit: the claimed players leave the queue.
        queue.remove_batch(reserved.as_slice());
        proof {
            let chosen = match_pick(q0, anchor, tolerance);
            assert(chosen =~= reserved@);
            assert(queue@ =~= q0.remove_keys(keys_of(reserved@)));
            assert(mine@[idx as int] == anchor);
            assert(first_eligible(q0, mine@, anchor_waits@, idx as int));
            lemma_remove_distinct_keys_len(q0, reserved@);
            assert(cycle_outcome(q0, queue@, *cfg, anchor_waits@, Some(reserved@)));
            lemma_cycle_scans_windows(q0, queue@, *cfg, anchor_waits@, Some(reserved@));
        }
        return Some(reserved);
    }
    proof {
        assert(cycle_outcome(q0, queue@, *cfg, anchor_waits@, None));
        lemma_cycle_scans_windows(q0, queue@, *cfg, anchor_waits@, None);
    }
    None
}

/// Run one matching cycle on the queue, with each anchor's wait read from
/// the clock. Returns `None`, with the queue unchanged, when fewer than 10
/// players are queued; otherwise the cycle goes as `cycle_outcome` says for
/// the waits read, and the snapshots describe the matched players in key
/// order (their waits, too, read from the clock).
pub fn form_match(queue: &mut MatchmakingQueue, cfg: &WorkerConfig) -> (r: Option<Vec<PlayerSnapshot>>)
    requires
        old(queue).wf(),
        old(queue)@.len() >= MATCH_SIZE ==> cfg.worker_count > 0,
    ensures
        final(queue).wf(),
        old(queue)@.len() < MATCH_SIZE ==> r is None && final(queue)@ == old(queue)@,
        r is None ==> final(queue)@ == old(queue)@,
        r matches Some(snaps) ==> snaps.len() == MATCH_SIZE,
        r is Some ==> final(queue)@.len() + MATCH_SIZE == old(queue)@.len(),
        old(queue)@.len() >= MATCH_SIZE ==> exists|waits: Seq<u64>, matched: Option<Seq<QueuedPlayer>>|
            #[trigger] cycle_outcome(old(queue)@, final(queue)@, *cfg, waits, matched)
            && scan_outcome(old(queue)@, final(queue)@, *cfg, waits, matched)
            && waits.len() == anchors_for(old(queue)@, *cfg).len()
            && (r is None <==> matched is None)
            && (r matches Some(snaps) ==> snapshots_of(snaps@, matched->0)),
{
    // Not enough players in the queue.
    if queue.len() < MATCH_SIZE {
        return None;
    }
    let ghost q0 = queue@;
    let anchors = cycle_anchors(queue, cfg);
    let mut waits: Vec<u64> = Vec::with_capacity(anchors.len());
    let mut i: usize = 0;
    while i < anchors.len()
        invariant
            i <= anchors.len(),
            waits.len() == i,
        decreases anchors.len() - i,
    {
        waits.push(anchors[i].wait_ms());
        i = i + 1;
    }
    match form_match_at(queue, cfg, &waits) {
        None => None,
        Some(players) => {
            let mut snapshots: Vec<PlayerSnapshot> = Vec::with_capacity(MATCH_SIZE);
            let mut s: usize = 0;
            while s < players.len()
                invariant
                    s <= players.len(),
                    snapshots_of(snapshots@, players@.take(s as int)),
                decreases players.len() - s,
            {
                let p = players[s];
                snapshots.push(PlayerSnapshot { player_id: p.player_id, mmr: p.mmr, wait_ms: p.wait_ms() });
                proof {
                    assert forall|k: int| 0 <= k < snapshots@.len() implies {
                        &&& (#[trigger] snapshots@[k]).player_id == players@.take(s + 1)[k].player_id
                        &&& snapshots@[k].mmr == players@.take(s + 1)[k].mmr
                    } by {
                        if k < s {
                            assert(players@.take(s + 1)[k] == players@.take(s as int)[k]);
                        }
                    }
                }
                s = s + 1;
            }
            assert(players@.take(players.len() as int) =~= players@);
            Some(snapshots)
        },
    }
}

/// Turn the 10 players of a formed match into a balanced `MatchResult` and
/// record the match in the metrics.
pub fn finish_match(snapshots: Vec<PlayerSnapshot>, match_id: u64, metrics: &mut Metrics) -> (r: MatchResult)
    requires
        snapshots.len() == MATCH_SIZE,
        sum_ms(waits_of(snapshots@)) <= u64::MAX,
    ensures
        r.match_id == match_id,
        r.team_a@ == select_team(snapshots@, best_mask(mmrs_of(snapshots@)), 10, true),
        r.team_b@ == select_team(snapshots@, best_mask(mmrs_of(snapshots@)), 10, false),
        r.team_sum_diff == split_diff(mmrs_of(snapshots@), best_mask(mmrs_of(snapshots@))),
        match_effect(*old(metrics), waits_of(snapshots@), *final(metrics)),
{
    let mut waits: Vec<u64> = Vec::with_capacity(MATCH_SIZE);
    let mut i: usize = 0;
    while i < snapshots.len()
        invariant
            i <= snapshots.len(),
            waits@ == waits_of(snapshots@).take(i as int),
        decreases snapshots.len() - i,
    {
        waits.push(snapshots[i].wait_ms);
        assert(waits@ =~= waits_of(snapshots@).take(i + 1));
        i = i + 1;
    }
    assert(waits@ =~= waits_of(snapshots@));
    let result = balance_teams(snapshots, match_id);
    metrics.match_created(waits.as_slice());
    result
}

} // verus!
