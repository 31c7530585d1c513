//! Core types: queued players, player snapshots and finished matches.

use vstd::prelude::*;

verus! {

/// Unique player identifier.
pub type PlayerId = u64;

/// Matchmaking rating; signed so that deltas can go negative.
pub type Mmr = i32;

/// `std::time::Instant`, carried as an opaque value.
#[verifier::external_type_specification]
#[verifier::external_body]
pub struct ExInstant(std::time::Instant);

/// `std::time::Instant::now`: the current reading of the monotonic clock.
/// Nothing is claimed of the value, which depends on the time of the call.
#[verifier::external_body]
fn instant_now() -> (t: std::time::Instant) {
    std::time::Instant::now()
}

/// `Instant::elapsed`: the time since `t`. Nothing is claimed of the value,
/// which depends on the clock.
#[verifier::external_body]
fn elapsed_since(t: &std::time::Instant) -> (d: std::time::Duration) {
    t.elapsed()
}

/// `Duration::as_millis`: the whole milliseconds in `d`. `Duration` is opaque
/// here, so nothing is claimed of the value.
#[verifier::external_body]
fn duration_millis(d: &std::time::Duration) -> (ms: u128) {
    d.as_millis()
}

/// The time since `t` in whole milliseconds.
fn millis_since(t: &std::time::Instant) -> (ms: u128) {
    let d = elapsed_since(t);
    duration_millis(&d)
}

/// A count of milliseconds as a `u64`, saturated at `u64::MAX`.
pub open spec fn saturate_ms_spec(ms: int) -> u64 {
    if ms > u64::MAX { u64::MAX } else { ms as u64 }
}

/// A count of milliseconds as a `u64`, saturated at `u64::MAX`.
pub fn saturate_ms(ms: u128) -> (r: u64)
    ensures
        r == saturate_ms_spec(ms as int),
{
    if ms > 18446744073709551615u128 { u64::MAX } else { ms as u64 }
}

/// A player sitting in the matchmaking queue.
///
/// `reserved` is set the moment a worker claims this player for a
/// prospective match; a second claim fails until the player is released.
#[derive(Clone, Copy, Debug)]
pub struct QueuedPlayer {
    pub player_id: PlayerId,
    pub mmr: Mmr,
    pub enqueue_time: std::time::Instant,
    /// false = available, true = reserved by a worker.
    pub reserved: bool,
}

/// The tolerance owed to a player who has waited `wait_ms` milliseconds:
/// it starts at 50 and widens by 25 for every full 5 seconds of waiting.
pub open spec fn tolerance_spec(wait_ms: int) -> int {
    50 + 25 * expansions_spec(wait_ms)
}

/// Number of full 5-second periods in `wait_ms`, saturated at `i32::MAX`.
pub open spec fn expansions_spec(wait_ms: int) -> int {
    if wait_ms / 5000 > i32::MAX { i32::MAX as int } else { wait_ms / 5000 }
}

/// A tolerance that some waiting time yields: 50 plus a multiple of 25.
pub open spec fn valid_tolerance(t: int) -> bool {
    t >= 50 && (t - 50) % 25 == 0
}

/// The tolerance after `wait_ms` milliseconds as an `Mmr`, or `None` where
/// it does not fit in one.
pub open spec fn tolerance_option(wait_ms: int) -> Option<Mmr> {
    if tolerance_spec(wait_ms) <= i32::MAX {
        Some(tolerance_spec(wait_ms) as Mmr)
    } else {
        None
    }
}

/// Every waiting time yields a tolerance of 50 plus a multiple of 25.
pub proof fn lemma_tolerance_valid(wait_ms: int)
    requires
        wait_ms >= 0,
    ensures
        valid_tolerance(tolerance_spec(wait_ms)),
{
}

/// The MMR window half-width after waiting `wait_ms` milliseconds, or `None`
/// where `50 + 25 * expansions` no longer fits in an `Mmr`.
pub fn tolerance_for_wait(wait_ms: u128) -> (t: Option<Mmr>)
    ensures
        t == tolerance_option(wait_ms as int),
{
    let periods: u128 = wait_ms / 5000;
    let expansions: u64 = if periods > 2147483647u128 { 2147483647u64 } else { periods as u64 };
    // 85_899_343 is the largest count k with 50 + 25 * k <= i32::MAX.
    if expansions > 85899343u64 {
        None
    } else {
        Some((50u64 + expansions * 25) as Mmr)
    }
}

/// `after` is `before` with the reservation flag set, and `won` says whether
/// the flag was clear before.
pub open spec fn claimed(before: QueuedPlayer, won: bool, after: QueuedPlayer) -> bool {
    &&& won == !before.reserved
    &&& after.reserved
    &&& after.player_id == before.player_id
    &&& after.mmr == before.mmr
    &&& after.enqueue_time == before.enqueue_time
}

/// `after` is `before` with the reservation flag cleared.
pub open spec fn released(before: QueuedPlayer, after: QueuedPlayer) -> bool {
    &&& !after.reserved
    &&& after.player_id == before.player_id
    &&& after.mmr == before.mmr
    &&& after.enqueue_time == before.enqueue_time
}

/// Single ownership: of two claims on the same player with no release in
/// between, the second never succeeds.
pub proof fn lemma_second_claim_fails(p0: QueuedPlayer, won1: bool, p1: QueuedPlayer, won2: bool, p2: QueuedPlayer)
    requires
        claimed(p0, won1, p1),
        claimed(p1, won2, p2),
    ensures
        !won2,
        p2 == p1,
{
}

/// Of any number of claims on an available player with no release in
/// between, exactly one succeeds: the first. The player stays reserved.
pub proof fn lemma_one_claim_wins(ps: Seq<QueuedPlayer>, wins: Seq<bool>)
    requires
        ps.len() == wins.len() + 1,
        !ps[0].reserved,
        forall|i: int| 0 <= i < wins.len() ==> claimed(ps[i], #[trigger] wins[i], ps[i + 1]),
    ensures
        wins.len() > 0 ==> wins[0],
        forall|i: int| 0 < i < wins.len() ==> !#[trigger] wins[i],
        wins.len() > 0 ==> ps.last().reserved,
{
    assert forall|i: int| 0 < i < wins.len() implies !#[trigger] wins[i] by {
        assert(claimed(ps[i - 1], wins[i - 1], ps[i]));
        assert(claimed(ps[i], wins[i], ps[i + 1]));
    }
    if wins.len() > 0 {
        assert(claimed(ps[0], wins[0], ps[1]));
        let n = wins.len() - 1;
        assert(claimed(ps[n], wins[n], ps[n + 1]));
    }
}

/// A released player can be claimed again.
pub proof fn lemma_release_then_claim(p0: QueuedPlayer, p1: QueuedPlayer, won: bool, p2: QueuedPlayer)
    requires
        released(p0, p1),
        claimed(p1, won, p2),
    ensures
        won,
{
}

/// The tolerance starts at 50 and stays there for the first 5 seconds.
pub proof fn lemma_tolerance_starts_at_50(wait_ms: int)
    requires
        0 <= wait_ms < 5000,
    ensures
        tolerance_spec(wait_ms) == 50,
{
}

/// Every further 5 seconds of waiting widens the tolerance by 25 (as long
/// as the number of periods is below the saturation point).
pub proof fn lemma_tolerance_step(wait_ms: int)
    requires
        0 <= wait_ms,
        wait_ms / 5000 < i32::MAX,
    ensures
        tolerance_spec(wait_ms + 5000) == tolerance_spec(wait_ms) + 25,
{
    assert((wait_ms + 5000) / 5000 == wait_ms / 5000 + 1);
}

/// The tolerance never narrows as the wait grows.
pub proof fn lemma_tolerance_monotone(w1: int, w2: int)
    requires
        0 <= w1 <= w2,
    ensures
        tolerance_spec(w1) <= tolerance_spec(w2),
{
    vstd::arithmetic::div_mod::lemma_div_is_ordered(w1, w2, 5000);
}

impl QueuedPlayer {
    /// A fresh, unreserved player enqueued now.
    pub fn new(player_id: PlayerId, mmr: Mmr) -> (p: Self)
        ensures
            p.player_id == player_id,
            p.mmr == mmr,
            !p.reserved,
    {
        QueuedPlayer { player_id, mmr, enqueue_time: instant_now(), reserved: false }
    }

    /// Claim this player. Returns `true` iff this call flipped the flag from
    /// available to reserved.
    pub fn try_reserve(&mut self) -> (won: bool)
        ensures
            claimed(*old(self), won, *final(self)),
    {
        if self.reserved {
            false
        } else {
            self.reserved = true;
            true
        }
    }

    /// Release a reservation (a match could not be formed after a partial claim).
    pub fn release(&mut self)
        ensures
            released(*old(self), *final(self)),
    {
        self.reserved = false;
    }

    /// Milliseconds this player has spent in the queue, saturated at
    /// `u64::MAX`. The clock decides the value.
    pub fn wait_ms(&self) -> (ms: u64) {
        let ms: u128 = millis_since(&self.enqueue_time);
        saturate_ms(ms)
    }

    /// Current acceptable MMR window half-width: 50, widening by 25 every
    /// full 5 seconds of waiting. `None` once the width no longer fits in an
    /// `Mmr`. The result is the tolerance for the time waited so far, which
    /// the clock decides.
    pub fn mmr_tolerance(&self) -> (t: Option<Mmr>)
        ensures
            exists|w: int| w >= 0 && t == #[trigger] tolerance_option(w),
            t matches Some(w) ==> valid_tolerance(w as int),
    {
        let ms: u128 = millis_since(&self.enqueue_time);
        proof {
            lemma_tolerance_valid(ms as int);
        }
        tolerance_for_wait(ms)
    }
}

/// Immutable snapshot of a player captured at match creation time.
#[derive(Clone, Copy, Debug)]
pub struct PlayerSnapshot {
    pub player_id: PlayerId,
    pub mmr: Mmr,
    /// Time spent in the queue, in whole milliseconds.
    pub wait_ms: u64,
}

/// A completed, balanced 5v5 match.
#[derive(Clone, Debug)]
pub struct MatchResult {
    pub match_id: u64,
    pub team_a: Vec<PlayerSnapshot>,
    pub team_b: Vec<PlayerSnapshot>,
    /// `|sum(team_a mmr) - sum(team_b mmr)|`; the difference of the two
    /// average MMRs is this value divided by the team size.
    pub team_sum_diff: u64,
}

} // verus!
