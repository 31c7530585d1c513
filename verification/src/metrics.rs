//! Health metrics: counters and raw wait-time samples.
//!
//! Counters wrap on overflow, as atomic adds do. Wait times are recorded in
//! whole milliseconds; each sample is also kept as a `u32` (saturated) for
//! percentile queries.

use vstd::prelude::*;
use vstd::relations::{sorted_by, total_ordering};

verus! {

/// Ascending order on samples.
pub open spec fn sample_order() -> spec_fn(u32, u32) -> bool {
    |a: u32, b: u32| a <= b
}

/// A millisecond wait stored as a `u32` sample, saturated.
pub open spec fn sample_of(ms: u64) -> u32 {
    if ms > u32::MAX { u32::MAX } else { ms as u32 }
}

/// Sum of a sequence of millisecond waits.
pub open spec fn sum_ms(waits: Seq<u64>) -> int
    decreases waits.len(),
{
    if waits.len() == 0 {
        0
    } else {
        sum_ms(waits.drop_last()) + waits.last()
    }
}

/// The sample at rank `len * pct / 100` of the sorted samples; 0 when there
/// are none.
pub open spec fn percentile(samples: Seq<u32>, pct: int) -> u32 {
    if samples.len() == 0 {
        0
    } else {
        samples.sort_by(sample_order())[samples.len() * pct / 100]
    }
}

/// `slice::sort_unstable` on a `Vec<u32>`: afterwards the elements are in
/// ascending order and are the same elements, with the same multiplicities.
#[verifier::external_body]
fn sort_samples(v: &mut Vec<u32>)
    ensures
        sorted_by(final(v)@, sample_order()),
        final(v)@.to_multiset() == old(v)@.to_multiset(),
{
    v.sort_unstable();
}

/// Shared metrics store.
pub struct Metrics {
    /// Current number of players waiting in the queue.
    pub queue_size: i64,
    /// Total matches created.
    pub matches_created: u64,
    /// Sum of all player wait times in milliseconds.
    pub wait_ms_total: u64,
    /// Total players that have left the queue through a match.
    pub players_matched: u64,
    /// Worker cycles executed.
    pub worker_cycles: u64,
    /// Raw wait-time samples (ms), for percentiles.
    pub wait_samples: Vec<u32>,
}

/// Point-in-time copy of the metrics, for reporting.
#[derive(Clone, Copy, Debug)]
pub struct MetricsSnapshot {
    /// Queue size, negative values read as 0.
    pub queue_size: u64,
    pub matches_created: u64,
    pub players_matched: u64,
    /// Sum of the recorded waits, in milliseconds; the average wait is this
    /// divided by `players_matched`.
    pub wait_ms_total: u64,
    pub p50_wait_ms: u32,
    pub p95_wait_ms: u32,
    pub worker_cycles: u64,
}

/// Freshly created metrics: every counter 0, no samples.
pub open spec fn is_fresh(m: Metrics) -> bool {
    &&& m.queue_size == 0
    &&& m.matches_created == 0
    &&& m.wait_ms_total == 0
    &&& m.players_matched == 0
    &&& m.worker_cycles == 0
    &&& m.wait_samples@ == Seq::<u32>::empty()
}

/// `m2` is `m1` after one player entered the queue.
pub open spec fn enqueue_effect(m1: Metrics, m2: Metrics) -> bool {
    &&& m2.queue_size == m1.queue_size.wrapping_add(1)
    &&& m2.matches_created == m1.matches_created
    &&& m2.wait_ms_total == m1.wait_ms_total
    &&& m2.players_matched == m1.players_matched
    &&& m2.worker_cycles == m1.worker_cycles
    &&& m2.wait_samples@ == m1.wait_samples@
}

/// `m2` is `m1` after one worker cycle.
pub open spec fn cycle_effect(m1: Metrics, m2: Metrics) -> bool {
    &&& m2.worker_cycles == m1.worker_cycles.wrapping_add(1)
    &&& m2.queue_size == m1.queue_size
    &&& m2.matches_created == m1.matches_created
    &&& m2.wait_ms_total == m1.wait_ms_total
    &&& m2.players_matched == m1.players_matched
    &&& m2.wait_samples@ == m1.wait_samples@
}

/// `m2` is `m1` after a match of players who waited `waits` milliseconds.
pub open spec fn match_effect(m1: Metrics, waits: Seq<u64>, m2: Metrics) -> bool {
    &&& m2.queue_size == m1.queue_size.wrapping_sub(waits.len() as i64)
    &&& m2.matches_created == m1.matches_created.wrapping_add(1)
    &&& m2.wait_ms_total == m1.wait_ms_total.wrapping_add(sum_ms(waits) as u64)
    &&& m2.players_matched == m1.players_matched.wrapping_add(waits.len() as u64)
    &&& m2.worker_cycles == m1.worker_cycles
    &&& m2.wait_samples@ == m1.wait_samples@ + waits.map_values(|ms: u64| sample_of(ms))
}

/// The snapshot of `m`.
pub open spec fn snapshot_of(m: Metrics) -> MetricsSnapshot {
    MetricsSnapshot {
        queue_size: if m.queue_size < 0 { 0 } else { m.queue_size as u64 },
        matches_created: m.matches_created,
        players_matched: m.players_matched,
        wait_ms_total: m.wait_ms_total,
        p50_wait_ms: percentile(m.wait_samples@, 50),
        p95_wait_ms: percentile(m.wait_samples@, 95),
        worker_cycles: m.worker_cycles,
    }
}

impl Metrics {
    pub fn new() -> (m: Self)
        ensures
            is_fresh(m),
    {
        Metrics {
            queue_size: 0,
            matches_created: 0,
            wait_ms_total: 0,
            players_matched: 0,
            worker_cycles: 0,
            wait_samples: Vec::with_capacity(1_000_000),
        }
    }

    /// A player entered the queue.
    pub fn player_enqueued(&mut self)
        ensures
            enqueue_effect(*old(self), *final(self)),
    {
        self.queue_size = self.queue_size.wrapping_add(1);
    }

    /// A match was created for players who waited `player_wait_ms`.
    pub fn match_created(&mut self, player_wait_ms: &[u64])
        requires
            sum_ms(player_wait_ms@) <= u64::MAX,
        ensures
            match_effect(*old(self), player_wait_ms@, *final(self)),
    {
        let n: u64 = player_wait_ms.len() as u64;
        let mut ms_sum: u64 = 0;
        let mut i: usize = 0;
        while i < player_wait_ms.len()
            invariant
                i <= player_wait_ms.len(),
                sum_ms(player_wait_ms@) <= u64::MAX,
                ms_sum == sum_ms(player_wait_ms@.take(i as int)),
            decreases player_wait_ms.len() - i,
        {
            proof {
                lemma_sum_prefix(player_wait_ms@, (i + 1) as nat);
                assert(player_wait_ms@.take(i + 1).drop_last() =~= player_wait_ms@.take(i as int));
            }
            ms_sum = ms_sum + player_wait_ms[i];
            i = i + 1;
        }
        assert(player_wait_ms@.take(player_wait_ms.len() as int) =~= player_wait_ms@);

        self.queue_size = self.queue_size.wrapping_sub(n as i64);
        self.matches_created = self.matches_created.wrapping_add(1);
        self.wait_ms_total = self.wait_ms_total.wrapping_add(ms_sum);
        self.players_matched = self.players_matched.wrapping_add(n);

        let ghost before = self.wait_samples@;
        let ghost counters = (self.queue_size, self.matches_created, self.wait_ms_total, self.players_matched, self.worker_cycles);
        let mut j: usize = 0;
        while j < player_wait_ms.len()
            invariant
                j <= player_wait_ms.len(),
                counters == (self.queue_size, self.matches_created, self.wait_ms_total, self.players_matched, self.worker_cycles),
                self.wait_samples@ == before + player_wait_ms@.take(j as int).map_values(|ms: u64| sample_of(ms)),
            decreases player_wait_ms.len() - j,
        {
            let ms: u64 = player_wait_ms[j];
            let sample: u32 = if ms > 4294967295u64 { u32::MAX } else { ms as u32 };
            self.wait_samples.push(sample);
            assert(player_wait_ms@.take(j + 1).map_values(|ms: u64| sample_of(ms))
                =~= player_wait_ms@.take(j as int).map_values(|ms: u64| sample_of(ms)).push(sample_of(ms)));
            j = j + 1;
        }
    }

    /// One worker cycle ran.
    pub fn worker_cycle(&mut self)
        ensures
            cycle_effect(*old(self), *final(self)),
    {
        self.worker_cycles = self.worker_cycles.wrapping_add(1);
    }

    /// Number of recorded wait samples.
    pub fn sample_count(&self) -> (n: usize)
        ensures
            n == self.wait_samples@.len(),
    {
        self.wait_samples.len()
    }

    /// p50 and p95 of the recorded samples: the sorted samples at ranks
    /// `len * 50 / 100` and `len * 95 / 100`; (0, 0) when there are none.
    fn percentiles(&self) -> (r: (u32, u32))
        requires
            self.wait_samples@.len() * 95 <= usize::MAX,
        ensures
            r == (percentile(self.wait_samples@, 50), percentile(self.wait_samples@, 95)),
    {
        if self.wait_samples.len() == 0 {
            return (0, 0);
        }
        let mut sorted = self.wait_samples.clone();
        assert(sorted@ =~= self.wait_samples@);
        sort_samples(&mut sorted);
        proof {
            lemma_sample_order_total();
            self.wait_samples@.lemma_sort_by_ensures(sample_order());
            vstd::seq_lib::lemma_sorted_unique(sorted@, self.wait_samples@.sort_by(sample_order()), sample_order());
            assert(sorted@.len() == self.wait_samples@.len()) by {
                vstd::seq_lib::lemma_multiset_commutative(sorted@, Seq::<u32>::empty());
                sorted@.to_multiset_ensures();
                self.wait_samples@.to_multiset_ensures();
            }
        }
        let len: usize = sorted.len();
        let p50: u32 = sorted[len * 50 / 100];
        let p95: u32 = sorted[len * 95 / 100];
        (p50, p95)
    }

    /// Point-in-time snapshot of the metrics.
    pub fn snapshot(&self) -> (s: MetricsSnapshot)
        requires
            self.wait_samples@.len() * 95 <= usize::MAX,
        ensures
            s == snapshot_of(*self),
    {
        let (p50, p95) = self.percentiles();
        let qs: i64 = self.queue_size;
        MetricsSnapshot {
            queue_size: if qs < 0 { 0 } else { qs as u64 },
            matches_created: self.matches_created,
            players_matched: self.players_matched,
            wait_ms_total: self.wait_ms_total,
            p50_wait_ms: p50,
            p95_wait_ms: p95,
            worker_cycles: self.worker_cycles,
        }
    }
}

impl Default for Metrics {
    fn default() -> (m: Self)
        ensures
            is_fresh(m),
    {
        Self::new()
    }
}

/// Number of samples in `s` that satisfy `f`.
pub open spec fn count_where(s: Seq<u32>, f: spec_fn(u32) -> bool) -> nat
    decreases s.len(),
{
    if s.len() == 0 {
        0
    } else {
        (if f(s[0]) { 1nat } else { 0nat }) + count_where(s.drop_first(), f)
    }
}

/// Number of samples strictly below `v`.
pub open spec fn count_below(s: Seq<u32>, v: u32) -> nat {
    count_where(s, |x: u32| x < v)
}

/// Number of samples at most `v`.
pub open spec fn count_at_most(s: Seq<u32>, v: u32) -> nat {
    count_where(s, |x: u32| x <= v)
}

proof fn lemma_count_concat(a: Seq<u32>, b: Seq<u32>, f: spec_fn(u32) -> bool)
    ensures
        count_where(a + b, f) == count_where(a, f) + count_where(b, f),
    decreases a.len(),
{
    if a.len() == 0 {
        assert(a + b =~= b);
    } else {
        assert((a + b).drop_first() =~= a.drop_first() + b);
        assert((a + b)[0] == a[0]);
        lemma_count_concat(a.drop_first(), b, f);
    }
}

proof fn lemma_count_bounds(s: Seq<u32>, f: spec_fn(u32) -> bool)
    ensures
        count_where(s, f) <= s.len(),
        (forall|i: int| 0 <= i < s.len() ==> f(#[trigger] s[i])) ==> count_where(s, f) == s.len(),
        (forall|i: int| 0 <= i < s.len() ==> !f(#[trigger] s[i])) ==> count_where(s, f) == 0,
    decreases s.len(),
{
    if s.len() > 0 {
        lemma_count_bounds(s.drop_first(), f);
        if forall|i: int| 0 <= i < s.len() ==> f(#[trigger] s[i]) {
            assert forall|i: int| 0 <= i < s.drop_first().len() implies f(#[trigger] s.drop_first()[i]) by {
                assert(f(s[i + 1]));
            }
        }
        if forall|i: int| 0 <= i < s.len() ==> !f(#[trigger] s[i]) {
            assert forall|i: int| 0 <= i < s.drop_first().len() implies !f(#[trigger] s.drop_first()[i]) by {
                assert(!f(s[i + 1]));
            }
        }
    }
}

proof fn lemma_count_remove(s: Seq<u32>, j: int, f: spec_fn(u32) -> bool)
    requires
        0 <= j < s.len(),
    ensures
        count_where(s, f) == (if f(s[j]) { 1nat } else { 0nat }) + count_where(s.remove(j), f),
{
    let a = s.take(j);
    let b = s.skip(j + 1);
    assert(s =~= a + (seq![s[j]] + b));
    assert(s.remove(j) =~= a + b);
    lemma_count_concat(a, seq![s[j]] + b, f);
    lemma_count_concat(seq![s[j]], b, f);
    lemma_count_concat(a, b, f);
    let one = seq![s[j]];
    assert(one.drop_first() =~= Seq::<u32>::empty());
    assert(one[0] == s[j]);
    assert(count_where(Seq::<u32>::empty(), f) == 0);
    assert(count_where(one, f) == (if f(s[j]) { 1nat } else { 0nat }) + count_where(one.drop_first(), f));
}

proof fn lemma_count_perm(a: Seq<u32>, b: Seq<u32>, f: spec_fn(u32) -> bool)
    requires
        a.to_multiset() == b.to_multiset(),
    ensures
        count_where(a, f) == count_where(b, f),
    decreases a.len(),
{
    broadcast use vstd::multiset::group_multiset_axioms;

    vstd::seq_lib::to_multiset_len(a);
    vstd::seq_lib::to_multiset_len(b);
    if a.len() > 0 {
        let x = a[0];
        vstd::seq_lib::to_multiset_contains(a, x);
        assert(a.contains(x)) by {
            assert(a[0] == x);
        }
        vstd::seq_lib::to_multiset_contains(b, x);
        let j = choose|j: int| 0 <= j < b.len() && b[j] == x;
        vstd::seq_lib::to_multiset_remove(a, 0);
        vstd::seq_lib::to_multiset_remove(b, j);
        assert(a.remove(0) =~= a.drop_first());
        lemma_count_perm(a.drop_first(), b.remove(j), f);
        lemma_count_remove(b, j, f);
    } else {
        assert(b.len() == 0);
    }
}

proof fn lemma_count_sorted_rank(t: Seq<u32>, r: int)
    requires
        sorted_by(t, sample_order()),
        0 <= r < t.len(),
    ensures
        count_below(t, t[r]) <= r,
        count_at_most(t, t[r]) >= r + 1,
{
    let v = t[r];
    let lt = |x: u32| x < v;
    let le = |x: u32| x <= v;
    let a = t.take(r);
    let b = t.skip(r);
    assert(t =~= a + b);
    lemma_count_concat(a, b, lt);
    lemma_count_bounds(a, lt);
    assert forall|i: int| 0 <= i < b.len() implies !lt(#[trigger] b[i]) by {
        assert(b[i] == t[r + i]);
        if i > 0 {
            assert(sample_order()(t[r], t[r + i]));
        }
    }
    lemma_count_bounds(b, lt);
    let c = t.take(r + 1);
    let d = t.skip(r + 1);
    assert(t =~= c + d);
    lemma_count_concat(c, d, le);
    assert forall|i: int| 0 <= i < c.len() implies le(#[trigger] c[i]) by {
        assert(c[i] == t[i]);
        if i < r {
            assert(sample_order()(t[i], t[r]));
        }
    }
    lemma_count_bounds(c, le);
}

/// A percentile of the samples, stated against the samples themselves: for
/// `n > 0` samples, the reported value `p` is one of them, fewer than or
/// exactly `n * pct / 100` samples lie strictly below it, and more than
/// `n * pct / 100` lie at or below it. Without samples it is 0.
pub proof fn lemma_percentile_rank(samples: Seq<u32>, pct: int)
    requires
        0 <= pct < 100,
    ensures
        samples.len() == 0 ==> percentile(samples, pct) == 0,
        samples.len() > 0 ==> {
            let p = percentile(samples, pct);
            let r = samples.len() * pct / 100;
            &&& samples.contains(p)
            &&& count_below(samples, p) <= r
            &&& r < count_at_most(samples, p)
        },
{
    if samples.len() > 0 {
        let n = samples.len() as int;
        let r = n * pct / 100;
        let x = n * pct;
        assert(0 <= x <= n * 99) by (nonlinear_arith)
            requires
                n > 0,
                0 <= pct < 100,
                x == n * pct,
        ;
        assert(0 <= r < n);
        lemma_sample_order_total();
        samples.lemma_sort_by_ensures(sample_order());
        let t = samples.sort_by(sample_order());
        vstd::seq_lib::to_multiset_len(samples);
        vstd::seq_lib::to_multiset_len(t);
        let p = t[r];
        lemma_count_sorted_rank(t, r);
        lemma_count_perm(samples, t, |x: u32| x < p);
        lemma_count_perm(samples, t, |x: u32| x <= p);
        assert(t.contains(p));
        vstd::seq_lib::to_multiset_contains(t, p);
        vstd::seq_lib::to_multiset_contains(samples, p);
    }
}

/// The snapshot's p50 and p95 are the median and the 95th percentile of
/// the recorded samples, as `lemma_percentile_rank` states them.
pub proof fn lemma_snapshot_percentiles(m: Metrics)
    ensures
        m.wait_samples@.len() == 0 ==> snapshot_of(m).p50_wait_ms == 0 && snapshot_of(m).p95_wait_ms == 0,
        m.wait_samples@.len() > 0 ==> {
            let s = m.wait_samples@;
            let n = s.len();
            &&& s.contains(snapshot_of(m).p50_wait_ms)
            &&& count_below(s, snapshot_of(m).p50_wait_ms) <= n * 50 / 100
            &&& n * 50 / 100 < count_at_most(s, snapshot_of(m).p50_wait_ms)
            &&& s.contains(snapshot_of(m).p95_wait_ms)
            &&& count_below(s, snapshot_of(m).p95_wait_ms) <= n * 95 / 100
            &&& n * 95 / 100 < count_at_most(s, snapshot_of(m).p95_wait_ms)
        },
{
    lemma_percentile_rank(m.wait_samples@, 50);
    lemma_percentile_rank(m.wait_samples@, 95);
}

/// The median wait never exceeds the 95th-percentile wait.
pub proof fn lemma_p50_le_p95(samples: Seq<u32>)
    ensures
        percentile(samples, 50) <= percentile(samples, 95),
{
    if samples.len() > 0 {
        let n: int = samples.len() as int;
        lemma_sample_order_total();
        samples.lemma_sort_by_ensures(sample_order());
        let sorted = samples.sort_by(sample_order());
        assert(sorted.len() == n) by {
            sorted.to_multiset_ensures();
            samples.to_multiset_ensures();
        }
        assert(n * 50 / 100 <= n * 95 / 100 < n) by (nonlinear_arith)
            requires
                n > 0,
        ;
        if n * 50 / 100 < n * 95 / 100 {
            assert(sample_order()(sorted[n * 50 / 100], sorted[n * 95 / 100]));
        }
    }
}

/// The metrics account for `enqueued` enqueues, `cycles` worker cycles and
/// `matches` matches of `matched` players who waited `wait_ms` in total
/// (as long as no counter has wrapped).
pub open spec fn accounts(m: Metrics, enqueued: int, cycles: int, matches: int, matched: int, wait_ms: int) -> bool {
    &&& m.queue_size == enqueued - matched
    &&& m.matches_created == matches
    &&& m.players_matched == matched
    &&& m.worker_cycles == cycles
    &&& m.wait_ms_total == wait_ms
}

/// Fresh metrics account for nothing.
pub proof fn lemma_accounts_fresh(m: Metrics)
    requires
        is_fresh(m),
    ensures
        accounts(m, 0, 0, 0, 0, 0),
{
}

/// An enqueue is counted once.
pub proof fn lemma_accounts_enqueue(m1: Metrics, m2: Metrics, e: int, c: int, k: int, p: int, w: int)
    requires
        accounts(m1, e, c, k, p, w),
        enqueue_effect(m1, m2),
        e + 1 - p <= i64::MAX,
    ensures
        accounts(m2, e + 1, c, k, p, w),
{
}

/// A worker cycle is counted once.
pub proof fn lemma_accounts_cycle(m1: Metrics, m2: Metrics, e: int, c: int, k: int, p: int, w: int)
    requires
        accounts(m1, e, c, k, p, w),
        cycle_effect(m1, m2),
        c + 1 <= u64::MAX,
    ensures
        accounts(m2, e, c + 1, k, p, w),
{
}

/// A match is counted once, with its players and their waits.
pub proof fn lemma_accounts_match(m1: Metrics, waits: Seq<u64>, m2: Metrics, e: int, c: int, k: int, p: int, w: int)
    requires
        accounts(m1, e, c, k, p, w),
        match_effect(m1, waits, m2),
        k + 1 <= u64::MAX,
        p + waits.len() <= u64::MAX,
        w + sum_ms(waits) <= u64::MAX,
        waits.len() <= i64::MAX,
        e - p - waits.len() >= i64::MIN,
    ensures
        accounts(m2, e, c, k + 1, p + waits.len(), w + sum_ms(waits)),
{
    lemma_sum_nonneg(waits);
    assert((waits.len() as i64) == waits.len());
    assert((waits.len() as u64) == waits.len());
    assert((sum_ms(waits) as u64) == sum_ms(waits));
}

/// The snapshot reports what the metrics account for: the queue size is
/// enqueues minus matched players, read as 0 when negative.
pub proof fn lemma_snapshot_accounts(m: Metrics, e: int, c: int, k: int, p: int, w: int)
    requires
        accounts(m, e, c, k, p, w),
    ensures
        snapshot_of(m).queue_size == (if e - p < 0 { 0 } else { e - p }),
        snapshot_of(m).matches_created == k,
        snapshot_of(m).players_matched == p,
        snapshot_of(m).worker_cycles == c,
        snapshot_of(m).wait_ms_total == w,
{
}

/// The order in which two matches are recorded does not matter: both
/// orders give the same snapshot.
pub proof fn lemma_match_order(m0: Metrics, a: Seq<u64>, b: Seq<u64>, m1: Metrics, m2: Metrics, n1: Metrics, n2: Metrics)
    requires
        match_effect(m0, a, m1),
        match_effect(m1, b, m2),
        match_effect(m0, b, n1),
        match_effect(n1, a, n2),
    ensures
        snapshot_of(m2) == snapshot_of(n2),
{
    let sa = a.map_values(|ms: u64| sample_of(ms));
    let sb = b.map_values(|ms: u64| sample_of(ms));
    let x = m0.wait_samples@ + sa + sb;
    let y = m0.wait_samples@ + sb + sa;
    assert(m2.wait_samples@ == x);
    assert(n2.wait_samples@ == y);
    assert(x.to_multiset() =~= y.to_multiset()) by {
        vstd::seq_lib::lemma_multiset_commutative(m0.wait_samples@ + sa, sb);
        vstd::seq_lib::lemma_multiset_commutative(m0.wait_samples@, sa);
        vstd::seq_lib::lemma_multiset_commutative(m0.wait_samples@ + sb, sa);
        vstd::seq_lib::lemma_multiset_commutative(m0.wait_samples@, sb);
    }
    lemma_sample_order_total();
    x.lemma_sort_by_ensures(sample_order());
    y.lemma_sort_by_ensures(sample_order());
    vstd::seq_lib::lemma_sorted_unique(x.sort_by(sample_order()), y.sort_by(sample_order()), sample_order());
    assert(x.len() == y.len());
}

/// What an event does to the metrics: tag 0 is an enqueue, tag 1 a worker
/// cycle, any other tag a match of players who waited the given times.
pub open spec fn event_effect(m1: Metrics, event: (u8, Seq<u64>), m2: Metrics) -> bool {
    if event.0 == 0 {
        enqueue_effect(m1, m2)
    } else if event.0 == 1 {
        cycle_effect(m1, m2)
    } else {
        match_effect(m1, event.1, m2)
    }
}

/// Number of events with tag `tag` (any tag of 2 or more counts as a match).
pub open spec fn count_tag(events: Seq<(u8, Seq<u64>)>, tag: u8) -> int
    decreases events.len(),
{
    if events.len() == 0 {
        0
    } else {
        let t = events.last().0;
        let hit = if tag >= 2 { t >= 2 } else { t == tag };
        count_tag(events.drop_last(), tag) + if hit { 1int } else { 0int }
    }
}

/// Players in all the matches among `events`.
pub open spec fn count_matched(events: Seq<(u8, Seq<u64>)>) -> int
    decreases events.len(),
{
    if events.len() == 0 {
        0
    } else {
        count_matched(events.drop_last()) + if events.last().0 >= 2 { events.last().1.len() as int } else { 0int }
    }
}

/// Total wait of the players in all the matches among `events`.
pub open spec fn total_wait(events: Seq<(u8, Seq<u64>)>) -> int
    decreases events.len(),
{
    if events.len() == 0 {
        0
    } else {
        total_wait(events.drop_last()) + if events.last().0 >= 2 { sum_ms(events.last().1) } else { 0int }
    }
}

proof fn lemma_counts_nonneg(events: Seq<(u8, Seq<u64>)>)
    ensures
        count_tag(events, 0) >= 0,
        count_tag(events, 1) >= 0,
        count_tag(events, 2) >= 0,
        count_matched(events) >= 0,
        total_wait(events) >= 0,
    decreases events.len(),
{
    if events.len() > 0 {
        lemma_counts_nonneg(events.drop_last());
        lemma_sum_nonneg(events.last().1);
    }
}

/// Starting from fresh metrics, after any sequence of enqueues, worker
/// cycles and matches, in any order, the metrics account for all of them,
/// and so does the snapshot: `matches_created` is the number of matches,
/// `players_matched` their players, `worker_cycles` the cycles,
/// `wait_ms_total` the waits, and the queue size is enqueues minus matched
/// players, read as 0 when negative (as long as no counter wraps).
pub proof fn lemma_trace_accounts(ms: Seq<Metrics>, events: Seq<(u8, Seq<u64>)>)
    requires
        ms.len() == events.len() + 1,
        is_fresh(ms[0]),
        forall|i: int| 0 <= i < events.len() ==> event_effect(ms[i], #[trigger] events[i], ms[i + 1]),
        count_tag(events, 0) <= i64::MAX,
        count_tag(events, 1) <= u64::MAX,
        count_tag(events, 2) <= u64::MAX,
        count_matched(events) <= i64::MAX,
        total_wait(events) <= u64::MAX,
    ensures
        accounts(
            ms.last(),
            count_tag(events, 0),
            count_tag(events, 1),
            count_tag(events, 2),
            count_matched(events),
            total_wait(events),
        ),
        snapshot_of(ms.last()).matches_created == count_tag(events, 2),
        snapshot_of(ms.last()).players_matched == count_matched(events),
        snapshot_of(ms.last()).worker_cycles == count_tag(events, 1),
        snapshot_of(ms.last()).wait_ms_total == total_wait(events),
        snapshot_of(ms.last()).queue_size == (if count_tag(events, 0) < count_matched(events) {
            0
        } else {
            count_tag(events, 0) - count_matched(events)
        }),
    decreases events.len(),
{
    if events.len() == 0 {
        lemma_accounts_fresh(ms[0]);
    } else {
        let n = events.len() - 1;
        let init = events.drop_last();
        let ms0 = ms.drop_last();
        lemma_counts_nonneg(init);
        lemma_sum_nonneg(events.last().1);
        assert forall|i: int| 0 <= i < init.len() implies event_effect(ms0[i], #[trigger] init[i], ms0[i + 1]) by {
            assert(event_effect(ms[i], events[i], ms[i + 1]));
        }
        lemma_trace_accounts(ms0, init);
        let e = count_tag(init, 0);
        let c = count_tag(init, 1);
        let k = count_tag(init, 2);
        let p = count_matched(init);
        let w = total_wait(init);
        assert(ms0.last() == ms[n]);
        assert(event_effect(ms[n], events[n], ms[n + 1]));
        assert(events[n] == events.last());
        if events.last().0 == 0 {
            lemma_accounts_enqueue(ms[n], ms[n + 1], e, c, k, p, w);
        } else if events.last().0 == 1 {
            lemma_accounts_cycle(ms[n], ms[n + 1], e, c, k, p, w);
        } else {
            lemma_accounts_match(ms[n], events.last().1, ms[n + 1], e, c, k, p, w);
        }
        lemma_snapshot_accounts(ms.last(), count_tag(events, 0), count_tag(events, 1), count_tag(events, 2), count_matched(events), total_wait(events));
    }
}

proof fn lemma_sum_nonneg(waits: Seq<u64>)
    ensures
        sum_ms(waits) >= 0,
    decreases waits.len(),
{
    if waits.len() > 0 {
        lemma_sum_nonneg(waits.drop_last());
    }
}

proof fn lemma_sample_order_total()
    ensures
        total_ordering(sample_order()),
{
}

proof fn lemma_sum_prefix(waits: Seq<u64>, n: nat)
    requires
        n <= waits.len(),
    ensures
        0 <= sum_ms(waits.take(n as int)) <= sum_ms(waits),
    decreases waits.len(),
{
    if waits.len() > 0 {
        if n == waits.len() {
            assert(waits.take(n as int) =~= waits);
            lemma_sum_prefix(waits.drop_last(), (n - 1) as nat);
            assert(waits.drop_last().take((n - 1) as int) =~= waits.drop_last());
        } else {
            lemma_sum_prefix(waits.drop_last(), n);
            assert(waits.drop_last().take(n as int) =~= waits.take(n as int));
        }
    }
}

} // verus!
