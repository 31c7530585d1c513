//! MMR-ordered player queue.
//!
//! Entries are keyed by `(mmr, player_id)`: MMR is the primary sort key and
//! the player id breaks ties, so the key order is the lexicographic order of
//! the pair. The window scan for candidates walks the keys of one MMR range
//! in that order.

use vstd::prelude::*;
use std::collections::BTreeMap;
use crate::types::{Mmr, PlayerId, QueuedPlayer};

verus! {

broadcast use vstd::laws_cmp::group_laws_cmp;

/// Composite queue key: `(mmr, player_id)`.
pub type QueueKey = (Mmr, PlayerId);

/// The key under which a player is queued.
pub open spec fn key_of(p: QueuedPlayer) -> QueueKey {
    (p.mmr, p.player_id)
}

/// Strict lexicographic order on keys: MMR first, then player id.
pub open spec fn key_lt(a: QueueKey, b: QueueKey) -> bool {
    a.0 < b.0 || (a.0 == b.0 && a.1 < b.1)
}

pub open spec fn key_le(a: QueueKey, b: QueueKey) -> bool {
    key_lt(a, b) || a == b
}

/// `lo <= k <= hi` in key order.
pub open spec fn in_window(k: QueueKey, lo: QueueKey, hi: QueueKey) -> bool {
    key_le(lo, k) && key_le(k, hi)
}

/// Strictly increasing in key order.
pub open spec fn strictly_sorted(s: Seq<QueueKey>) -> bool {
    forall|i: int, j: int| 0 <= i < j < s.len() ==> key_lt(#[trigger] s[i], #[trigger] s[j])
}

/// `s` lists, in increasing key order, exactly the keys of `dom` in `[lo, hi]`.
pub open spec fn is_listing(s: Seq<QueueKey>, dom: Set<QueueKey>, lo: QueueKey, hi: QueueKey) -> bool {
    &&& strictly_sorted(s)
    &&& forall|i: int| 0 <= i < s.len() ==> dom.contains(#[trigger] s[i]) && in_window(s[i], lo, hi)
    &&& forall|k: QueueKey| dom.contains(k) && in_window(k, lo, hi) ==> #[trigger] s.contains(k)
}

/// The keys of `dom` within `[lo, hi]`, in increasing key order.
pub open spec fn listing(dom: Set<QueueKey>, lo: QueueKey, hi: QueueKey) -> Seq<QueueKey> {
    choose|s: Seq<QueueKey>| is_listing(s, dom, lo, hi)
}

/// The smallest and largest keys.
pub open spec fn min_key() -> QueueKey {
    (i32::MIN, 0u64)
}

pub open spec fn max_key() -> QueueKey {
    (i32::MAX, u64::MAX)
}

/// All keys of a map, in increasing key order.
pub open spec fn sorted_keys(m: Map<QueueKey, QueuedPlayer>) -> Seq<QueueKey> {
    listing(m.dom(), min_key(), max_key())
}

/// `BTreeMap::range` over `lo..=hi`, keys only. As the std documentation
/// says, the range yields the entries whose keys lie in `[lo, hi]`, in
/// ascending key order; it panics when `lo > hi`, which `requires` rules out.
#[verifier::external_body]
fn keys_in_range(m: &BTreeMap<QueueKey, QueuedPlayer>, lo: QueueKey, hi: QueueKey) -> (keys: Vec<QueueKey>)
    requires
        key_le(lo, hi),
    ensures
        is_listing(keys@, m@.dom(), lo, hi),
{
    m.range(lo..=hi).map(|(k, _)| *k).collect()
}

proof fn lemma_sorted_head_min(s: Seq<QueueKey>, k: QueueKey)
    requires
        strictly_sorted(s),
        s.len() > 0,
        s.contains(k),
    ensures
        key_le(s[0], k),
{
    let i = choose|i: int| 0 <= i < s.len() && s[i] == k;
    if i > 0 {
        assert(key_lt(s[0], s[i]));
    }
}

proof fn lemma_sorted_eq(x: Seq<QueueKey>, y: Seq<QueueKey>)
    requires
        strictly_sorted(x),
        strictly_sorted(y),
        forall|k: QueueKey| x.contains(k) <==> y.contains(k),
    ensures
        x == y,
    decreases x.len(),
{
    if x.len() == 0 {
        if y.len() > 0 {
            assert(y.contains(y[0]));
        }
        assert(x =~= y);
    } else {
        assert(x.contains(x[0]));
        assert(y.len() > 0);
        assert(y.contains(y[0]));
        lemma_sorted_head_min(x, y[0]);
        lemma_sorted_head_min(y, x[0]);
        assert(x[0] == y[0]);
        let xt = x.drop_first();
        let yt = y.drop_first();
        assert forall|k: QueueKey| xt.contains(k) <==> yt.contains(k) by {
            if xt.contains(k) {
                let i = choose|i: int| 0 <= i < xt.len() && xt[i] == k;
                assert(key_lt(x[0], x[i + 1]));
                assert(x.contains(k));
                let j = choose|j: int| 0 <= j < y.len() && y[j] == k;
                if j == 0 {
                    assert(false);
                }
                assert(yt[j - 1] == k);
            }
            if yt.contains(k) {
                let i = choose|i: int| 0 <= i < yt.len() && yt[i] == k;
                assert(key_lt(y[0], y[i + 1]));
                assert(y.contains(k));
                let j = choose|j: int| 0 <= j < x.len() && x[j] == k;
                if j == 0 {
                    assert(false);
                }
                assert(xt[j - 1] == k);
            }
        }
        lemma_sorted_eq(xt, yt);
        assert(x =~= seq![x[0]] + xt);
        assert(y =~= seq![y[0]] + yt);
    }
}

/// A sequence that lists the keys of a window is the listing of that window.
pub proof fn lemma_listing_unique(s: Seq<QueueKey>, dom: Set<QueueKey>, lo: QueueKey, hi: QueueKey)
    requires
        is_listing(s, dom, lo, hi),
    ensures
        listing(dom, lo, hi) == s,
{
    let t = listing(dom, lo, hi);
    assert(is_listing(t, dom, lo, hi));
    assert forall|k: QueueKey| s.contains(k) <==> t.contains(k) by {
        if s.contains(k) {
            let i = choose|i: int| 0 <= i < s.len() && s[i] == k;
            assert(dom.contains(s[i]) && in_window(s[i], lo, hi));
        }
        if t.contains(k) {
            let i = choose|i: int| 0 <= i < t.len() && t[i] == k;
            assert(dom.contains(t[i]) && in_window(t[i], lo, hi));
        }
    }
    lemma_sorted_eq(s, t);
}

/// `s` with `x` put in its place in key order.
pub open spec fn insert_sorted(s: Seq<QueueKey>, x: QueueKey) -> Seq<QueueKey>
    decreases s.len(),
{
    if s.len() == 0 {
        seq![x]
    } else if key_lt(x, s[0]) {
        seq![x] + s
    } else {
        seq![s[0]] + insert_sorted(s.drop_first(), x)
    }
}

proof fn lemma_insert_sorted(s: Seq<QueueKey>, x: QueueKey)
    requires
        strictly_sorted(s),
        !s.contains(x),
    ensures
        strictly_sorted(insert_sorted(s, x)),
        forall|k: QueueKey| #[trigger] insert_sorted(s, x).contains(k) <==> (s.contains(k) || k == x),
        insert_sorted(s, x).len() == s.len() + 1,
        insert_sorted(s, x).len() > 0 && (key_lt(insert_sorted(s, x)[0], x) || insert_sorted(s, x)[0] == x),
        s.len() > 0 ==> insert_sorted(s, x)[0] == s[0] || insert_sorted(s, x)[0] == x,
    decreases s.len(),
{
    let r = insert_sorted(s, x);
    if s.len() == 0 {
        assert forall|k: QueueKey| #[trigger] r.contains(k) <==> (s.contains(k) || k == x) by {
            if r.contains(k) {
                let i = choose|i: int| 0 <= i < r.len() && r[i] == k;
            }
            if k == x {
                assert(r[0] == x);
            }
        }
    } else if key_lt(x, s[0]) {
        assert forall|i: int, j: int| 0 <= i < j < r.len() implies key_lt(#[trigger] r[i], #[trigger] r[j]) by {
            if i == 0 {
                if j > 1 {
                    assert(key_lt(s[0], s[j - 1]));
                }
            } else {
                assert(key_lt(s[i - 1], s[j - 1]));
            }
        }
        assert forall|k: QueueKey| #[trigger] r.contains(k) <==> (s.contains(k) || k == x) by {
            if r.contains(k) {
                let i = choose|i: int| 0 <= i < r.len() && r[i] == k;
                if i > 0 {
                    assert(s[i - 1] == k);
                }
            }
            if s.contains(k) {
                let i = choose|i: int| 0 <= i < s.len() && s[i] == k;
                assert(r[i + 1] == k);
            }
            if k == x {
                assert(r[0] == x);
            }
        }
    } else {
        let t = s.drop_first();
        assert forall|i: int, j: int| 0 <= i < j < t.len() implies key_lt(#[trigger] t[i], #[trigger] t[j]) by {
            assert(key_lt(s[i + 1], s[j + 1]));
        }
        assert(!t.contains(x)) by {
            if t.contains(x) {
                let i = choose|i: int| 0 <= i < t.len() && t[i] == x;
                assert(s[i + 1] == x);
            }
        }
        lemma_insert_sorted(t, x);
        let rt = insert_sorted(t, x);
        assert(r == seq![s[0]] + rt);
        assert(x != s[0]) by {
            assert(s.contains(s[0]));
        }
        assert forall|j: int| 0 <= j < rt.len() implies key_lt(s[0], #[trigger] rt[j]) by {
            assert(rt.contains(rt[j]));
            if rt[j] == x {
            } else {
                let q = choose|q: int| 0 <= q < t.len() && t[q] == rt[j];
                assert(key_lt(s[0], s[q + 1]));
            }
        }
        assert forall|i: int, j: int| 0 <= i < j < r.len() implies key_lt(#[trigger] r[i], #[trigger] r[j]) by {
            if i == 0 {
                assert(r[j] == rt[j - 1]);
            } else {
                assert(r[i] == rt[i - 1]);
                assert(r[j] == rt[j - 1]);
            }
        }
        assert forall|k: QueueKey| #[trigger] r.contains(k) <==> (s.contains(k) || k == x) by {
            if r.contains(k) {
                let i = choose|i: int| 0 <= i < r.len() && r[i] == k;
                if i > 0 {
                    assert(rt[i - 1] == k);
                    assert(rt.contains(k));
                    if t.contains(k) {
                        let q = choose|q: int| 0 <= q < t.len() && t[q] == k;
                        assert(s[q + 1] == k);
                    }
                } else {
                    assert(s[0] == k);
                }
            }
            if s.contains(k) {
                let i = choose|i: int| 0 <= i < s.len() && s[i] == k;
                if i == 0 {
                    assert(r[0] == k);
                } else {
                    assert(t[i - 1] == k);
                    assert(rt.contains(k));
                    let q = choose|q: int| 0 <= q < rt.len() && rt[q] == k;
                    assert(r[q + 1] == k);
                }
            }
            if k == x {
                assert(rt.contains(x));
                let q = choose|q: int| 0 <= q < rt.len() && rt[q] == x;
                assert(r[q + 1] == x);
            }
        }
    }
}

/// Every window of a finite set of keys has a listing.
pub proof fn lemma_listing_exists(dom: Set<QueueKey>, lo: QueueKey, hi: QueueKey)
    requires
        dom.finite(),
    ensures
        is_listing(listing(dom, lo, hi), dom, lo, hi),
{
    let s = lemma_listing_witness(dom, lo, hi);
    assert(is_listing(s, dom, lo, hi));
}

proof fn lemma_listing_witness(dom: Set<QueueKey>, lo: QueueKey, hi: QueueKey) -> (s: Seq<QueueKey>)
    requires
        dom.finite(),
    ensures
        is_listing(s, dom, lo, hi),
    decreases dom.len(),
{
    if dom.len() == 0 {
        assert(dom =~= Set::<QueueKey>::empty()) by {
            if exists|k: QueueKey| dom.contains(k) {
                let k = choose|k: QueueKey| dom.contains(k);
                assert(dom.remove(k).len() < dom.len());
            }
        }
        Seq::empty()
    } else {
        let x = dom.choose();
        let rest = dom.remove(x);
        let s0 = lemma_listing_witness(rest, lo, hi);
        if in_window(x, lo, hi) {
            assert(!s0.contains(x)) by {
                if s0.contains(x) {
                    let i = choose|i: int| 0 <= i < s0.len() && s0[i] == x;
                    assert(rest.contains(s0[i]));
                }
            }
            lemma_insert_sorted(s0, x);
            let s1 = insert_sorted(s0, x);
            assert forall|i: int| 0 <= i < s1.len() implies dom.contains(#[trigger] s1[i]) && in_window(s1[i], lo, hi) by {
                assert(s1.contains(s1[i]));
                if s1[i] != x {
                    let q = choose|q: int| 0 <= q < s0.len() && s0[q] == s1[i];
                    assert(rest.contains(s0[q]) && in_window(s0[q], lo, hi));
                }
            }
            assert forall|k: QueueKey| dom.contains(k) && in_window(k, lo, hi) implies #[trigger] s1.contains(k) by {
                if k != x {
                    assert(rest.contains(k));
                }
            }
            s1
        } else {
            assert forall|k: QueueKey| dom.contains(k) && in_window(k, lo, hi) implies #[trigger] s0.contains(k) by {
                assert(rest.contains(k));
            }
            s0
        }
    }
}

/// `v` clamped into the range of an `Mmr`.
pub open spec fn clamp_mmr(v: int) -> int {
    if v > i32::MAX {
        i32::MAX as int
    } else if v < i32::MIN {
        i32::MIN as int
    } else {
        v
    }
}

/// `a + b`, clamped into the range of an `Mmr`.
pub fn saturating_add_mmr(a: Mmr, b: Mmr) -> (r: Mmr)
    ensures
        r == clamp_mmr(a + b),
{
    let s: i64 = a as i64 + b as i64;
    if s > 2147483647i64 {
        i32::MAX
    } else if s < -2147483648i64 {
        i32::MIN
    } else {
        s as i32
    }
}

/// `a - b`, clamped into the range of an `Mmr`.
pub fn saturating_sub_mmr(a: Mmr, b: Mmr) -> (r: Mmr)
    ensures
        r == clamp_mmr(a - b),
{
    let s: i64 = a as i64 - b as i64;
    if s > 2147483647i64 {
        i32::MAX
    } else if s < -2147483648i64 {
        i32::MIN
    } else {
        s as i32
    }
}

/// Lowest key of the candidate window around `anchor_mmr`.
pub open spec fn window_lo(anchor_mmr: Mmr, tolerance: Mmr) -> QueueKey {
    (clamp_mmr(anchor_mmr - tolerance) as i32, 0u64)
}

/// Highest key of the candidate window around `anchor_mmr`.
pub open spec fn window_hi(anchor_mmr: Mmr, tolerance: Mmr) -> QueueKey {
    (clamp_mmr(anchor_mmr + tolerance) as i32, u64::MAX)
}

/// The first `limit` unreserved players among `keys`, in the order of `keys`.
pub open spec fn pick_unreserved(m: Map<QueueKey, QueuedPlayer>, keys: Seq<QueueKey>, limit: nat) -> Seq<QueuedPlayer>
    decreases keys.len(),
{
    if keys.len() == 0 || limit == 0 {
        Seq::empty()
    } else if !m[keys[0]].reserved {
        seq![m[keys[0]]] + pick_unreserved(m, keys.drop_first(), (limit - 1) as nat)
    } else {
        pick_unreserved(m, keys.drop_first(), limit)
    }
}

/// Up to `limit` unreserved players whose MMR lies within `tolerance` of
/// `anchor_mmr` (bounds saturated), lowest key first.
pub open spec fn candidates_spec(m: Map<QueueKey, QueuedPlayer>, anchor_mmr: Mmr, tolerance: Mmr, limit: nat) -> Seq<QueuedPlayer> {
    pick_unreserved(m, listing(m.dom(), window_lo(anchor_mmr, tolerance), window_hi(anchor_mmr, tolerance)), limit)
}

/// Every `stride`-th key (starting with the first) whose player is unreserved.
pub open spec fn strided_unreserved(m: Map<QueueKey, QueuedPlayer>, keys: Seq<QueueKey>, stride: nat) -> Seq<QueuedPlayer>
    decreases keys.len(),
{
    if keys.len() == 0 || stride == 0 {
        Seq::empty()
    } else {
        let head = if !m[keys[0]].reserved { seq![m[keys[0]]] } else { Seq::empty() };
        if keys.len() <= stride {
            head
        } else {
            head + strided_unreserved(m, keys.skip(stride as int), stride)
        }
    }
}

/// The keys of a batch of players.
pub open spec fn keys_of(players: Seq<QueuedPlayer>) -> Set<QueueKey> {
    Set::new(|k: QueueKey| exists|i: int| 0 <= i < players.len() && #[trigger] key_of(players[i]) == k)
}

/// `p` with its reservation flag set to `reserved`.
pub open spec fn with_reserved(p: QueuedPlayer, reserved: bool) -> QueuedPlayer {
    QueuedPlayer { player_id: p.player_id, mmr: p.mmr, enqueue_time: p.enqueue_time, reserved }
}

/// Every entry is filed under its own `(mmr, player_id)`.
pub open spec fn keyed(m: Map<QueueKey, QueuedPlayer>) -> bool {
    forall|k: QueueKey| #[trigger] m.contains_key(k) ==> key_of(m[k]) == k
}

proof fn lemma_pick_len(m: Map<QueueKey, QueuedPlayer>, keys: Seq<QueueKey>, limit: nat)
    ensures
        pick_unreserved(m, keys, limit).len() <= limit,
    decreases keys.len(),
{
    if keys.len() > 0 && limit > 0 {
        if !m[keys[0]].reserved {
            lemma_pick_len(m, keys.drop_first(), (limit - 1) as nat);
        } else {
            lemma_pick_len(m, keys.drop_first(), limit);
        }
    }
}

proof fn lemma_pick_props(m: Map<QueueKey, QueuedPlayer>, keys: Seq<QueueKey>, limit: nat)
    requires
        keyed(m),
        strictly_sorted(keys),
        forall|j: int| 0 <= j < keys.len() ==> m.contains_key(#[trigger] keys[j]),
    ensures
        pick_unreserved(m, keys, limit).len() <= limit,
        forall|i: int| 0 <= i < pick_unreserved(m, keys, limit).len() ==> {
            let p = #[trigger] pick_unreserved(m, keys, limit)[i];
            &&& keys.contains(key_of(p))
            &&& m.contains_key(key_of(p))
            &&& m[key_of(p)] == p
            &&& !p.reserved
        },
        forall|i: int, j: int| 0 <= i < j < pick_unreserved(m, keys, limit).len() ==> key_lt(
            key_of(#[trigger] pick_unreserved(m, keys, limit)[i]),
            key_of(#[trigger] pick_unreserved(m, keys, limit)[j]),
        ),
    decreases keys.len(),
{
    if keys.len() == 0 || limit == 0 {
    } else {
        let rest = keys.drop_first();
        assert forall|i: int, j: int| 0 <= i < j < rest.len() implies key_lt(#[trigger] rest[i], #[trigger] rest[j]) by {
            assert(key_lt(keys[i + 1], keys[j + 1]));
        }
        assert forall|j: int| 0 <= j < rest.len() implies m.contains_key(#[trigger] rest[j]) by {
            assert(m.contains_key(keys[j + 1]));
        }
        let k0 = keys[0];
        assert(m.contains_key(keys[0]));
        if !m[k0].reserved {
            let tail = pick_unreserved(m, rest, (limit - 1) as nat);
            lemma_pick_props(m, rest, (limit - 1) as nat);
            let all = pick_unreserved(m, keys, limit);
            assert(all == seq![m[k0]] + tail);
            assert forall|i: int| 0 <= i < all.len() implies {
                let p = #[trigger] all[i];
                &&& keys.contains(key_of(p))
                &&& m.contains_key(key_of(p))
                &&& m[key_of(p)] == p
                &&& !p.reserved
            } by {
                if i == 0 {
                    assert(keys[0] == k0);
                } else {
                    let p = tail[i - 1];
                    assert(all[i] == p);
                    let q = choose|q: int| 0 <= q < rest.len() && rest[q] == key_of(p);
                    assert(keys[q + 1] == key_of(p));
                }
            }
            assert forall|i: int, j: int| 0 <= i < j < all.len() implies key_lt(
                key_of(#[trigger] all[i]),
                key_of(#[trigger] all[j]),
            ) by {
                if i == 0 {
                    let p = tail[j - 1];
                    assert(all[j] == p);
                    let q = choose|q: int| 0 <= q < rest.len() && rest[q] == key_of(p);
                    assert(keys[q + 1] == key_of(p));
                    assert(key_lt(keys[0], keys[q + 1]));
                    assert(key_of(m[k0]) == k0);
                } else {
                    assert(all[i] == tail[i - 1]);
                    assert(all[j] == tail[j - 1]);
                }
            }
        } else {
            lemma_pick_props(m, rest, limit);
            let all = pick_unreserved(m, keys, limit);
            assert forall|i: int| 0 <= i < all.len() implies {
                let p = #[trigger] all[i];
                &&& keys.contains(key_of(p))
                &&& m.contains_key(key_of(p))
                &&& m[key_of(p)] == p
                &&& !p.reserved
            } by {
                let p = all[i];
                let q = choose|q: int| 0 <= q < rest.len() && rest[q] == key_of(p);
                assert(keys[q + 1] == key_of(p));
            }
        }
    }
}

proof fn lemma_candidates_props(m: Map<QueueKey, QueuedPlayer>, anchor_mmr: Mmr, tolerance: Mmr, limit: nat)
    requires
        keyed(m),
        tolerance >= 0,
        exists|s: Seq<QueueKey>| is_listing(s, m.dom(), window_lo(anchor_mmr, tolerance), window_hi(anchor_mmr, tolerance)),
    ensures
        candidates_spec(m, anchor_mmr, tolerance, limit).len() <= limit,
        forall|i: int| 0 <= i < candidates_spec(m, anchor_mmr, tolerance, limit).len() ==> {
            let p = #[trigger] candidates_spec(m, anchor_mmr, tolerance, limit)[i];
            &&& m.contains_key(key_of(p))
            &&& m[key_of(p)] == p
            &&& !p.reserved
            &&& clamp_mmr(anchor_mmr - tolerance) <= p.mmr <= clamp_mmr(anchor_mmr + tolerance)
        },
        forall|i: int, j: int| 0 <= i < j < candidates_spec(m, anchor_mmr, tolerance, limit).len() ==> key_lt(
            key_of(#[trigger] candidates_spec(m, anchor_mmr, tolerance, limit)[i]),
            key_of(#[trigger] candidates_spec(m, anchor_mmr, tolerance, limit)[j]),
        ),
{
    let lo = window_lo(anchor_mmr, tolerance);
    let hi = window_hi(anchor_mmr, tolerance);
    let keys = listing(m.dom(), lo, hi);
    assert(is_listing(keys, m.dom(), lo, hi));
    lemma_pick_props(m, keys, limit);
    let c = candidates_spec(m, anchor_mmr, tolerance, limit);
    assert forall|i: int| 0 <= i < c.len() implies clamp_mmr(anchor_mmr - tolerance) <= (#[trigger] c[i]).mmr
        <= clamp_mmr(anchor_mmr + tolerance) by {
        let p = c[i];
        let q = choose|q: int| 0 <= q < keys.len() && keys[q] == key_of(p);
        assert(in_window(keys[q], lo, hi));
    }
}

/// What `sample_anchors` returns are queued, unreserved players, each under
/// its own key.
pub proof fn lemma_strided_props(m: Map<QueueKey, QueuedPlayer>, keys: Seq<QueueKey>, stride: nat)
    requires
        keyed(m),
        forall|j: int| 0 <= j < keys.len() ==> m.contains_key(#[trigger] keys[j]),
    ensures
        forall|i: int| 0 <= i < strided_unreserved(m, keys, stride).len() ==> {
            let p = #[trigger] strided_unreserved(m, keys, stride)[i];
            &&& m.contains_key(key_of(p))
            &&& m[key_of(p)] == p
            &&& !p.reserved
        },
    decreases keys.len(),
{
    if keys.len() > 0 && stride > 0 {
        assert(m.contains_key(keys[0]));
        let head = if !m[keys[0]].reserved { seq![m[keys[0]]] } else { Seq::<QueuedPlayer>::empty() };
        if keys.len() > stride {
            let rest = keys.skip(stride as int);
            assert forall|j: int| 0 <= j < rest.len() implies m.contains_key(#[trigger] rest[j]) by {
                assert(m.contains_key(keys[j + stride]));
            }
            lemma_strided_props(m, rest, stride);
            let all = strided_unreserved(m, keys, stride);
            assert(all == head + strided_unreserved(m, rest, stride));
            assert forall|i: int| 0 <= i < all.len() implies {
                let p = #[trigger] all[i];
                &&& m.contains_key(key_of(p))
                &&& m[key_of(p)] == p
                &&& !p.reserved
            } by {
                if i >= head.len() {
                    assert(all[i] == strided_unreserved(m, rest, stride)[i - head.len()]);
                }
            }
        }
    }
}

/// Read back what was written: removing a player right after it was
/// enqueued returns that player and leaves the queue as it was before.
pub proof fn lemma_enqueue_remove_roundtrip(m: Map<QueueKey, QueuedPlayer>, p: QueuedPlayer)
    requires
        !m.contains_key(key_of(p)),
    ensures
        m.insert(key_of(p), p).contains_key((p.mmr, p.player_id)),
        m.insert(key_of(p), p)[(p.mmr, p.player_id)] == p,
        m.insert(key_of(p), p).remove((p.mmr, p.player_id)) == m,
{
    assert(m.insert(key_of(p), p).remove((p.mmr, p.player_id)) =~= m);
}

/// Whatever an enqueue returned, afterwards the player's key is queued, so
/// enqueueing a player with the same `(mmr, player_id)` again is refused.
pub proof fn lemma_duplicate_refused(m: Map<QueueKey, QueuedPlayer>, p: QueuedPlayer, q: QueuedPlayer)
    requires
        key_of(q) == key_of(p),
    ensures
        (if m.contains_key(key_of(p)) { m } else { m.insert(key_of(p), p) }).contains_key(key_of(q)),
{
}

/// Removing the keys of `n` distinct queued players shrinks the queue by `n`.
pub proof fn lemma_remove_distinct_keys_len(m: Map<QueueKey, QueuedPlayer>, ps: Seq<QueuedPlayer>)
    requires
        m.dom().finite(),
        forall|i: int| 0 <= i < ps.len() ==> m.contains_key(key_of(#[trigger] ps[i])),
        forall|i: int, j: int| 0 <= i < j < ps.len() ==> key_lt(key_of(#[trigger] ps[i]), key_of(#[trigger] ps[j])),
    ensures
        m.remove_keys(keys_of(ps)).len() + ps.len() == m.len(),
    decreases ps.len(),
{
    if ps.len() == 0 {
        assert(m.remove_keys(keys_of(ps)) =~= m);
    } else {
        let init = ps.drop_last();
        let k = key_of(ps.last());
        assert forall|i: int, j: int| 0 <= i < j < init.len() implies key_lt(key_of(#[trigger] init[i]), key_of(#[trigger] init[j])) by {
            assert(key_lt(key_of(ps[i]), key_of(ps[j])));
        }
        assert forall|i: int| 0 <= i < init.len() implies m.contains_key(key_of(#[trigger] init[i])) by {
            assert(m.contains_key(key_of(ps[i])));
        }
        lemma_remove_distinct_keys_len(m, init);
        let r = m.remove_keys(keys_of(init));
        assert(r.dom() =~= m.dom().difference(keys_of(init)));
        assert(!keys_of(init).contains(k)) by {
            if keys_of(init).contains(k) {
                let i = choose|i: int| 0 <= i < init.len() && #[trigger] key_of(init[i]) == k;
                assert(key_lt(key_of(ps[i]), key_of(ps[ps.len() - 1])));
            }
        }
        assert(m.contains_key(key_of(ps[ps.len() - 1])));
        assert(r.contains_key(k));
        assert forall|x: QueueKey| #[trigger] keys_of(ps).contains(x) <==> (keys_of(init).contains(x) || x == k) by {
            if keys_of(ps).contains(x) {
                let i = choose|i: int| 0 <= i < ps.len() && #[trigger] key_of(ps[i]) == x;
                if i < ps.len() - 1 {
                    assert(key_of(init[i]) == x);
                }
            }
            if keys_of(init).contains(x) {
                let i = choose|i: int| 0 <= i < init.len() && #[trigger] key_of(init[i]) == x;
                assert(key_of(ps[i]) == x);
            }
            if x == k {
                assert(key_of(ps[ps.len() - 1]) == x);
            }
        }
        assert(m.remove_keys(keys_of(ps)) =~= r.remove(k));
    }
}

/// Keys of the unreserved queued players whose MMR lies in
/// `[clamp(anchor_mmr - tolerance), clamp(anchor_mmr + tolerance)]`.
pub open spec fn free_in_window(m: Map<QueueKey, QueuedPlayer>, anchor_mmr: Mmr, tolerance: int) -> Set<QueueKey> {
    m.dom().filter(
        |k: QueueKey|
            !m[k].reserved && clamp_mmr(anchor_mmr - tolerance) <= m[k].mmr && m[k].mmr <= clamp_mmr(anchor_mmr + tolerance),
    )
}

/// The keys among `keys` whose players are unreserved.
pub open spec fn unreserved_among(m: Map<QueueKey, QueuedPlayer>, keys: Seq<QueueKey>) -> Set<QueueKey> {
    keys.to_set().filter(|k: QueueKey| !m[k].reserved)
}

proof fn lemma_pick_count(m: Map<QueueKey, QueuedPlayer>, keys: Seq<QueueKey>, limit: nat)
    requires
        keyed(m),
        strictly_sorted(keys),
        forall|j: int| 0 <= j < keys.len() ==> m.contains_key(#[trigger] keys[j]),
    ensures
        unreserved_among(m, keys).finite(),
        pick_unreserved(m, keys, limit).len() == (if limit < unreserved_among(m, keys).len() {
            limit
        } else {
            unreserved_among(m, keys).len()
        }),
        forall|k: QueueKey|
            #[trigger] unreserved_among(m, keys).contains(k) && (forall|x: int|
                0 <= x < pick_unreserved(m, keys, limit).len() ==> key_of(pick_unreserved(m, keys, limit)[x]) != k) ==> {
                &&& pick_unreserved(m, keys, limit).len() == limit
                &&& forall|x: int| 0 <= x < pick_unreserved(m, keys, limit).len() ==> key_lt(
                    key_of(#[trigger] pick_unreserved(m, keys, limit)[x]),
                    k,
                )
            },
    decreases keys.len(),
{
    let u = unreserved_among(m, keys);
    vstd::seq_lib::seq_to_set_is_finite(keys);
    keys.to_set().lemma_len_filter(|k: QueueKey| !m[k].reserved);
    lemma_pick_props(m, keys, limit);
    if keys.len() == 0 {
        assert(u =~= Set::<QueueKey>::empty());
    } else {
        let k0 = keys[0];
        let rest = keys.drop_first();
        assert forall|i: int, j: int| 0 <= i < j < rest.len() implies key_lt(#[trigger] rest[i], #[trigger] rest[j]) by {
            assert(key_lt(keys[i + 1], keys[j + 1]));
        }
        assert forall|j: int| 0 <= j < rest.len() implies m.contains_key(#[trigger] rest[j]) by {
            assert(m.contains_key(keys[j + 1]));
        }
        assert(!rest.contains(k0)) by {
            if rest.contains(k0) {
                let i = choose|i: int| 0 <= i < rest.len() && rest[i] == k0;
                assert(key_lt(keys[0], keys[i + 1]));
            }
        }
        let ur = unreserved_among(m, rest);
        assert(keys.to_set() =~= rest.to_set().insert(k0)) by {
            assert forall|k: QueueKey| keys.to_set().contains(k) <==> rest.to_set().contains(k) || k == k0 by {
                if keys.contains(k) {
                    let i = choose|i: int| 0 <= i < keys.len() && keys[i] == k;
                    if i > 0 {
                        assert(rest[i - 1] == k);
                    }
                }
                if rest.contains(k) {
                    let i = choose|i: int| 0 <= i < rest.len() && rest[i] == k;
                    assert(keys[i + 1] == k);
                }
                if k == k0 {
                    assert(keys[0] == k0);
                }
            }
        }
        assert(m.contains_key(k0));
        assert(key_of(m[k0]) == k0);
        if limit == 0 {
            lemma_pick_count(m, rest, limit);
            vstd::seq_lib::seq_to_set_is_finite(rest);
            rest.to_set().lemma_len_filter(|k: QueueKey| !m[k].reserved);
            if !m[k0].reserved {
                assert(u =~= ur.insert(k0));
            } else {
                assert(u =~= ur);
            }
        } else if !m[k0].reserved {
            lemma_pick_count(m, rest, (limit - 1) as nat);
            assert(u =~= ur.insert(k0));
            assert(!ur.contains(k0));
            let pr = pick_unreserved(m, rest, (limit - 1) as nat);
            let p = pick_unreserved(m, keys, limit);
            assert(p == seq![m[k0]] + pr);
            assert forall|k: QueueKey|
                #[trigger] u.contains(k) && (forall|x: int| 0 <= x < p.len() ==> key_of(p[x]) != k) implies {
                &&& p.len() == limit
                &&& forall|x: int| 0 <= x < p.len() ==> key_lt(key_of(#[trigger] p[x]), k)
            } by {
                assert(key_of(p[0]) == k0);
                assert(k != k0);
                assert(ur.contains(k));
                assert forall|x: int| 0 <= x < pr.len() implies key_of(pr[x]) != k by {
                    assert(p[x + 1] == pr[x]);
                }
                assert(rest.contains(k));
                let q = choose|q: int| 0 <= q < rest.len() && rest[q] == k;
                assert(key_lt(keys[0], keys[q + 1]));
                assert forall|x: int| 0 <= x < p.len() implies key_lt(key_of(#[trigger] p[x]), k) by {
                    if x > 0 {
                        assert(p[x] == pr[x - 1]);
                    }
                }
            }
        } else {
            lemma_pick_count(m, rest, limit);
            assert(u =~= ur);
        }
    }
}

/// What `find_candidates` returns, stated against the queue's contents: of
/// the unreserved players with MMR in `[clamp(a - t), clamp(a + t)]`, the
/// first `limit` in key order (all of them when there are fewer).
pub proof fn lemma_candidates_window(m: Map<QueueKey, QueuedPlayer>, anchor_mmr: Mmr, tolerance: Mmr, limit: nat)
    requires
        keyed(m),
        m.dom().finite(),
        tolerance >= 0,
    ensures
        free_in_window(m, anchor_mmr, tolerance as int).finite(),
        candidates_spec(m, anchor_mmr, tolerance, limit).len() == (if limit < free_in_window(m, anchor_mmr, tolerance as int).len() {
            limit
        } else {
            free_in_window(m, anchor_mmr, tolerance as int).len()
        }),
        forall|i: int| 0 <= i < candidates_spec(m, anchor_mmr, tolerance, limit).len() ==> {
            let p = #[trigger] candidates_spec(m, anchor_mmr, tolerance, limit)[i];
            &&& free_in_window(m, anchor_mmr, tolerance as int).contains(key_of(p))
            &&& m[key_of(p)] == p
        },
        forall|i: int, j: int| 0 <= i < j < candidates_spec(m, anchor_mmr, tolerance, limit).len() ==> key_lt(
            key_of(#[trigger] candidates_spec(m, anchor_mmr, tolerance, limit)[i]),
            key_of(#[trigger] candidates_spec(m, anchor_mmr, tolerance, limit)[j]),
        ),
        forall|k: QueueKey|
            #[trigger] free_in_window(m, anchor_mmr, tolerance as int).contains(k) && (forall|x: int|
                0 <= x < candidates_spec(m, anchor_mmr, tolerance, limit).len() ==> key_of(candidates_spec(m, anchor_mmr, tolerance, limit)[x]) != k) ==> {
                &&& candidates_spec(m, anchor_mmr, tolerance, limit).len() == limit
                &&& forall|x: int| 0 <= x < candidates_spec(m, anchor_mmr, tolerance, limit).len() ==> key_lt(
                    key_of(#[trigger] candidates_spec(m, anchor_mmr, tolerance, limit)[x]),
                    k,
                )
            },
{
    let lo = window_lo(anchor_mmr, tolerance);
    let hi = window_hi(anchor_mmr, tolerance);
    lemma_listing_exists(m.dom(), lo, hi);
    let keys = listing(m.dom(), lo, hi);
    lemma_pick_count(m, keys, limit);
    lemma_pick_props(m, keys, limit);
    let f = free_in_window(m, anchor_mmr, tolerance as int);
    assert(unreserved_among(m, keys) =~= f) by {
        assert forall|k: QueueKey| unreserved_among(m, keys).contains(k) <==> f.contains(k) by {
            if keys.contains(k) {
                let i = choose|i: int| 0 <= i < keys.len() && keys[i] == k;
                assert(m.dom().contains(keys[i]) && in_window(keys[i], lo, hi));
                assert(key_of(m[k]) == k);
            }
            if f.contains(k) {
                assert(key_of(m[k]) == k);
                assert(in_window(k, lo, hi));
            }
        }
    }
    let c = candidates_spec(m, anchor_mmr, tolerance, limit);
    assert forall|i: int| 0 <= i < c.len() implies f.contains(key_of(#[trigger] c[i])) && m[key_of(c[i])] == c[i] by {
        assert(keys.contains(key_of(c[i])));
    }
}

/// The MMR-ordered queue of waiting players.
pub struct MatchmakingQueue {
    inner: BTreeMap<QueueKey, QueuedPlayer>,
}

impl View for MatchmakingQueue {
    type V = Map<QueueKey, QueuedPlayer>;

    closed spec fn view(&self) -> Map<QueueKey, QueuedPlayer> {
        self.inner@
    }
}

impl MatchmakingQueue {
    /// The queue's invariant: each entry is filed under its own key, and
    /// there are finitely many entries.
    pub open spec fn wf(&self) -> bool {
        keyed(self@) && self@.dom().finite()
    }

    /// An empty queue.
    pub fn new() -> (q: Self)
        ensures
            q.wf(),
            q@ == Map::<QueueKey, QueuedPlayer>::empty(),
    {
        MatchmakingQueue { inner: BTreeMap::new() }
    }

    /// Insert a player. Returns `false`, leaving the queue unchanged, if a
    /// player with the same `(mmr, player_id)` is already present.
    pub fn enqueue(&mut self, player: QueuedPlayer) -> (added: bool)
        requires
            old(self).wf(),
        ensures
            final(self).wf(),
            added == !old(self)@.contains_key(key_of(player)),
            added ==> final(self)@ == old(self)@.insert(key_of(player), player),
            !added ==> final(self)@ == old(self)@,
    {
        let key: QueueKey = (player.mmr, player.player_id);
        if self.inner.contains_key(&key) {
            return false;
        }
        self.inner.insert(key, player);
        true
    }

    /// Remove a specific player by id and MMR. Returns the removed entry.
    pub fn remove(&mut self, player_id: PlayerId, mmr: Mmr) -> (removed: Option<QueuedPlayer>)
        requires
            old(self).wf(),
        ensures
            final(self).wf(),
            final(self)@ == old(self)@.remove((mmr, player_id)),
            removed == (if old(self)@.contains_key((mmr, player_id)) {
                Some(old(self)@[(mmr, player_id)])
            } else {
                None
            }),
    {
        let key: QueueKey = (mmr, player_id);
        self.inner.remove(&key)
    }

    /// Number of entries currently in the queue.
    pub fn len(&self) -> (n: usize)
        ensures
            n == self@.len(),
    {
        self.inner.len()
    }

    pub fn is_empty(&self) -> (b: bool)
        ensures
            b == (self@.len() == 0),
    {
        self.len() == 0
    }

    /// Return up to `limit` unreserved players within the MMR window
    /// `[anchor - tolerance, anchor + tolerance]` (bounds saturated), in key
    /// order. Does not remove or reserve the returned players.
    pub fn find_candidates(&self, anchor_mmr: Mmr, tolerance: Mmr, limit: usize) -> (c: Vec<QueuedPlayer>)
        requires
            tolerance >= 0,
        ensures
            c@ == candidates_spec(self@, anchor_mmr, tolerance, limit as nat),
            c.len() <= limit,
            self.wf() ==> forall|i: int| 0 <= i < c.len() ==> {
                let p = #[trigger] c@[i];
                &&& self@.contains_key(key_of(p))
                &&& self@[key_of(p)] == p
                &&& !p.reserved
                &&& clamp_mmr(anchor_mmr - tolerance) <= p.mmr <= clamp_mmr(anchor_mmr + tolerance)
            },
            self.wf() ==> forall|i: int, j: int| 0 <= i < j < c.len() ==> key_lt(key_of(#[trigger] c@[i]), key_of(#[trigger] c@[j])),
    {
        let lo: QueueKey = (saturating_sub_mmr(anchor_mmr, tolerance), 0u64);
        let hi: QueueKey = (saturating_add_mmr(anchor_mmr, tolerance), u64::MAX);
        let keys = keys_in_range(&self.inner, lo, hi);
        proof {
            lemma_listing_unique(keys@, self@.dom(), lo, hi);
            assert(lo == window_lo(anchor_mmr, tolerance));
            assert(hi == window_hi(anchor_mmr, tolerance));
            assert(is_listing(keys@, self@.dom(), window_lo(anchor_mmr, tolerance), window_hi(anchor_mmr, tolerance)));
            if self.wf() {
                lemma_candidates_props(self@, anchor_mmr, tolerance, limit as nat);
            } else {
                lemma_pick_len(self@, keys@, limit as nat);
            }
        }
        let ghost m = self@;
        let mut out: Vec<QueuedPlayer> = Vec::new();
        let mut i: usize = 0;
        assert(keys@.skip(0) =~= keys@);
        assert(out@ + pick_unreserved(m, keys@, limit as nat) =~= pick_unreserved(m, keys@, limit as nat));
        while i < keys.len() && out.len() < limit
            invariant
                m == self@,
                i <= keys.len(),
                out.len() <= limit,
                forall|j: int| 0 <= j < keys.len() ==> m.contains_key(#[trigger] keys@[j]),
                out@ + pick_unreserved(m, keys@.skip(i as int), (limit - out.len()) as nat)
                    == pick_unreserved(m, keys@, limit as nat),
            decreases keys.len() - i,
        {
            let key = keys[i];
            let ghost before = out@;
            let ghost rest = pick_unreserved(m, keys@.skip(i + 1), (limit - out.len() - 1) as nat);
            assert(keys@.skip(i as int).drop_first() =~= keys@.skip(i + 1));
            assert(keys@.skip(i as int)[0] == key);
            match self.inner.get(&key) {
                Some(p) => {
                    if !p.reserved {
                        out.push(*p);
                    }
                },
                None => {},
            }
            proof {
                if !m[key].reserved {
                    assert(before + (seq![m[key]] + rest) =~= out@ + rest);
                }
            }
            i = i + 1;
        }
        proof {
            if i == keys.len() {
                assert(keys@.skip(i as int).len() == 0);
            }
            assert(out@ + Seq::<QueuedPlayer>::empty() =~= out@);
        }
        out
    }

    /// Remove a batch of players by key (called once a match is confirmed).
    pub fn remove_batch(&mut self, players: &[QueuedPlayer])
        requires
            old(self).wf(),
        ensures
            final(self).wf(),
            final(self)@ == old(self)@.remove_keys(keys_of(players@)),
    {
        let ghost m0 = self@;
        let mut i: usize = 0;
        assert(m0.remove_keys(keys_of(players@.take(0))) =~= m0);
        while i < players.len()
            invariant
                i <= players.len(),
                self.wf(),
                self@ == m0.remove_keys(keys_of(players@.take(i as int))),
            decreases players.len() - i,
        {
            let p = players[i];
            let key: QueueKey = (p.mmr, p.player_id);
            self.inner.remove(&key);
            proof {
                let s0 = keys_of(players@.take(i as int));
                let s1 = keys_of(players@.take(i + 1));
                assert(players@.take(i + 1)[i as int] == p);
                assert forall|k: QueueKey| s1.contains(k) <==> (s0.contains(k) || k == key) by {
                    if s1.contains(k) {
                        let j = choose|j: int| 0 <= j < i + 1 && #[trigger] key_of(players@.take(i + 1)[j]) == k;
                        if j < i {
                            assert(key_of(players@.take(i as int)[j]) == k);
                        }
                    }
                    if s0.contains(k) {
                        let j = choose|j: int| 0 <= j < i && #[trigger] key_of(players@.take(i as int)[j]) == k;
                        assert(key_of(players@.take(i + 1)[j]) == k);
                    }
                    if k == key {
                        assert(key_of(players@.take(i + 1)[i as int]) == k);
                    }
                }
                assert(self@ =~= m0.remove_keys(s1));
            }
            i = i + 1;
        }
        assert(players@.take(players.len() as int) =~= players@);
    }

    /// Every `stride`-th queued player in key order, starting with the lowest
    /// key (a stride of 0 counts as 1), keeping only those not reserved.
    pub fn sample_anchors(&self, stride: usize) -> (anchors: Vec<QueuedPlayer>)
        ensures
            anchors@ == strided_unreserved(self@, sorted_keys(self@), if stride == 0 { 1nat } else { stride as nat }),
            is_listing(sorted_keys(self@), self@.dom(), min_key(), max_key()),
    {
        let step: usize = if stride == 0 { 1 } else { stride };
        let keys = keys_in_range(&self.inner, (i32::MIN, 0u64), (i32::MAX, u64::MAX));
        proof {
            lemma_listing_unique(keys@, self@.dom(), min_key(), max_key());
        }
        let ghost m = self@;
        let mut out: Vec<QueuedPlayer> = Vec::new();
        let mut i: usize = 0;
        assert(keys@.skip(0) =~= keys@);
        assert(out@ + strided_unreserved(m, keys@, step as nat) =~= strided_unreserved(m, keys@, step as nat));
        while i < keys.len()
            invariant_except_break
                i < keys.len() ==> out@ + strided_unreserved(m, keys@.skip(i as int), step as nat)
                    == strided_unreserved(m, keys@, step as nat),
            invariant
                m == self@,
                step >= 1,
                i <= keys.len(),
                forall|j: int| 0 <= j < keys.len() ==> m.contains_key(#[trigger] keys@[j]),
                i == keys.len() ==> out@ == strided_unreserved(m, keys@, step as nat),
            ensures
                out@ == strided_unreserved(m, keys@, step as nat),
            decreases keys.len() - i,
        {
            let key = keys[i];
            let ghost before = out@;
            let ghost tail = keys@.skip(i as int);
            assert(tail[0] == key);
            match self.inner.get(&key) {
                Some(p) => {
                    if !p.reserved {
                        out.push(*p);
                    }
                },
                None => {},
            }
            let ghost head = if !m[key].reserved { seq![m[key]] } else { Seq::<QueuedPlayer>::empty() };
            assert(out@ =~= before + head);
            if keys.len() - i <= step {
                assert(strided_unreserved(m, tail, step as nat) == head);
                assert(out@ == strided_unreserved(m, keys@, step as nat));
                break;
            }
            assert(tail.skip(step as int) =~= keys@.skip(i + step));
            assert(before + (head + strided_unreserved(m, keys@.skip(i + step), step as nat))
                =~= out@ + strided_unreserved(m, keys@.skip(i + step), step as nat));
            i = i + step;
        }
        out
    }

    /// Whether the player with this id and MMR is queued and not reserved.
    pub fn is_available(&self, player_id: PlayerId, mmr: Mmr) -> (b: bool)
        ensures
            b == (self@.contains_key((mmr, player_id)) && !self@[(mmr, player_id)].reserved),
    {
        let key: QueueKey = (mmr, player_id);
        match self.inner.get(&key) {
            Some(p) => !p.reserved,
            None => false,
        }
    }

    /// Claim the queued player with this id and MMR. Returns `true` iff the
    /// player is queued and was not already reserved.
    pub fn try_reserve(&mut self, player_id: PlayerId, mmr: Mmr) -> (won: bool)
        requires
            old(self).wf(),
        ensures
            final(self).wf(),
            won == (old(self)@.contains_key((mmr, player_id)) && !old(self)@[(mmr, player_id)].reserved),
            old(self)@.contains_key((mmr, player_id)) ==> final(self)@ == old(self)@.insert(
                (mmr, player_id),
                with_reserved(old(self)@[(mmr, player_id)], true),
            ),
            !old(self)@.contains_key((mmr, player_id)) ==> final(self)@ == old(self)@,
    {
        let key: QueueKey = (mmr, player_id);
        match self.inner.get(&key) {
            Some(p) => {
                let mut q = *p;
                let won = q.try_reserve();
                self.inner.insert(key, q);
                proof {
                    assert(q == with_reserved(old(self)@[key], true));
                }
                won
            },
            None => false,
        }
    }

    /// Release the reservation of the queued player with this id and MMR.
    pub fn release(&mut self, player_id: PlayerId, mmr: Mmr)
        requires
            old(self).wf(),
        ensures
            final(self).wf(),
            old(self)@.contains_key((mmr, player_id)) ==> final(self)@ == old(self)@.insert(
                (mmr, player_id),
                with_reserved(old(self)@[(mmr, player_id)], false),
            ),
            !old(self)@.contains_key((mmr, player_id)) ==> final(self)@ == old(self)@,
    {
        let key: QueueKey = (mmr, player_id);
        match self.inner.get(&key) {
            Some(p) => {
                let mut q = *p;
                q.release();
                self.inner.insert(key, q);
                proof {
                    assert(q == with_reserved(old(self)@[key], false));
                }
            },
            None => {},
        }
    }
}

impl Default for MatchmakingQueue {
    fn default() -> (q: Self)
        ensures
            q.wf(),
            q@ == Map::<QueueKey, QueuedPlayer>::empty(),
    {
        Self::new()
    }
}

} // verus!
