//! Team balancing for 10-player pools.
//!
//! Every way to choose 5 of the 10 players for team A is a 10-bit mask with
//! exactly 5 bits set; there are C(10,5) = 252 of them. The mask whose split
//! minimises `|sum(A) - sum(B)| = |2 * sum(A) - total|` is chosen, the
//! smallest such mask when several tie.

use vstd::prelude::*;
use crate::types::{MatchResult, PlayerSnapshot};

verus! {

/// Number of players in a match, and in the pool handed to the balancer.
pub const POOL_SIZE: usize = 10;

/// Players per team.
pub const TEAM_SIZE: usize = 5;

/// Whether bit `i` of `mask` is set.
pub open spec fn bit_set(mask: u16, i: int) -> bool {
    ((mask >> (i as u16)) & 1u16) == 1u16
}

/// Number of set bits among bits `0..n` of `mask`.
pub open spec fn popcount(mask: u16, n: nat) -> nat
    decreases n,
{
    if n == 0 {
        0
    } else {
        popcount(mask, (n - 1) as nat) + if bit_set(mask, n - 1) { 1nat } else { 0nat }
    }
}

/// A team-A membership mask for a 10-player pool: 10 bits, exactly 5 set.
pub open spec fn valid_mask(mask: u16) -> bool {
    mask < 1024 && popcount(mask, 10) == 5
}

/// The MMRs of a player list, in order.
pub open spec fn mmrs_of(players: Seq<PlayerSnapshot>) -> Seq<i32> {
    players.map_values(|p: PlayerSnapshot| p.mmr)
}

/// Sum of the MMRs among the first `n` players whose bit in `mask` is set.
pub open spec fn team_sum(mmrs: Seq<i32>, mask: u16, n: nat) -> int
    decreases n,
{
    if n == 0 {
        0
    } else {
        team_sum(mmrs, mask, (n - 1) as nat) + if bit_set(mask, n - 1) { mmrs[n - 1] as int } else { 0 }
    }
}

/// Sum of the first `n` MMRs.
pub open spec fn total_sum(mmrs: Seq<i32>, n: nat) -> int
    decreases n,
{
    if n == 0 {
        0
    } else {
        total_sum(mmrs, (n - 1) as nat) + mmrs[n - 1] as int
    }
}

/// `|sum(A) - sum(B)|` for the split that `mask` describes.
pub open spec fn split_diff(mmrs: Seq<i32>, mask: u16) -> int {
    let d: int = 2 * team_sum(mmrs, mask, 10) - total_sum(mmrs, 10);
    if d < 0 { -d } else { d }
}

/// `mask` is the balancer's choice: a valid split with the least difference,
/// and the smallest mask among those with that difference.
pub open spec fn is_best_mask(mmrs: Seq<i32>, mask: u16) -> bool {
    &&& valid_mask(mask)
    &&& forall|m: u16| #[trigger] valid_mask(m) ==> split_diff(mmrs, mask) <= split_diff(mmrs, m)
    &&& forall|m: u16| #[trigger] valid_mask(m) && m < mask ==> split_diff(mmrs, m) > split_diff(mmrs, mask)
}

/// The split the balancer chooses for these MMRs.
pub open spec fn best_mask(mmrs: Seq<i32>) -> u16 {
    choose|m: u16| is_best_mask(mmrs, m)
}

/// The players among the first `n` whose bit in `mask` equals `side`, in order.
pub open spec fn select_team(players: Seq<PlayerSnapshot>, mask: u16, n: nat, side: bool) -> Seq<PlayerSnapshot>
    decreases n,
{
    if n == 0 {
        Seq::empty()
    } else {
        let prev = select_team(players, mask, (n - 1) as nat, side);
        if bit_set(mask, n - 1) == side { prev.push(players[n - 1]) } else { prev }
    }
}

/// The best of the valid masks below `upto`, if there is any: the least
/// difference among them, and the smallest mask with that difference.
proof fn lemma_scan_masks(mmrs: Seq<i32>, upto: int) -> (best: Option<u16>)
    requires
        0 <= upto <= 1024,
    ensures
        best is None ==> forall|m: u16| #[trigger] valid_mask(m) ==> m >= upto,
        best matches Some(b) ==> {
            &&& valid_mask(b)
            &&& b < upto
            &&& forall|m: u16| #[trigger] valid_mask(m) && m < upto ==> split_diff(mmrs, m) >= split_diff(mmrs, b)
            &&& forall|m: u16| #[trigger] valid_mask(m) && m < b ==> split_diff(mmrs, m) > split_diff(mmrs, b)
        },
    decreases upto,
{
    if upto == 0 {
        None
    } else {
        let prev = lemma_scan_masks(mmrs, upto - 1);
        let m = (upto - 1) as u16;
        if !valid_mask(m) {
            prev
        } else {
            match prev {
                None => Some(m),
                Some(b) => if split_diff(mmrs, m) < split_diff(mmrs, b) { Some(m) } else { Some(b) },
            }
        }
    }
}

/// For any MMRs there is a best split: the balancer's choice is well defined.
pub proof fn lemma_best_mask_exists(mmrs: Seq<i32>)
    ensures
        is_best_mask(mmrs, best_mask(mmrs)),
{
    lemma_valid_mask_exists();
    let b = lemma_scan_masks(mmrs, 1024);
    assert(valid_mask(31u16));
    let b = b.unwrap();
    assert(is_best_mask(mmrs, b));
}

/// Whenever some 5/5 split is perfectly balanced, so is the balancer's split.
pub proof fn lemma_perfect_split_found(mmrs: Seq<i32>, m: u16)
    requires
        valid_mask(m),
        split_diff(mmrs, m) == 0,
    ensures
        split_diff(mmrs, best_mask(mmrs)) == 0,
{
    lemma_best_mask_exists(mmrs);
}

/// Number of ones in the binary representation of `x`.
fn count_ones_u16(x: u16) -> (n: u32)
    ensures
        n == popcount(x, 16),
{
    let mut n: u32 = 0;
    let mut b: u16 = 0;
    while b < 16
        invariant
            b <= 16,
            n == popcount(x, b as nat),
            n <= b,
        decreases 16 - b,
    {
        proof {
            lemma_bit_test(x, b);
        }
        if x & (1u16 << b) != 0 {
            n = n + 1;
        }
        b = b + 1;
    }
    n
}

proof fn lemma_bit_test(mask: u16, b: u16)
    requires
        b < 16,
    ensures
        ((mask & (1u16 << b)) != 0u16) == bit_set(mask, b as int),
{
    assert(((mask & (1u16 << b)) != 0u16) == (((mask >> b) & 1u16) == 1u16)) by (bit_vector)
        requires
            b < 16,
    ;
}

proof fn lemma_high_bits_clear(mask: u16, n: nat)
    requires
        mask < 1024,
        10 <= n <= 16,
    ensures
        popcount(mask, n) == popcount(mask, 10),
    decreases n,
{
    if n > 10 {
        let b: u16 = (n - 1) as u16;
        assert(((mask >> b) & 1u16) == 0u16) by (bit_vector)
            requires
                mask < 1024,
                10 <= b < 16,
        ;
        lemma_high_bits_clear(mask, (n - 1) as nat);
    }
}

proof fn lemma_team_sum_bounds(mmrs: Seq<i32>, mask: u16, n: nat)
    requires
        n <= mmrs.len(),
    ensures
        -(n as int) * 2147483648 <= team_sum(mmrs, mask, n) <= (n as int) * 2147483647,
        -(n as int) * 2147483648 <= total_sum(mmrs, n) <= (n as int) * 2147483647,
    decreases n,
{
    if n > 0 {
        lemma_team_sum_bounds(mmrs, mask, (n - 1) as nat);
    }
}

proof fn lemma_select_len(players: Seq<PlayerSnapshot>, mask: u16, n: nat)
    requires
        n <= players.len(),
    ensures
        select_team(players, mask, n, true).len() == popcount(mask, n),
        select_team(players, mask, n, false).len() == n - popcount(mask, n),
    decreases n,
{
    if n > 0 {
        lemma_select_len(players, mask, (n - 1) as nat);
    }
}

proof fn lemma_select_partition(players: Seq<PlayerSnapshot>, mask: u16, n: nat)
    requires
        n <= players.len(),
    ensures
        (select_team(players, mask, n, true) + select_team(players, mask, n, false)).to_multiset()
            =~= players.take(n as int).to_multiset(),
    decreases n,
{
    broadcast use vstd::seq_lib::group_to_multiset_ensures;
    broadcast use vstd::multiset::group_multiset_axioms;

    if n > 0 {
        lemma_select_partition(players, mask, (n - 1) as nat);
        let a = select_team(players, mask, (n - 1) as nat, true);
        let b = select_team(players, mask, (n - 1) as nat, false);
        let x = players[n - 1];
        vstd::seq_lib::lemma_multiset_commutative(a, b);
        assert(players.take(n as int) =~= players.take(n - 1).push(x));
        if bit_set(mask, n - 1) {
            vstd::seq_lib::lemma_multiset_commutative(a.push(x), b);
        } else {
            vstd::seq_lib::lemma_multiset_commutative(a, b.push(x));
        }
    }
}

proof fn lemma_valid_mask_exists()
    ensures
        valid_mask(31u16),
{
    let m: u16 = 31u16;
    assert(((m >> 0u16) & 1u16) == 1u16 && ((m >> 1u16) & 1u16) == 1u16 && ((m >> 2u16) & 1u16)
        == 1u16 && ((m >> 3u16) & 1u16) == 1u16 && ((m >> 4u16) & 1u16) == 1u16 && ((m >> 5u16)
        & 1u16) == 0u16 && ((m >> 6u16) & 1u16) == 0u16 && ((m >> 7u16) & 1u16) == 0u16 && ((m
        >> 8u16) & 1u16) == 0u16 && ((m >> 9u16) & 1u16) == 0u16) by (bit_vector)
        requires
            m == 31u16,
    ;
    reveal_with_fuel(popcount, 11);
}

/// The balancer's choice is unique: two masks that both satisfy
/// `is_best_mask` are equal.
pub proof fn lemma_best_mask_unique(mmrs: Seq<i32>, m1: u16, m2: u16)
    requires
        is_best_mask(mmrs, m1),
        is_best_mask(mmrs, m2),
    ensures
        m1 == m2,
{
    if m1 < m2 {
        assert(valid_mask(m1));
    } else if m2 < m1 {
        assert(valid_mask(m2));
    }
}

/// Produce a `MatchResult` from exactly 10 player snapshots.
///
/// Team A holds, in input order, the players whose bit is set in the chosen
/// mask; team B holds the others, in input order. The chosen mask is the
/// smallest of the 5-of-10 masks with the least MMR-sum difference, and no
/// other 5/5 split of these players has a smaller difference.
pub fn balance_teams(players: Vec<PlayerSnapshot>, match_id: u64) -> (r: MatchResult)
    requires
        players.len() == POOL_SIZE,
    ensures
        is_best_mask(mmrs_of(players@), best_mask(mmrs_of(players@))),
        r.match_id == match_id,
        r.team_a@ == select_team(players@, best_mask(mmrs_of(players@)), 10, true),
        r.team_b@ == select_team(players@, best_mask(mmrs_of(players@)), 10, false),
        r.team_sum_diff == split_diff(mmrs_of(players@), best_mask(mmrs_of(players@))),
        forall|m: u16| #[trigger] valid_mask(m) ==> r.team_sum_diff <= split_diff(mmrs_of(players@), m),
        r.team_a.len() == TEAM_SIZE,
        r.team_b.len() == TEAM_SIZE,
        (r.team_a@ + r.team_b@).to_multiset() == players@.to_multiset(),
{
    let ghost mmrs = mmrs_of(players@);
    proof {
        lemma_team_sum_bounds(mmrs, 0, 10);
    }
    let mut total: i64 = 0;
    let mut i: usize = 0;
    while i < POOL_SIZE
        invariant
            players.len() == POOL_SIZE,
            mmrs == mmrs_of(players@),
            i <= POOL_SIZE,
            total == total_sum(mmrs, i as nat),
        decreases POOL_SIZE - i,
    {
        proof {
            lemma_team_sum_bounds(mmrs, 0, (i + 1) as nat);
        }
        total = total + players[i].mmr as i64;
        i = i + 1;
    }

    let mut best_mask_found: u16 = 0;
    let mut best_diff: i64 = i64::MAX;
    let mut mask: u16 = 0;
    proof {
        lemma_valid_mask_exists();
    }
    // Enumerate all 252 ways to choose 5 players for team A.
    while mask < 1024
        invariant_except_break
            mask <= 1024,
            best_diff < i64::MAX ==> best_mask_found < mask,
        invariant
            players.len() == POOL_SIZE,
            mmrs == mmrs_of(players@),
            total == total_sum(mmrs, 10),
            valid_mask(31u16),
            best_diff == i64::MAX ==> forall|m: u16| #[trigger] valid_mask(m) ==> m >= mask,
            best_diff < i64::MAX ==> {
                &&& valid_mask(best_mask_found)
                &&& best_mask_found <= mask
                &&& best_diff == split_diff(mmrs, best_mask_found)
                &&& forall|m: u16| #[trigger] valid_mask(m) && m < mask ==> split_diff(mmrs, m) >= best_diff
                &&& forall|m: u16| #[trigger] valid_mask(m) && m < best_mask_found ==> split_diff(mmrs, m) > best_diff
            },
        ensures
            best_diff < i64::MAX,
            valid_mask(best_mask_found),
            best_diff == split_diff(mmrs, best_mask_found),
            forall|m: u16| #[trigger] valid_mask(m) ==> split_diff(mmrs, m) >= best_diff,
            forall|m: u16| #[trigger] valid_mask(m) && m < best_mask_found ==> split_diff(mmrs, m) > best_diff,
        decreases 1024 - mask,
    {
        let ones: u32 = count_ones_u16(mask);
        proof {
            lemma_high_bits_clear(mask, 16);
        }
        if ones == 5 {
            let mut sum_a: i64 = 0;
            let mut bit: u16 = 0;
            while bit < 10
                invariant
                    players.len() == POOL_SIZE,
                    mmrs == mmrs_of(players@),
                    bit <= 10,
                    sum_a == team_sum(mmrs, mask, bit as nat),
                decreases 10 - bit,
            {
                proof {
                    lemma_bit_test(mask, bit);
                    lemma_team_sum_bounds(mmrs, mask, (bit + 1) as nat);
                }
                if mask & (1u16 << bit) != 0 {
                    sum_a = sum_a + players[bit as usize].mmr as i64;
                }
                bit = bit + 1;
            }
            proof {
                lemma_team_sum_bounds(mmrs, mask, 10);
            }
            // sum_b = total - sum_a, so |sum_a - sum_b| = |2 * sum_a - total|.
            let d: i64 = 2 * sum_a - total;
            let diff: i64 = if d < 0 { -d } else { d };
            if diff < best_diff {
                best_diff = diff;
                best_mask_found = mask;
                if diff == 0 {
                    // Perfect balance; no later mask can do better.
                    break;
                }
            }
        }
        mask = mask + 1;
    }

    proof {
        assert(is_best_mask(mmrs, best_mask_found));
        lemma_best_mask_unique(mmrs, best_mask_found, best_mask(mmrs));
    }

    // Partition the players using the winning mask.
    let mut team_a: Vec<PlayerSnapshot> = Vec::with_capacity(TEAM_SIZE);
    let mut team_b: Vec<PlayerSnapshot> = Vec::with_capacity(TEAM_SIZE);
    let mut j: u16 = 0;
    while j < 10
        invariant
            players.len() == POOL_SIZE,
            j <= 10,
            team_a@ == select_team(players@, best_mask_found, j as nat, true),
            team_b@ == select_team(players@, best_mask_found, j as nat, false),
        decreases 10 - j,
    {
        proof {
            lemma_bit_test(best_mask_found, j);
        }
        if best_mask_found & (1u16 << j) != 0 {
            team_a.push(players[j as usize]);
        } else {
            team_b.push(players[j as usize]);
        }
        j = j + 1;
    }
    proof {
        lemma_select_len(players@, best_mask_found, 10);
        lemma_select_partition(players@, best_mask_found, 10);
        assert(players@.take(10) =~= players@);
    }
    MatchResult { match_id, team_a, team_b, team_sum_diff: best_diff as u64 }
}

} // verus!
