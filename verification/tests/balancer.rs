use matchmaking_engine::balancer::balance_teams;
use matchmaking_engine::types::PlayerSnapshot;

fn snap(id: u64, mmr: i32) -> PlayerSnapshot {
    PlayerSnapshot { player_id: id, mmr, wait_ms: 0 }
}

fn balance_score(team_sum_diff: u64) -> f64 {
    team_sum_diff as f64 / 5.0
}

fn team_sum(team: &[PlayerSnapshot]) -> i64 {
    team.iter().map(|p| p.mmr as i64).sum()
}

#[test]
fn perfect_balance() {
    let players: Vec<_> = (0..10).map(|i| snap(i, 1000)).collect();
    let result = balance_teams(players, 1);
    let score = balance_score(result.team_sum_diff);
    assert!(score < 0.001, "score={}", score);
}

#[test]
fn skewed_balance() {
    // One star player, rest equal: the best achievable is 160 points apart.
    let mut players: Vec<_> = (1..10).map(|i| snap(i, 1000)).collect();
    players.push(snap(0, 1800));
    let result = balance_teams(players, 1);
    let score = balance_score(result.team_sum_diff);
    assert!(score <= 160.0 + 0.001, "score={}", score);
}

#[test]
fn bitmask_counter_example() {
    // Interleaving would leave a difference of 2; the exhaustive search finds 0.
    let mmrs = [1000i32, 999, 2, 1, 1, 1, 1, 1, 1, 1];
    let players: Vec<_> = mmrs.iter().enumerate().map(|(i, &m)| snap(i as u64, m)).collect();
    let result = balance_teams(players, 1);
    let score = balance_score(result.team_sum_diff);
    assert!(score <= 2.0, "score={}", score);
}

#[test]
fn counter_example_is_perfectly_balanced() {
    let mmrs = [1000i32, 999, 2, 1, 1, 1, 1, 1, 1, 1];
    let players: Vec<_> = mmrs.iter().enumerate().map(|(i, &m)| snap(i as u64, m)).collect();
    let result = balance_teams(players, 7);
    assert_eq!(result.team_sum_diff, 0);
    assert_eq!(team_sum(&result.team_a), 1004);
    assert_eq!(team_sum(&result.team_b), 1004);
    assert_eq!(result.match_id, 7);
}

#[test]
fn skewed_balance_exact_difference() {
    let mut players: Vec<_> = (1..10).map(|i| snap(i, 1000)).collect();
    players.push(snap(0, 1800));
    let result = balance_teams(players, 1);
    // 1800 + 4 * 1000 against 5 * 1000.
    assert_eq!(result.team_sum_diff, 800);
    assert_eq!(result.team_a.len(), 5);
    assert_eq!(result.team_b.len(), 5);
}

#[test]
fn teams_partition_the_players_in_order() {
    let mmrs = [1500i32, 1200, 900, 1100, 1300, 1000, 800, 1400, 950, 1050];
    let players: Vec<_> = mmrs.iter().enumerate().map(|(i, &m)| snap(i as u64, m)).collect();
    let result = balance_teams(players, 3);
    assert_eq!(result.team_a.len(), 5);
    assert_eq!(result.team_b.len(), 5);
    let mut ids: Vec<u64> = result.team_a.iter().chain(result.team_b.iter()).map(|p| p.player_id).collect();
    // Each team keeps the input order.
    assert!(result.team_a.windows(2).all(|w| w[0].player_id < w[1].player_id));
    assert!(result.team_b.windows(2).all(|w| w[0].player_id < w[1].player_id));
    ids.sort();
    assert_eq!(ids, (0..10).collect::<Vec<u64>>());
    let diff = (team_sum(&result.team_a) - team_sum(&result.team_b)).unsigned_abs();
    assert_eq!(diff, result.team_sum_diff);
}

#[test]
fn smallest_best_mask_wins_ties() {
    // All equal: every split is perfect, and the first 5-bit mask (0b11111)
    // puts players 0..5 on team A.
    let players: Vec<_> = (0..10).map(|i| snap(i, 1000)).collect();
    let result = balance_teams(players, 1);
    let a: Vec<u64> = result.team_a.iter().map(|p| p.player_id).collect();
    let b: Vec<u64> = result.team_b.iter().map(|p| p.player_id).collect();
    assert_eq!(a, vec![0, 1, 2, 3, 4]);
    assert_eq!(b, vec![5, 6, 7, 8, 9]);
}

#[test]
fn optimal_split_beats_every_other() {
    let mmrs = [3000i32, 10, 20, 30, 40, 2500, 70, 90, 110, 130];
    let players: Vec<_> = mmrs.iter().enumerate().map(|(i, &m)| snap(i as u64, m)).collect();
    let result = balance_teams(players, 1);
    let total: i64 = mmrs.iter().map(|&m| m as i64).sum();
    let mut best = u64::MAX;
    for mask in 0u16..1024 {
        if mask.count_ones() != 5 {
            continue;
        }
        let sum_a: i64 = (0..10).filter(|b| mask & (1 << b) != 0).map(|b| mmrs[b] as i64).sum();
        best = best.min((2 * sum_a - total).unsigned_abs());
    }
    assert_eq!(result.team_sum_diff, best);
}

#[test]
fn extreme_ratings_do_not_overflow() {
    let mut players: Vec<_> = (0..5).map(|i| snap(i, i32::MAX)).collect();
    players.extend((5..10).map(|i| snap(i, i32::MIN)));
    let result = balance_teams(players, 1);
    // Three maxima and two minima against two maxima and three minima is
    // the closest split: a difference of one full range.
    assert_eq!(result.team_sum_diff, (i32::MAX as i64 - i32::MIN as i64) as u64);
}
