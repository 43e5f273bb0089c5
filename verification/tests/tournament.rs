use rand::rngs::SmallRng;
use rand::SeedableRng;
use robot_master::algos::greedy::GreedyPlayer;
use robot_master::game::GameConfig;
use robot_master::match_::MatchResult;
use robot_master::tournament::{ceil_log2, fide_pair_by_score, first_player_advances, play_game, Elimination, RoundRobin, Swiss};

fn sweep(n: usize, cycle: usize) -> Vec<(usize, usize, u64)> {
    let mut rr = RoundRobin::new(3);
    rr.init(n);
    let mut rng = SmallRng::seed_from_u64(5);
    rr.pairs_for_cycle(cycle, &mut rng)
}

fn assert_every_pair_once(n: usize, games: &[(usize, usize, u64)]) {
    assert_eq!(games.len(), n * (n - 1) / 2);
    for a in 0..n {
        for b in (a + 1)..n {
            let count = games.iter().filter(|g| (g.0 == a && g.1 == b) || (g.0 == b && g.1 == a)).count();
            assert_eq!(count, 1, "pair ({a},{b})");
        }
    }
    assert!(games.iter().all(|g| g.0 != g.1 && g.0 < n && g.1 < n));
}

#[test]
fn round_robin_even_field_meets_everyone_once() {
    for cycle in 0..4 {
        assert_every_pair_once(6, &sweep(6, cycle));
    }
}

#[test]
fn round_robin_odd_field_meets_everyone_once() {
    for cycle in 0..4 {
        assert_every_pair_once(5, &sweep(5, cycle));
    }
    assert_every_pair_once(2, &sweep(2, 0));
}

#[test]
fn round_robin_first_round_of_four() {
    let games = sweep(4, 0);
    let pairs: Vec<(usize, usize)> = games.iter().map(|g| (g.0, g.1)).collect();
    assert_eq!(pairs, vec![(0, 2), (3, 1), (3, 0), (2, 1), (0, 1), (2, 3)]);
}

#[test]
fn round_robin_schedule_pads_odd_field() {
    let mut rr = RoundRobin::new(2);
    rr.init(3);
    assert_eq!(rr.schedule, vec![Some(0), Some(1), Some(2), None]);
    assert_eq!(rr.cycles(), 2);
}

fn result(p1: &str, p2: &str, s1: u16, s2: u16) -> MatchResult {
    MatchResult {
        p1_id: p1.to_string(),
        p2_id: p2.to_string(),
        p1_score: s1,
        p2_score: s2,
        p1_weak_line: 0,
        p2_weak_line: 0,
        moves: Vec::new(),
    }
}

#[test]
fn ceil_log2_values() {
    assert_eq!(ceil_log2(1), 0);
    assert_eq!(ceil_log2(2), 1);
    assert_eq!(ceil_log2(3), 2);
    assert_eq!(ceil_log2(8), 3);
    assert_eq!(ceil_log2(9), 4);
    assert_eq!(ceil_log2(usize::MAX), 64);
}

#[test]
fn knockout_tiebreak_by_id() {
    assert!(first_player_advances(&result("a", "b", 10, 3)));
    assert!(!first_player_advances(&result("a", "b", 3, 10)));
    assert!(first_player_advances(&result("a", "b", 5, 5)));
    assert!(!first_player_advances(&result("b", "a", 5, 5)));
}

#[test]
fn elimination_bracket_runs_to_one_winner() {
    // Ratings rank players 0..5 as 3 < 1 < 4 < 0 < 2.
    let rank: Vec<u128> = vec![3, 1, 4, 0, 2];
    let mut el = Elimination::new(1);
    el.init(5, &rank);
    assert_eq!(el.max_inner_rounds, 3);
    assert_eq!(el.cycles(), 3);
    assert_eq!(el.active, vec![3, 1, 4, 0, 2]);
    let mut rng = SmallRng::seed_from_u64(1);

    let games = el.pairs_for_cycle(0, &mut rng);
    let pairs: Vec<(usize, usize)> = games.iter().map(|g| (g.0, g.1)).collect();
    assert_eq!(pairs, vec![(3, 1), (4, 0)]);
    assert_eq!(el.next_active, vec![2]);
    el.apply_result(3, 1, &result("p3", "p1", 10, 20));
    el.apply_result(4, 0, &result("p4", "p0", 30, 20));
    assert_eq!(el.next_active, vec![2, 1, 4]);
    el.end_cycle(0, &rank);
    assert_eq!(el.active, vec![1, 4, 2]);

    let games = el.pairs_for_cycle(1, &mut rng);
    let pairs: Vec<(usize, usize)> = games.iter().map(|g| (g.0, g.1)).collect();
    assert_eq!(pairs, vec![(4, 1)]);
    el.apply_result(4, 1, &result("p4", "p1", 5, 5));
    el.end_cycle(1, &rank);
    assert_eq!(el.active, vec![1, 2]);

    let games = el.pairs_for_cycle(2, &mut rng);
    assert_eq!(games.len(), 1);
    assert_eq!((games[0].0, games[0].1), (1, 2));
    el.apply_result(1, 2, &result("p1", "p2", 7, 9));
    el.end_cycle(2, &rank);
    assert_eq!(el.active, vec![2]);
    assert_eq!(el.current_bracket, 1);
    assert!(el.pairs_for_cycle(3, &mut rng).is_empty());
}

#[test]
fn fide_pairs_top_half_against_bottom_half() {
    // Everyone on the same score: ordered by rating, rank i plays rank n/2 + i.
    let scores = vec![1, 1, 1, 1];
    let rank = vec![10, 40, 30, 20];
    assert_eq!(fide_pair_by_score(&scores, &rank), vec![(1, 3), (2, 0)]);
}

#[test]
fn fide_carries_odd_player_down() {
    // Scores 2: {0, 1, 2}; score 0: {3, 4, 5}. The weakest of the top group drops down.
    let scores = vec![2, 2, 2, 0, 0, 0];
    let rank = vec![60, 50, 40, 30, 20, 10];
    assert_eq!(fide_pair_by_score(&scores, &rank), vec![(0, 1), (2, 4), (3, 5)]);
}

#[test]
fn fide_odd_field_leaves_one_out() {
    let scores = vec![0, 1, 0, 1, 0];
    let rank = vec![5, 4, 3, 2, 1];
    let pairs = fide_pair_by_score(&scores, &rank);
    assert_eq!(pairs.len(), 2);
    let mut seen: Vec<usize> = pairs.iter().flat_map(|p| vec![p.0, p.1]).collect();
    seen.sort();
    seen.dedup();
    assert_eq!(seen.len(), 4);
}

#[test]
fn swiss_first_round_by_rating_then_by_score() {
    let rank: Vec<u64> = vec![1, 4, 3, 2];
    let mut sw = Swiss::new(2);
    sw.init(4);
    assert_eq!(sw.rounds_per_bracket, 2);
    assert_eq!(sw.cycles(), 4);
    let mut rng = SmallRng::seed_from_u64(3);
    let games = sw.pairs_for_cycle(0, &rank, &mut rng);
    let pairs: Vec<(usize, usize)> = games.iter().map(|g| (g.0, g.1)).collect();
    // Rating order 1, 2, 3, 0: rank 0 plays rank 2, rank 1 plays rank 3 (sides swapped).
    assert_eq!(pairs, vec![(1, 3), (0, 2)]);
    assert_eq!(sw.scores, vec![0, 0, 0, 0]);
    sw.apply_result(1, 3, &result("p1", "p3", 10, 5));
    sw.apply_result(0, 2, &result("p0", "p2", 10, 10));
    assert_eq!(sw.scores, vec![0, 1, 0, 0]);
    let games = sw.pairs_for_cycle(1, &rank, &mut rng);
    assert_eq!(games.len(), 2);
    // Second round: the leader (1) heads the pairing; sides swapped on pair 0.
    assert_eq!((games[0].1, games[0].0), (1, 3));
    assert_eq!(sw.scores, vec![0, 1, 0, 0]);
    // A new bracket resets the scores.
    sw.pairs_for_cycle(2, &rank, &mut rng);
    assert_eq!(sw.scores, vec![0, 0, 0, 0]);
}

#[test]
fn play_game_fills_the_board() {
    let r = play_game::<5, GreedyPlayer, GreedyPlayer>("g1".to_string(), "g2".to_string(), 7, GameConfig::default(), GreedyPlayer, GreedyPlayer);
    assert_eq!(r.moves.len(), 24);
    assert_eq!(r.p1_id, "g1");
    assert_eq!(r.p2_id, "g2");
    let again = play_game::<5, GreedyPlayer, GreedyPlayer>("g1".to_string(), "g2".to_string(), 7, GameConfig::default(), GreedyPlayer, GreedyPlayer);
    assert_eq!(r.p1_score, again.p1_score);
    assert_eq!(r.p2_score, again.p2_score);
}
