use rand::rngs::SmallRng;
use rand::SeedableRng;
use robot_master::algos::random::RandomPlayer;
use robot_master::game::{GameConfig, GameState};
use robot_master::match_::{Match, MatchResult, SerMove};
use robot_master::rating::Outcome;
use std::ops::ControlFlow;

fn new_match() -> Match<5, RandomPlayer, RandomPlayer> {
    let mut rng = SmallRng::seed_from_u64(42);
    let game = GameState::new(GameConfig::default(), &mut rng);
    let p1 = RandomPlayer::with_rng(SmallRng::seed_from_u64(1));
    let p2 = RandomPlayer::with_rng(SmallRng::seed_from_u64(2));
    Match::new(game, p1, p2, "p1".to_string(), "p2".to_string())
}

#[test]
fn match_runs_to_completion() {
    let m = new_match();
    let result = m.run();
    assert_eq!(result.moves.len(), 24); // 5*5 - 1 center card
    assert_eq!(result.p1_id, "p1");
}

#[test]
fn match_next_step_by_step() {
    let mut m = new_match();
    let mut steps = 0;
    while let ControlFlow::Continue(_) = m.next(None) {
        steps += 1;
    }
    // The final move that ended the game
    steps += 1;
    assert_eq!(steps, 24);
}

#[test]
fn match_result_scores_are_weakest_lines() {
    let result = new_match().run();
    assert_eq!(result.p2_id, "p2");
    assert!(result.p1_weak_line < 5);
    assert!(result.p2_weak_line < 5);
    let expected = if result.p1_score > result.p2_score {
        Outcome::P1Win
    } else if result.p1_score < result.p2_score {
        Outcome::P2Win
    } else {
        Outcome::Draw
    };
    assert_eq!(result.outcome(), expected);
}

#[test]
fn ser_move_keeps_fields() {
    let m = robot_master::game::Move {
        pos: robot_master::board::Pos { row: 3, col: 1 },
        card: robot_master::cards::CardValue(4),
    };
    assert_eq!(SerMove::from(m), SerMove { row: 3, col: 1, card: 4 });
}

#[test]
fn match_result_outcomes() {
    let r = MatchResult::new("a".to_string(), "b".to_string(), 10, 3, 0, 1, Vec::new());
    assert_eq!(r.outcome(), Outcome::P1Win);
    let r = MatchResult::new("a".to_string(), "b".to_string(), 3, 10, 0, 1, Vec::new());
    assert_eq!(r.outcome(), Outcome::P2Win);
    let r = MatchResult::new("a".to_string(), "b".to_string(), 7, 7, 0, 1, Vec::new());
    assert_eq!(r.outcome(), Outcome::Draw);
}

#[test]
fn report_names_scores_weak_lines_and_winner() {
    let r = MatchResult::new("a".to_string(), "b".to_string(), 12, 9, 3, 0, vec![]);
    assert_eq!(r.report("Ann", "Bob"), "Ann: score 12 (column 3)\nBob: score 9 (row 0)\nAnn wins.");
    let r = MatchResult::new("a".to_string(), "b".to_string(), 4, 7, 1, 2, vec![]);
    assert_eq!(r.report("Ann", "Bob"), "Ann: score 4 (column 1)\nBob: score 7 (row 2)\nBob wins.");
    let r = MatchResult::new("a".to_string(), "b".to_string(), 5, 5, 0, 4, vec![]);
    assert_eq!(r.report("Ann", "Bob"), "Ann: score 5 (column 0)\nBob: score 5 (row 4)\ndraw.");
}

#[test]
fn wins_and_games_count_each_seat() {
    let rs = vec![
        MatchResult::new("a".to_string(), "b".to_string(), 12, 9, 0, 0, vec![]),
        MatchResult::new("b".to_string(), "a".to_string(), 10, 3, 0, 0, vec![]),
        MatchResult::new("a".to_string(), "c".to_string(), 5, 5, 0, 0, vec![]),
        MatchResult::new("a".to_string(), "a".to_string(), 6, 2, 0, 0, vec![]),
    ];
    assert_eq!(robot_master::match_::wins_and_games(&rs, "a"), (2, 5));
    assert_eq!(robot_master::match_::wins_and_games(&rs, "b"), (1, 2));
    assert_eq!(robot_master::match_::wins_and_games(&rs, "c"), (0, 1));
    assert_eq!(robot_master::match_::wins_and_games(&rs, "d"), (0, 0));
}
