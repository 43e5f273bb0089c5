use rand::rngs::SmallRng;
use rand::SeedableRng;
use robot_master::algos::greedy_max::GreedyForNumber;
use robot_master::algos::rollout::{LineAnalysis, Mode, Rollout};
use robot_master::board::{Board, Pos};
use robot_master::cards::{CardValue, Hand};
use robot_master::game::{GameConfig, GameState, Player};
use robot_master::player::Bot;

fn make_state(grid: [[Option<u8>; 5]; 5], hand: Hand<5>, turn: Player) -> GameState<5> {
    let mut board = Board::<5>::default();
    for row in 0..5u8 {
        for col in 0..5u8 {
            if let Some(v) = grid[row as usize][col as usize] {
                board.set(Pos { row, col }, v);
            }
        }
    }
    GameState {
        board,
        hands: match turn {
            Player::A => [hand, Hand::default()],
            Player::B => [Hand::default(), hand],
        },
        turn,
        config: GameConfig::default(),
    }
}

fn hand(pairs: &[(u8, u8)]) -> Hand<5> {
    let mut h = Hand::default();
    for &(v, n) in pairs {
        for _ in 0..n {
            h.put(CardValue(v));
        }
    }
    h
}

#[allow(dead_code)]
#[allow(dead_code)]
fn board_one_card() -> [[Option<u8>; 5]; 5] {
    let mut g = [[None; 5]; 5];
    g[2][2] = Some(3);
    g
}

#[allow(dead_code)]
fn board_midgame() -> [[Option<u8>; 5]; 5] {
    [
        [None, None, Some(1), Some(1), Some(0)],
        [None, Some(2), None, Some(3), None],
        [Some(4), None, None, None, None],
        [None, Some(2), None, None, Some(0)],
        [Some(4), Some(4), Some(4), Some(0), Some(0)],
    ]
}

fn midgame_board() -> Board<5> {
    let mut board = Board::<5>::default();
    for (row, col, v) in [
        (0u8, 2u8, 1u8),
        (0, 3, 1),
        (0, 4, 0),
        (1, 1, 2),
        (1, 3, 3),
        (2, 0, 4),
        (3, 1, 2),
        (3, 4, 0),
        (4, 0, 4),
        (4, 1, 4),
        (4, 2, 4),
        (4, 3, 0),
        (4, 4, 0),
    ] {
        board.set(Pos { row, col }, v);
    }
    board
}

fn hand_from_counts(counts: &[u8; 6]) -> Hand<5> {
    let mut h = Hand::default();
    for (v, &n) in counts.iter().enumerate() {
        for _ in 0..n {
            h.put(CardValue(v as u8));
        }
    }
    h
}

/// Play up to ten moves from a fixed midgame position, each side holding the remaining cards in
/// turn, and draw the board after each move.
fn run_midgame_rollout(choose: &mut dyn FnMut(&GameState<5>) -> robot_master::game::Move) -> String {
    let mut board = midgame_board();
    let mut hand_counts = [0u8; 6];
    hand_counts[0] = 2;
    hand_counts[1] = 2;
    hand_counts[2] = 1;
    hand_counts[3] = 1;
    hand_counts[5] = 2;

    let mut moves: Vec<String> = Vec::new();
    let turns = [Player::A, Player::B];

    for turn_idx in 0..10usize {
        let turn = turns[turn_idx % 2];
        let h = hand_from_counts(&hand_counts);
        if h.is_empty() {
            break;
        }
        let state = GameState {
            board,
            hands: match turn {
                Player::A => [h, Hand::default()],
                Player::B => [Hand::default(), h],
            },
            turn,
            config: GameConfig::default(),
        };
        let m = choose(&state);
        let prev = board;
        board.set(m.pos, m.card.0);
        moves.push(format!("turn={turn:?}\n{}", board.display_diff(&prev)));
        hand_counts[m.card.0 as usize] -= 1;
        if hand_counts.iter().all(|&c| c == 0) {
            break;
        }
    }

    moves.join("\n---\n")
}

#[test]
fn rollout_returns_legal_move() {
    let mut rng = SmallRng::seed_from_u64(42);
    let state: GameState<5> = GameState::new(GameConfig::default(), &mut rng);
    let mv = Rollout {}.choose_move(&state);
    assert!(state.valid_moves().iter().any(|&m| m == mv), "illegal move: {mv:?}");
}

#[test]
fn rollout_plays_full_game() {
    let mut rng = SmallRng::seed_from_u64(42);
    let mut state: GameState<5> = GameState::new(GameConfig::default(), &mut rng);
    let mut bot = Rollout {};

    while state.outcome().is_none() {
        let mv = bot.choose_move(&state);
        state.play(mv).expect("illegal move");
    }

    assert!(state.outcome().is_some());
}

#[test]
fn early_game_matches_greedy() {
    let mut grid = [[None; 5]; 5];
    grid[2][2] = Some(3);
    let state = make_state(grid, hand(&[(3, 2), (1, 1), (5, 1)]), Player::A);
    let analysis = LineAnalysis::new(&state);
    assert!(matches!(analysis.mode(), Mode::Greedy));
    assert_eq!(Rollout {}.choose_move(&state), GreedyForNumber {}.choose_move(&state));
}

#[test]
fn rollout_game_rollout() {
    let mut legal = true;
    let shown = run_midgame_rollout(&mut |s| {
        let m = Rollout {}.choose_move(s);
        legal &= s.valid_moves().contains(&m);
        m
    });
    assert!(legal);
    assert!(shown.starts_with("turn=A\n"));
    assert_eq!(shown.matches("\n---\n").count() + 1, 8);
}

#[test]
fn rollout_targets_weak_line_below_finished_one() {
    // Column 0 is finished for the columns player (A); column 1 is unfinished and weaker.
    let mut grid = [[None; 5]; 5];
    for r in 0..5 {
        grid[r][0] = Some(4);
    }
    grid[2][1] = Some(1);
    let state = make_state(grid, hand(&[(1, 1), (2, 1)]), Player::A);
    let analysis = LineAnalysis::new(&state);
    assert!(matches!(analysis.mode(), Mode::TargetWeak));
    let m = Rollout {}.choose_move(&state);
    assert_eq!(m.pos.col, 1);
    assert_eq!(m.card, CardValue(1));
}
