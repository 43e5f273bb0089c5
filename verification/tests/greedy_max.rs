use robot_master::board::{Board, Pos};
use robot_master::cards::{CardValue, Hand};
use robot_master::game::{GameConfig, GameState, Player};
use robot_master::algos::greedy_max::GreedyForNumber;
use robot_master::algos::greedy_min::GreedyForScore;
use robot_master::player::Bot;

fn make_state(grid: [[Option<u8>; 5]; 5], hand: Hand<5>, turn: Player) -> GameState<5> {
    let mut board = Board::<5>::default();
    for row in 0..5u8 {
        for col in 0..5u8 {
            if let Some(v) = grid[row as usize][col as usize] {
                board.set(Pos { row, col }, v);
            }
        }
    }
    GameState {
        board,
        hands: match turn {
            Player::A => [hand, Hand::default()],
            Player::B => [Hand::default(), hand],
        },
        turn,
        config: GameConfig::default(),
    }
}

fn hand(pairs: &[(u8, u8)]) -> Hand<5> {
    let mut h = Hand::default();
    for &(v, n) in pairs {
        for _ in 0..n {
            h.put(CardValue(v));
        }
    }
    h
}

fn board_one_card() -> [[Option<u8>; 5]; 5] {
    let mut g = [[None; 5]; 5];
    g[2][2] = Some(3);
    g
}

#[allow(dead_code)]
fn board_midgame() -> [[Option<u8>; 5]; 5] {
    [
        [None, None, Some(1), Some(1), Some(0)],
        [None, Some(2), None, Some(3), None],
        [Some(4), None, None, None, None],
        [None, Some(2), None, None, Some(0)],
        [Some(4), Some(4), Some(4), Some(0), Some(0)],
    ]
}

fn midgame_board() -> Board<5> {
    let mut board = Board::<5>::default();
    for (row, col, v) in [
        (0u8, 2u8, 1u8),
        (0, 3, 1),
        (0, 4, 0),
        (1, 1, 2),
        (1, 3, 3),
        (2, 0, 4),
        (3, 1, 2),
        (3, 4, 0),
        (4, 0, 4),
        (4, 1, 4),
        (4, 2, 4),
        (4, 3, 0),
        (4, 4, 0),
    ] {
        board.set(Pos { row, col }, v);
    }
    board
}

fn hand_from_counts(counts: &[u8; 6]) -> Hand<5> {
    let mut h = Hand::default();
    for (v, &n) in counts.iter().enumerate() {
        for _ in 0..n {
            h.put(CardValue(v as u8));
        }
    }
    h
}

/// Play up to ten moves from a fixed midgame position, each side holding the remaining cards in
/// turn, and draw the board after each move.
fn run_midgame_rollout(choose: &mut dyn FnMut(&GameState<5>) -> robot_master::game::Move) -> String {
    let mut board = midgame_board();
    let mut hand_counts = [0u8; 6];
    hand_counts[0] = 2;
    hand_counts[1] = 2;
    hand_counts[2] = 1;
    hand_counts[3] = 1;
    hand_counts[5] = 2;

    let mut moves: Vec<String> = Vec::new();
    let turns = [Player::A, Player::B];

    for turn_idx in 0..10usize {
        let turn = turns[turn_idx % 2];
        let h = hand_from_counts(&hand_counts);
        if h.is_empty() {
            break;
        }
        let state = GameState {
            board,
            hands: match turn {
                Player::A => [h, Hand::default()],
                Player::B => [Hand::default(), h],
            },
            turn,
            config: GameConfig::default(),
        };
        let m = choose(&state);
        let prev = board;
        board.set(m.pos, m.card.0);
        moves.push(format!("turn={turn:?}\n{}", board.display_diff(&prev)));
        hand_counts[m.card.0 as usize] -= 1;
        if hand_counts.iter().all(|&c| c == 0) {
            break;
        }
    }

    moves.join("\n---\n")
}

#[test]
fn greedy_max_picks_highest_delta_odd_player() {
    let state = make_state(board_one_card(), hand(&[(1, 1), (3, 2)]), Player::B);
    let m = GreedyForNumber {}.choose_move(&state);
    assert_eq!(m.card, CardValue(3));
    assert_eq!(m.pos.row, 2);
    let shown = format!("{}\nmove: card={} pos=({},{})", state.board.to_text(), m.card.0, m.pos.row, m.pos.col);
    assert_eq!(shown.trim_end(), r#"-----------------------------
          0   1   2   3   4
-----------------------------
(0,_)   |   |   |   |   |   |
(1,_)   |   |   |   |   |   |
(2,_)   |   |   | 3 |   |   |
(3,_)   |   |   |   |   |   |
(4,_)   |   |   |   |   |   |
-----------------------------
move: card=3 pos=(2,1)"#);
}

#[test]
fn greedy_max_game_rollout() {
    let shown = run_midgame_rollout(&mut |s| GreedyForNumber {}.choose_move(s));
    assert_eq!(shown, r#"turn=A
-----------------------------
          0   1   2   3   4
-----------------------------
(0,_)   |   |+2 | 1 | 1 | 0 |
(1,_)   |   | 2 |   | 3 |   |
(2,_)   | 4 |   |   |   |   |
(3,_)   |   | 2 |   |   | 0 |
(4,_)   | 4 | 4 | 4 | 0 | 0 |
-----------------------------
---
turn=B
-----------------------------
          0   1   2   3   4
-----------------------------
(0,_)   |+1 | 2 | 1 | 1 | 0 |
(1,_)   |   | 2 |   | 3 |   |
(2,_)   | 4 |   |   |   |   |
(3,_)   |   | 2 |   |   | 0 |
(4,_)   | 4 | 4 | 4 | 0 | 0 |
-----------------------------
---
turn=A
-----------------------------
          0   1   2   3   4
-----------------------------
(0,_)   | 1 | 2 | 1 | 1 | 0 |
(1,_)   |   | 2 |   | 3 |   |
(2,_)   | 4 |   |   |+3 |   |
(3,_)   |   | 2 |   |   | 0 |
(4,_)   | 4 | 4 | 4 | 0 | 0 |
-----------------------------
---
turn=B
-----------------------------
          0   1   2   3   4
-----------------------------
(0,_)   | 1 | 2 | 1 | 1 | 0 |
(1,_)   |+5 | 2 |   | 3 |   |
(2,_)   | 4 |   |   | 3 |   |
(3,_)   |   | 2 |   |   | 0 |
(4,_)   | 4 | 4 | 4 | 0 | 0 |
-----------------------------
---
turn=A
-----------------------------
          0   1   2   3   4
-----------------------------
(0,_)   | 1 | 2 | 1 | 1 | 0 |
(1,_)   | 5 | 2 |   | 3 |   |
(2,_)   | 4 |   |   | 3 |   |
(3,_)   |+5 | 2 |   |   | 0 |
(4,_)   | 4 | 4 | 4 | 0 | 0 |
-----------------------------
---
turn=B
-----------------------------
          0   1   2   3   4
-----------------------------
(0,_)   | 1 | 2 | 1 | 1 | 0 |
(1,_)   | 5 | 2 |+1 | 3 |   |
(2,_)   | 4 |   |   | 3 |   |
(3,_)   | 5 | 2 |   |   | 0 |
(4,_)   | 4 | 4 | 4 | 0 | 0 |
-----------------------------
---
turn=A
-----------------------------
          0   1   2   3   4
-----------------------------
(0,_)   | 1 | 2 | 1 | 1 | 0 |
(1,_)   | 5 | 2 | 1 | 3 |   |
(2,_)   | 4 |+0 |   | 3 |   |
(3,_)   | 5 | 2 |   |   | 0 |
(4,_)   | 4 | 4 | 4 | 0 | 0 |
-----------------------------
---
turn=B
-----------------------------
          0   1   2   3   4
-----------------------------
(0,_)   | 1 | 2 | 1 | 1 | 0 |
(1,_)   | 5 | 2 | 1 | 3 |+0 |
(2,_)   | 4 | 0 |   | 3 |   |
(3,_)   | 5 | 2 |   |   | 0 |
(4,_)   | 4 | 4 | 4 | 0 | 0 |
-----------------------------"#);
}

#[test]
fn greedy_min_game_rollout() {
    let shown = run_midgame_rollout(&mut |s| GreedyForScore {}.choose_move(s));
    assert_eq!(shown, r#"turn=A
-----------------------------
          0   1   2   3   4
-----------------------------
(0,_)   |   |   | 1 | 1 | 0 |
(1,_)   |   | 2 |   | 3 |   |
(2,_)   | 4 |   |   |+3 |   |
(3,_)   |   | 2 |   |   | 0 |
(4,_)   | 4 | 4 | 4 | 0 | 0 |
-----------------------------
---
turn=B
-----------------------------
          0   1   2   3   4
-----------------------------
(0,_)   |   |   | 1 | 1 | 0 |
(1,_)   |   | 2 |   | 3 |   |
(2,_)   | 4 |   |   | 3 |   |
(3,_)   |+2 | 2 |   |   | 0 |
(4,_)   | 4 | 4 | 4 | 0 | 0 |
-----------------------------
---
turn=A
-----------------------------
          0   1   2   3   4
-----------------------------
(0,_)   |   |   | 1 | 1 | 0 |
(1,_)   |   | 2 |+1 | 3 |   |
(2,_)   | 4 |   |   | 3 |   |
(3,_)   | 2 | 2 |   |   | 0 |
(4,_)   | 4 | 4 | 4 | 0 | 0 |
-----------------------------
---
turn=B
-----------------------------
          0   1   2   3   4
-----------------------------
(0,_)   |   |   | 1 | 1 | 0 |
(1,_)   |+1 | 2 | 1 | 3 |   |
(2,_)   | 4 |   |   | 3 |   |
(3,_)   | 2 | 2 |   |   | 0 |
(4,_)   | 4 | 4 | 4 | 0 | 0 |
-----------------------------
---
turn=A
-----------------------------
          0   1   2   3   4
-----------------------------
(0,_)   |   |   | 1 | 1 | 0 |
(1,_)   | 1 | 2 | 1 | 3 |   |
(2,_)   | 4 |   |+5 | 3 |   |
(3,_)   | 2 | 2 |   |   | 0 |
(4,_)   | 4 | 4 | 4 | 0 | 0 |
-----------------------------
---
turn=B
-----------------------------
          0   1   2   3   4
-----------------------------
(0,_)   |+5 |   | 1 | 1 | 0 |
(1,_)   | 1 | 2 | 1 | 3 |   |
(2,_)   | 4 |   | 5 | 3 |   |
(3,_)   | 2 | 2 |   |   | 0 |
(4,_)   | 4 | 4 | 4 | 0 | 0 |
-----------------------------
---
turn=A
-----------------------------
          0   1   2   3   4
-----------------------------
(0,_)   | 5 |+0 | 1 | 1 | 0 |
(1,_)   | 1 | 2 | 1 | 3 |   |
(2,_)   | 4 |   | 5 | 3 |   |
(3,_)   | 2 | 2 |   |   | 0 |
(4,_)   | 4 | 4 | 4 | 0 | 0 |
-----------------------------
---
turn=B
-----------------------------
          0   1   2   3   4
-----------------------------
(0,_)   | 5 | 0 | 1 | 1 | 0 |
(1,_)   | 1 | 2 | 1 | 3 |+0 |
(2,_)   | 4 |   | 5 | 3 |   |
(3,_)   | 2 | 2 |   |   | 0 |
(4,_)   | 4 | 4 | 4 | 0 | 0 |
-----------------------------"#);
}
