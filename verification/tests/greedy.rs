use robot_master::board::{Board, Pos};
use robot_master::cards::{CardValue, Hand};
use robot_master::game::{GameConfig, GameState, Player};
use robot_master::algos::greedy::GreedyPlayer;
use robot_master::player::Bot;
use robot_master::scoring::score_delta;

fn make_state(grid: [[Option<u8>; 5]; 5], hand: Hand<5>, turn: Player) -> GameState<5> {
    let mut board = Board::<5>::default();
    for row in 0..5u8 {
        for col in 0..5u8 {
            if let Some(v) = grid[row as usize][col as usize] {
                board.set(Pos { row, col }, v);
            }
        }
    }
    GameState {
        board,
        hands: match turn {
            Player::A => [hand, Hand::default()],
            Player::B => [Hand::default(), hand],
        },
        turn,
        config: GameConfig::default(),
    }
}

fn hand(pairs: &[(u8, u8)]) -> Hand<5> {
    let mut h = Hand::default();
    for &(v, n) in pairs {
        for _ in 0..n {
            h.put(CardValue(v));
        }
    }
    h
}

fn board_one_card() -> [[Option<u8>; 5]; 5] {
    let mut g = [[None; 5]; 5];
    g[2][2] = Some(3);
    g
}

fn board_midgame() -> [[Option<u8>; 5]; 5] {
    [
        [None, None, Some(1), Some(1), Some(0)],
        [None, Some(2), None, Some(3), None],
        [Some(4), None, None, None, None],
        [None, Some(2), None, None, Some(0)],
        [Some(4), Some(4), Some(4), Some(0), Some(0)],
    ]
}

fn midgame_board() -> Board<5> {
    let mut board = Board::<5>::default();
    for (row, col, v) in [
        (0u8, 2u8, 1u8),
        (0, 3, 1),
        (0, 4, 0),
        (1, 1, 2),
        (1, 3, 3),
        (2, 0, 4),
        (3, 1, 2),
        (3, 4, 0),
        (4, 0, 4),
        (4, 1, 4),
        (4, 2, 4),
        (4, 3, 0),
        (4, 4, 0),
    ] {
        board.set(Pos { row, col }, v);
    }
    board
}

fn hand_from_counts(counts: &[u8; 6]) -> Hand<5> {
    let mut h = Hand::default();
    for (v, &n) in counts.iter().enumerate() {
        for _ in 0..n {
            h.put(CardValue(v as u8));
        }
    }
    h
}

/// Play up to ten moves from a fixed midgame position, each side holding the remaining cards in
/// turn, and draw the board after each move.
#[allow(dead_code)]
fn run_midgame_rollout(choose: &mut dyn FnMut(&GameState<5>) -> robot_master::game::Move) -> String {
    let mut board = midgame_board();
    let mut hand_counts = [0u8; 6];
    hand_counts[0] = 2;
    hand_counts[1] = 2;
    hand_counts[2] = 1;
    hand_counts[3] = 1;
    hand_counts[5] = 2;

    let mut moves: Vec<String> = Vec::new();
    let turns = [Player::A, Player::B];

    for turn_idx in 0..10usize {
        let turn = turns[turn_idx % 2];
        let h = hand_from_counts(&hand_counts);
        if h.is_empty() {
            break;
        }
        let state = GameState {
            board,
            hands: match turn {
                Player::A => [h, Hand::default()],
                Player::B => [Hand::default(), h],
            },
            turn,
            config: GameConfig::default(),
        };
        let m = choose(&state);
        let prev = board;
        board.set(m.pos, m.card.0);
        moves.push(format!("turn={turn:?}\n{}", board.display_diff(&prev)));
        hand_counts[m.card.0 as usize] -= 1;
        if hand_counts.iter().all(|&c| c == 0) {
            break;
        }
    }

    moves.join("\n---\n")
}

#[test]
fn score_delta_first_copy() {
    let counts = [0u8; 16];
    assert_eq!(score_delta(&counts, CardValue(3)), 3);
    assert_eq!(score_delta(&counts, CardValue(0)), 0);
}

#[test]
fn score_delta_second_copy() {
    let mut counts = [0u8; 16];
    counts[3] = 1;
    assert_eq!(score_delta(&counts, CardValue(3)), 27);
}

#[test]
fn score_delta_third_copy() {
    let mut counts = [0u8; 16];
    counts[2] = 2;
    counts[5] = 2;
    assert_eq!(score_delta(&counts, CardValue(2)), 80);
    assert_eq!(score_delta(&counts, CardValue(5)), 50);
}

#[test]
fn score_delta_saturation() {
    let mut counts = [0u8; 16];
    counts[1] = 3;
    counts[2] = 4;
    counts[3] = 5;
    assert_eq!(score_delta(&counts, CardValue(1)), 0);
    assert_eq!(score_delta(&counts, CardValue(2)), 0);
    assert_eq!(score_delta(&counts, CardValue(3)), 0);
}

#[test]
fn greedy_picks_highest_delta_odd_player() {
    // Row 2 already has a 3; playing another 3 gives delta=27 (9*3) vs delta=1 for card 1.
    let state = make_state(board_one_card(), hand(&[(1, 1), (3, 2)]), Player::B);
    let m = GreedyPlayer.choose_move(&state);
    assert_eq!(m.card, CardValue(3));
    assert_eq!(m.pos.row, 2);
    let shown = format!("{}\nmove: card={} pos=({},{})", state.board.to_text(), m.card.0, m.pos.row, m.pos.col);
    assert_eq!(shown.trim_end(), r#"-----------------------------
          0   1   2   3   4
-----------------------------
(0,_)   |   |   |   |   |   |
(1,_)   |   |   |   |   |   |
(2,_)   |   |   | 3 |   |   |
(3,_)   |   |   |   |   |   |
(4,_)   |   |   |   |   |   |
-----------------------------
move: card=3 pos=(2,1)"#);
}

#[test]
fn picks_highest_delta_even_player() {
    // Col 2 already has a 3; the columns player scores columns.
    let state = make_state(board_one_card(), hand(&[(1, 1), (3, 2)]), Player::A);
    let m = GreedyPlayer.choose_move(&state);
    assert_eq!(m.card, CardValue(3));
    assert_eq!(m.pos.col, 2);
}

#[test]
fn tiebreak_lowest_card() {
    let mut entries: Vec<(i32, i32)> = vec![(3, 5), (1, 5), (2, 5)];
    entries.sort_by_key(|&(card, delta)| (-delta, card));
    assert_eq!(entries[0], (1, 5));
}

#[test]
fn midgame_odd_player() {
    let state = make_state(board_midgame(), hand(&[(0, 1), (1, 2), (3, 1), (5, 2)]), Player::B);
    let m = GreedyPlayer.choose_move(&state);
    let shown = format!("{}\nmove: card={} pos=({},{})", state.board.to_text(), m.card.0, m.pos.row, m.pos.col);
    assert_eq!(shown.trim_end(), r#"-----------------------------
          0   1   2   3   4
-----------------------------
(0,_)   |   |   | 1 | 1 | 0 |
(1,_)   |   | 2 |   | 3 |   |
(2,_)   | 4 |   |   |   |   |
(3,_)   |   | 2 |   |   | 0 |
(4,_)   | 4 | 4 | 4 | 0 | 0 |
-----------------------------
move: card=1 pos=(0,1)"#);
}

#[test]
fn midgame_even_player() {
    let state = make_state(board_midgame(), hand(&[(0, 1), (1, 2), (3, 1), (5, 2)]), Player::A);
    let m = GreedyPlayer.choose_move(&state);
    let shown = format!("card={} pos=({},{})", m.card.0, m.pos.row, m.pos.col);
    assert_eq!(shown, r#"card=3 pos=(2,3)"#);
}

#[test]
fn greedy_game_rollout() {
    let mut board = midgame_board();
    let mut hand_counts = [0u8; 6];
    hand_counts[0] = 2;
    hand_counts[1] = 2;
    hand_counts[2] = 1;
    hand_counts[3] = 1;
    hand_counts[5] = 2;

    let mut moves: Vec<String> = Vec::new();
    let turns = [Player::A, Player::B];

    for turn_idx in 0..10usize {
        let turn = turns[turn_idx % 2];
        let h = hand_from_counts(&hand_counts);
        if h.is_empty() {
            break;
        }
        let state = GameState {
            board,
            hands: match turn {
                Player::A => [h, Hand::default()],
                Player::B => [Hand::default(), h],
            },
            turn,
            config: GameConfig::default(),
        };
        let m = GreedyPlayer.choose_move(&state);
        let turn_name = match turn {
            Player::A => "Cols",
            Player::B => "Rows",
        };
        moves.push(format!("board={} turn={turn_name} card={} pos=({},{})", board.to_text(), m.card.0, m.pos.row, m.pos.col));
        board.set(m.pos, m.card.0);
        hand_counts[m.card.0 as usize] -= 1;
        if hand_counts.iter().all(|&c| c == 0) {
            break;
        }
    }

    assert_eq!(moves.join("\n---\n"), r#"board=-----------------------------
          0   1   2   3   4
-----------------------------
(0,_)   |   |   | 1 | 1 | 0 |
(1,_)   |   | 2 |   | 3 |   |
(2,_)   | 4 |   |   |   |   |
(3,_)   |   | 2 |   |   | 0 |
(4,_)   | 4 | 4 | 4 | 0 | 0 |
----------------------------- turn=Cols card=2 pos=(0,1)
---
board=-----------------------------
          0   1   2   3   4
-----------------------------
(0,_)   |   | 2 | 1 | 1 | 0 |
(1,_)   |   | 2 |   | 3 |   |
(2,_)   | 4 |   |   |   |   |
(3,_)   |   | 2 |   |   | 0 |
(4,_)   | 4 | 4 | 4 | 0 | 0 |
----------------------------- turn=Rows card=1 pos=(0,0)
---
board=-----------------------------
          0   1   2   3   4
-----------------------------
(0,_)   | 1 | 2 | 1 | 1 | 0 |
(1,_)   |   | 2 |   | 3 |   |
(2,_)   | 4 |   |   |   |   |
(3,_)   |   | 2 |   |   | 0 |
(4,_)   | 4 | 4 | 4 | 0 | 0 |
----------------------------- turn=Cols card=3 pos=(2,3)
---
board=-----------------------------
          0   1   2   3   4
-----------------------------
(0,_)   | 1 | 2 | 1 | 1 | 0 |
(1,_)   |   | 2 |   | 3 |   |
(2,_)   | 4 |   |   | 3 |   |
(3,_)   |   | 2 |   |   | 0 |
(4,_)   | 4 | 4 | 4 | 0 | 0 |
----------------------------- turn=Rows card=5 pos=(1,0)
---
board=-----------------------------
          0   1   2   3   4
-----------------------------
(0,_)   | 1 | 2 | 1 | 1 | 0 |
(1,_)   | 5 | 2 |   | 3 |   |
(2,_)   | 4 |   |   | 3 |   |
(3,_)   |   | 2 |   |   | 0 |
(4,_)   | 4 | 4 | 4 | 0 | 0 |
----------------------------- turn=Cols card=5 pos=(3,0)
---
board=-----------------------------
          0   1   2   3   4
-----------------------------
(0,_)   | 1 | 2 | 1 | 1 | 0 |
(1,_)   | 5 | 2 |   | 3 |   |
(2,_)   | 4 |   |   | 3 |   |
(3,_)   | 5 | 2 |   |   | 0 |
(4,_)   | 4 | 4 | 4 | 0 | 0 |
----------------------------- turn=Rows card=1 pos=(1,2)
---
board=-----------------------------
          0   1   2   3   4
-----------------------------
(0,_)   | 1 | 2 | 1 | 1 | 0 |
(1,_)   | 5 | 2 | 1 | 3 |   |
(2,_)   | 4 |   |   | 3 |   |
(3,_)   | 5 | 2 |   |   | 0 |
(4,_)   | 4 | 4 | 4 | 0 | 0 |
----------------------------- turn=Cols card=0 pos=(2,1)
---
board=-----------------------------
          0   1   2   3   4
-----------------------------
(0,_)   | 1 | 2 | 1 | 1 | 0 |
(1,_)   | 5 | 2 | 1 | 3 |   |
(2,_)   | 4 | 0 |   | 3 |   |
(3,_)   | 5 | 2 |   |   | 0 |
(4,_)   | 4 | 4 | 4 | 0 | 0 |
----------------------------- turn=Rows card=0 pos=(1,4)"#);
}

#[test]
fn greedy_player_id() {
    assert_eq!(GreedyPlayer.id(), "greedy");
}
