use robot_master::board::{Board, Pos};
use robot_master::cards::{CardValue, Hand};
use robot_master::game::{GameConfig, GameState, Player};
use robot_master::algos::sadist::{complete_and_score, Sadist};
use robot_master::player::Bot;

fn make_state(grid: [[Option<u8>; 5]; 5], hand: Hand<5>, turn: Player) -> GameState<5> {
    let mut board = Board::<5>::default();
    for row in 0..5u8 {
        for col in 0..5u8 {
            if let Some(v) = grid[row as usize][col as usize] {
                board.set(Pos { row, col }, v);
            }
        }
    }
    GameState {
        board,
        hands: match turn {
            Player::A => [hand, Hand::default()],
            Player::B => [Hand::default(), hand],
        },
        turn,
        config: GameConfig::default(),
    }
}

fn hand(pairs: &[(u8, u8)]) -> Hand<5> {
    let mut h = Hand::default();
    for &(v, n) in pairs {
        for _ in 0..n {
            h.put(CardValue(v));
        }
    }
    h
}

#[allow(dead_code)]
fn board_one_card() -> [[Option<u8>; 5]; 5] {
    let mut g = [[None; 5]; 5];
    g[2][2] = Some(3);
    g
}

fn board_midgame() -> [[Option<u8>; 5]; 5] {
    [
        [None, None, Some(1), Some(1), Some(0)],
        [None, Some(2), None, Some(3), None],
        [Some(4), None, None, None, None],
        [None, Some(2), None, None, Some(0)],
        [Some(4), Some(4), Some(4), Some(0), Some(0)],
    ]
}

fn midgame_board() -> Board<5> {
    let mut board = Board::<5>::default();
    for (row, col, v) in [
        (0u8, 2u8, 1u8),
        (0, 3, 1),
        (0, 4, 0),
        (1, 1, 2),
        (1, 3, 3),
        (2, 0, 4),
        (3, 1, 2),
        (3, 4, 0),
        (4, 0, 4),
        (4, 1, 4),
        (4, 2, 4),
        (4, 3, 0),
        (4, 4, 0),
    ] {
        board.set(Pos { row, col }, v);
    }
    board
}

fn hand_from_counts(counts: &[u8; 6]) -> Hand<5> {
    let mut h = Hand::default();
    for (v, &n) in counts.iter().enumerate() {
        for _ in 0..n {
            h.put(CardValue(v as u8));
        }
    }
    h
}

/// Play up to ten moves from a fixed midgame position, each side holding the remaining cards in
/// turn, and draw the board after each move.
fn run_midgame_rollout(choose: &mut dyn FnMut(&GameState<5>) -> robot_master::game::Move) -> String {
    let mut board = midgame_board();
    let mut hand_counts = [0u8; 6];
    hand_counts[0] = 2;
    hand_counts[1] = 2;
    hand_counts[2] = 1;
    hand_counts[3] = 1;
    hand_counts[5] = 2;

    let mut moves: Vec<String> = Vec::new();
    let turns = [Player::A, Player::B];

    for turn_idx in 0..10usize {
        let turn = turns[turn_idx % 2];
        let h = hand_from_counts(&hand_counts);
        if h.is_empty() {
            break;
        }
        let state = GameState {
            board,
            hands: match turn {
                Player::A => [h, Hand::default()],
                Player::B => [Hand::default(), h],
            },
            turn,
            config: GameConfig::default(),
        };
        let m = choose(&state);
        let prev = board;
        board.set(m.pos, m.card.0);
        moves.push(format!("turn={turn:?}\n{}", board.display_diff(&prev)));
        hand_counts[m.card.0 as usize] -= 1;
        if hand_counts.iter().all(|&c| c == 0) {
            break;
        }
    }

    moves.join("\n---\n")
}

#[test]
fn tous_les_scores_possibles_no_duplicates() {
    let mut counts = [0u8; 16];
    let mut remaining = [0u8; 16];
    remaining[1] = 2;
    remaining[2] = 2;
    let mut scores = Vec::default();
    complete_and_score(&mut counts, &mut remaining, &mut scores, 2, 0, 2);
    scores.sort();
    assert_eq!(scores.len(), scores.iter().collect::<std::collections::HashSet<_>>().len());
    assert_eq!(format!("{scores:?}"), r#"[3, 10, 20]"#);
}

#[test]
fn tous_les_scores_possibles_already_complete() {
    let mut counts = [0u8; 16];
    counts[1] = 2;
    counts[2] = 3;
    let mut remaining = [0u8; 16];
    remaining[0] = 1;
    remaining[1] = 1;
    remaining[2] = 1;
    let mut scores = Vec::default();
    complete_and_score(&mut counts, &mut remaining, &mut scores, 0, 0, 2);
    assert_eq!(format!("{scores:?}"), r#"[110]"#);
}

#[test]
fn agressif_midgame() {
    let state = make_state(board_midgame(), hand(&[(0, 1), (1, 2), (3, 1), (5, 2)]), Player::B);
    let m = Sadist {}.choose_move(&state);
    let shown = format!("{}\nmove: card={} pos=({},{})", state.board.to_text(), m.card.0, m.pos.row, m.pos.col);
    assert_eq!(shown.trim_end(), r#"-----------------------------
          0   1   2   3   4
-----------------------------
(0,_)   |   |   | 1 | 1 | 0 |
(1,_)   |   | 2 |   | 3 |   |
(2,_)   | 4 |   |   |   |   |
(3,_)   |   | 2 |   |   | 0 |
(4,_)   | 4 | 4 | 4 | 0 | 0 |
-----------------------------
move: card=0 pos=(0,1)"#);
}

#[test]
fn agressif_game_rollout() {
    let shown = run_midgame_rollout(&mut |s| Sadist {}.choose_move(s));
    assert_eq!(shown, r#"turn=A
-----------------------------
          0   1   2   3   4
-----------------------------
(0,_)   |   |   | 1 | 1 | 0 |
(1,_)   |   | 2 |   | 3 |   |
(2,_)   | 4 |+0 |   |   |   |
(3,_)   |   | 2 |   |   | 0 |
(4,_)   | 4 | 4 | 4 | 0 | 0 |
-----------------------------
---
turn=B
-----------------------------
          0   1   2   3   4
-----------------------------
(0,_)   |   |+0 | 1 | 1 | 0 |
(1,_)   |   | 2 |   | 3 |   |
(2,_)   | 4 | 0 |   |   |   |
(3,_)   |   | 2 |   |   | 0 |
(4,_)   | 4 | 4 | 4 | 0 | 0 |
-----------------------------
---
turn=A
-----------------------------
          0   1   2   3   4
-----------------------------
(0,_)   |   | 0 | 1 | 1 | 0 |
(1,_)   |+1 | 2 |   | 3 |   |
(2,_)   | 4 | 0 |   |   |   |
(3,_)   |   | 2 |   |   | 0 |
(4,_)   | 4 | 4 | 4 | 0 | 0 |
-----------------------------
---
turn=B
-----------------------------
          0   1   2   3   4
-----------------------------
(0,_)   |   | 0 | 1 | 1 | 0 |
(1,_)   | 1 | 2 |   | 3 |+1 |
(2,_)   | 4 | 0 |   |   |   |
(3,_)   |   | 2 |   |   | 0 |
(4,_)   | 4 | 4 | 4 | 0 | 0 |
-----------------------------
---
turn=A
-----------------------------
          0   1   2   3   4
-----------------------------
(0,_)   |+2 | 0 | 1 | 1 | 0 |
(1,_)   | 1 | 2 |   | 3 | 1 |
(2,_)   | 4 | 0 |   |   |   |
(3,_)   |   | 2 |   |   | 0 |
(4,_)   | 4 | 4 | 4 | 0 | 0 |
-----------------------------
---
turn=B
-----------------------------
          0   1   2   3   4
-----------------------------
(0,_)   | 2 | 0 | 1 | 1 | 0 |
(1,_)   | 1 | 2 |+3 | 3 | 1 |
(2,_)   | 4 | 0 |   |   |   |
(3,_)   |   | 2 |   |   | 0 |
(4,_)   | 4 | 4 | 4 | 0 | 0 |
-----------------------------
---
turn=A
-----------------------------
          0   1   2   3   4
-----------------------------
(0,_)   | 2 | 0 | 1 | 1 | 0 |
(1,_)   | 1 | 2 | 3 | 3 | 1 |
(2,_)   | 4 | 0 |+5 |   |   |
(3,_)   |   | 2 |   |   | 0 |
(4,_)   | 4 | 4 | 4 | 0 | 0 |
-----------------------------
---
turn=B
-----------------------------
          0   1   2   3   4
-----------------------------
(0,_)   | 2 | 0 | 1 | 1 | 0 |
(1,_)   | 1 | 2 | 3 | 3 | 1 |
(2,_)   | 4 | 0 | 5 |   |+5 |
(3,_)   |   | 2 |   |   | 0 |
(4,_)   | 4 | 4 | 4 | 0 | 0 |
-----------------------------"#);
}
