use rand::rngs::SmallRng;
use rand::SeedableRng;
use robot_master::board::Pos;
use robot_master::cards::CardValue;
use robot_master::game::{GameConfig, GameState, Move, PlayError, Player};

fn state5() -> GameState<5> {
    let mut rng = SmallRng::seed_from_u64(7);
    GameState::new(GameConfig::default(), &mut rng)
}

#[test]
fn board_trait_play_and_outcome() {
    let mut s = state5();
    let first_move = s.valid_moves()[0];
    s.play(first_move).unwrap();
    assert_eq!(s.next_player(), Player::B);
    assert!(s.outcome().is_none());

    while s.outcome().is_none() {
        let mv = s.valid_moves()[0];
        s.play(mv).unwrap();
    }
    assert!(s.is_done());
    assert!(s.outcome().is_some());
}

#[test]
fn board_trait_available_moves_count() {
    let s = state5();
    let trait_count = s.available_moves().unwrap().len();
    let direct_count = s.valid_moves().len();
    assert_eq!(trait_count, direct_count);
}

#[test]
fn play_valid() {
    let s = state5();
    let m = s.valid_moves()[0];
    let next = s.clone_and_play(m).expect("valid move rejected");
    assert_eq!(next.turn, Player::B);
    assert!(!next.board.is_empty(m.pos));
}

#[test]
fn play_invalid_pos() {
    let s = state5();
    let m = Move { pos: Pos { row: 0, col: 0 }, card: CardValue(0) };
    assert!(matches!(s.clone_and_play(m), Err(PlayError::UnavailableMove)));
}

#[test]
fn play_card_not_in_hand() {
    let mut rng = SmallRng::seed_from_u64(7);
    let mut s: GameState<5> = GameState::new(GameConfig::default(), &mut rng);
    while s.hands[0].count(CardValue(5)) > 0 {
        s.hands[0].take(CardValue(5));
    }
    let pos = s.board.valid_placements()[0];
    let m = Move { pos, card: CardValue(5) };
    assert!(matches!(s.clone_and_play(m), Err(PlayError::UnavailableMove)));
}

#[test]
fn new_game_deals_half_the_remaining_cells_to_each_player() {
    let s = state5();
    assert_eq!(s.turn, Player::A);
    assert_eq!(s.hands[0].total(), 12);
    assert_eq!(s.hands[1].total(), 12);
    let mut occupied = 0;
    for row in 0..5u8 {
        for col in 0..5u8 {
            if !s.board.is_empty(Pos { row, col }) {
                occupied += 1;
                assert_eq!((row, col), (2, 2));
            }
        }
    }
    assert_eq!(occupied, 1);
}

#[test]
fn playing_on_a_full_board_is_refused() {
    let mut s = state5();
    while !s.is_done() {
        let mv = s.valid_moves()[0];
        s.play(mv).unwrap();
    }
    let m = Move { pos: Pos { row: 0, col: 0 }, card: CardValue(0) };
    assert!(matches!(s.clone_and_play(m), Err(PlayError::BoardDone)));
    assert!(s.available_moves().is_err());
    assert!(s.is_available_move(m).is_err());
}

#[test]
fn available_move_agrees_with_play() {
    let s = state5();
    for m in GameState::<5>::all_possible_moves().to_vec() {
        let ok = s.is_available_move(m).unwrap();
        assert_eq!(ok, s.clone_and_play(m).is_ok());
    }
}

#[test]
fn total_moves_fills_every_cell_but_the_centre() {
    assert_eq!(GameState::<5>::total_moves(), 24);
    assert_eq!(GameState::<7>::total_moves(), 48);
}
