use robot_master::board::{Board, Pos, EMPTY};
use robot_master::game::Player;

fn center5() -> Board<5> {
    let mut b = Board::<5>::default();
    b.set(Pos { row: 2, col: 2 }, 3);
    b
}

#[test]
fn is_full_false_then_true() {
    let mut b = Board::<1>::default();
    assert!(!b.is_full());
    b.set(Pos { row: 0, col: 0 }, 0);
    assert!(b.is_full());
}

#[test]
fn is_playable_requires_neighbour() {
    let b = center5();
    assert!(!b.is_playable(Pos { row: 2, col: 2 }));
    assert!(b.is_playable(Pos { row: 2, col: 1 }));
    assert!(b.is_playable(Pos { row: 1, col: 2 }));
    assert!(!b.is_playable(Pos { row: 0, col: 0 }));
}

#[test]
fn is_playable_out_of_bounds() {
    let b = center5();
    assert!(!b.is_playable(Pos { row: 5, col: 2 }));
    assert!(!b.is_playable(Pos { row: 2, col: 5 }));
}

#[test]
fn valid_placements_center_only() {
    let b = center5();
    let placements: Vec<_> = b.valid_placements();
    assert_eq!(placements.len(), 4);
}

#[test]
fn line_row_col() {
    let mut b = Board::<5>::default();
    b.set(Pos { row: 0, col: 0 }, 1);
    b.set(Pos { row: 1, col: 0 }, 2);
    b.set(Pos { row: 2, col: 0 }, 3);

    let col = b.line(Player::A, 0);
    assert_eq!(col[0], 1);
    assert_eq!(col[1], 2);
    assert_eq!(col[2], 3);
    assert_eq!(col[3], EMPTY);

    let row = b.line(Player::B, 1);
    assert_eq!(row[0], 2);
    assert_eq!(row[1], EMPTY);
}
