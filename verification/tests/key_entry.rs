use robot_master::board::{Board, Pos};
use robot_master::key_entry::{cell_shade, key_step, CellShade, KeyEntry, KeyOutcome};

/// A 5×5 board with one card in the centre: its four neighbours are the playable cells.
fn centre_board() -> Board<5> {
    let mut b = Board::<5>::default();
    b.set(Pos { row: 2, col: 2 }, 3);
    b
}

#[test]
fn key_colon_starts_a_command_and_q_exits() {
    let b = centre_board();
    assert_eq!(key_step(&b, true, true, KeyEntry::Idle, ':'), (KeyEntry::Command, KeyOutcome::Nothing));
    assert_eq!(key_step(&b, true, true, KeyEntry::Command, 'q'), (KeyEntry::Idle, KeyOutcome::Exit));
    assert_eq!(
        key_step(&b, true, true, KeyEntry::Command, 'x'),
        (KeyEntry::Idle, KeyOutcome::Warn(":x is not a command".to_string()))
    );
}

#[test]
fn key_single_cell_column_places_at_once() {
    let b = centre_board();
    assert_eq!(
        key_step(&b, true, true, KeyEntry::Idle, 'b'),
        (KeyEntry::Idle, KeyOutcome::Place(Pos { row: 2, col: 1 }))
    );
}

#[test]
fn key_column_with_two_cells_waits_for_the_row() {
    let b = centre_board();
    assert_eq!(key_step(&b, true, true, KeyEntry::Idle, 'c'), (KeyEntry::Column(2), KeyOutcome::Nothing));
    assert_eq!(
        key_step(&b, true, true, KeyEntry::Column(2), '4'),
        (KeyEntry::Idle, KeyOutcome::Place(Pos { row: 3, col: 2 }))
    );
}

#[test]
fn key_row_warnings() {
    let b = centre_board();
    let col = KeyEntry::Column(2);
    assert_eq!(key_step(&b, true, true, col, '9'), (KeyEntry::Idle, KeyOutcome::Warn("c9: row out of bounds".to_string())));
    assert_eq!(key_step(&b, true, true, col, '1'), (KeyEntry::Idle, KeyOutcome::Warn("c1: not a valid placement".to_string())));
    assert_eq!(key_step(&b, true, true, col, 'z'), (KeyEntry::Idle, KeyOutcome::Warn("cz: expected row number".to_string())));
}

#[test]
fn key_column_without_cells_warns_only_with_a_card_selected() {
    let b = centre_board();
    assert_eq!(
        key_step(&b, true, true, KeyEntry::Idle, 'a'),
        (KeyEntry::Idle, KeyOutcome::Warn("no playable cells in column a".to_string()))
    );
    assert_eq!(key_step(&b, false, false, KeyEntry::Idle, 'a'), (KeyEntry::Idle, KeyOutcome::Nothing));
    assert_eq!(key_step(&b, true, true, KeyEntry::Idle, 'h'), (KeyEntry::Idle, KeyOutcome::Nothing));
}

#[test]
fn cell_shades() {
    let b = centre_board();
    assert_eq!(cell_shade(&b, Pos { row: 2, col: 2 }, true, true, KeyEntry::Idle), CellShade::Occupied);
    assert_eq!(cell_shade(&b, Pos { row: 1, col: 2 }, true, true, KeyEntry::Idle), CellShade::Highlighted);
    assert_eq!(cell_shade(&b, Pos { row: 1, col: 2 }, false, true, KeyEntry::Idle), CellShade::Plain);
    assert_eq!(cell_shade(&b, Pos { row: 1, col: 2 }, true, false, KeyEntry::Idle), CellShade::Plain);
    assert_eq!(cell_shade(&b, Pos { row: 2, col: 1 }, true, true, KeyEntry::Column(2)), CellShade::Plain);
    assert_eq!(cell_shade(&b, Pos { row: 3, col: 2 }, true, true, KeyEntry::Column(2)), CellShade::Highlighted);
    assert_eq!(cell_shade(&b, Pos { row: 0, col: 0 }, true, true, KeyEntry::Idle), CellShade::Plain);
}
