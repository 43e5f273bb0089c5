use vstd::prelude::*;

use crate::board::{Board, Pos, MAX_BOARD_SIZE};
use crate::text::{concat, concat_char};

verus! {

/// Where a keyboard placement stands: nothing typed, `:` typed (a command follows), or a column
/// letter typed whose column has several playable cells (a row digit follows).
#[derive(Clone, Copy, Debug, PartialEq, Eq, Structural)]
pub enum KeyEntry {
    Idle,
    Command,
    Column(u8),
}

/// What a key press does.
#[derive(Clone, Debug, PartialEq, Eq)]
pub enum KeyOutcome {
    /// Nothing to do.
    Nothing,
    /// Leave the game (`:q`).
    Exit,
    /// Place the selected card there.
    Place(Pos),
    /// Show this warning.
    Warn(String),
}

/// The state fits an `n`×`n` board: a pending column lies on it.
pub open spec fn entry_fits(entry: KeyEntry, n: int) -> bool {
    entry matches KeyEntry::Column(col) ==> col < n
}

/// The character with code `base + off`, for a sum below 128.
fn ascii_char(base: u8, off: u8) -> (c: char)
    requires
        base + off < 128,
    ensures
        c == ((base + off) as int) as char,
{
    ((base + off) as u8) as char
}

/// The key of column `col`: `a`, `b`, ….
pub open spec fn column_key(col: int) -> char {
    (('a' as int) + col) as char
}

/// The key of row `row`: `1`, `2`, … (rows past the ninth take the characters after `9`).
pub open spec fn row_key(row: int) -> char {
    (('1' as int) + row) as char
}

/// The playable cells of column `col`.
pub open spec fn playable_rows<const N: usize>(board: Board<N>, col: int) -> Set<int> {
    Set::new(|row: int| 0 <= row < N && board.playable(row, col))
}

/// `row` is the only playable cell of column `col`.
pub open spec fn only_playable<const N: usize>(board: Board<N>, col: int, row: int) -> bool {
    board.playable(row, col) && forall|r: int| #[trigger] board.playable(r, col) ==> r == row
}

/// Column `col` has at least two playable cells.
pub open spec fn several_playable<const N: usize>(board: Board<N>, col: int) -> bool {
    exists|r1: int, r2: int| r1 != r2 && #[trigger] board.playable(r1, col) && #[trigger] board.playable(r2, col)
}

/// The row a typed digit stands for, as a byte: the digit's code minus that of `1`, wrapping
/// (so `0` stands for row 255).
pub open spec fn digit_row(key: char) -> int {
    ((key as int) - ('1' as int) + 256) % 256
}

/// `key` is an ASCII lowercase letter.
pub open spec fn is_lower(key: char) -> bool {
    'a' <= key <= 'z'
}

/// `key` is an ASCII digit.
pub open spec fn is_digit_key(key: char) -> bool {
    '0' <= key <= '9'
}

/// Column `col` has a playable cell whose row key is `key`.
pub open spec fn key_names_row<const N: usize>(board: Board<N>, col: int, key: char) -> bool {
    exists|row: int| 0 <= row < N && #[trigger] board.playable(row, col) && row_key(row) == key
}

/// The warning for `key` typed after the letter of column `col` when it names no playable row:
/// a digit of a row past the board, of a cell that is not playable, or any other digit; a
/// non-digit expects a row number.
pub open spec fn column_warning_text<const N: usize>(board: Board<N>, col: int, key: char) -> Seq<char> {
    let head = seq![column_key(col), key];
    if is_digit_key(key) && digit_row(key) >= N {
        head + ": row out of bounds"@
    } else if is_digit_key(key) && !board.playable(digit_row(key), col) {
        head + ": not a valid placement"@
    } else if is_digit_key(key) {
        head + ": invalid"@
    } else {
        head + ": expected row number"@
    }
}

/// Pressing `key` with nothing typed: `:` starts a command; with a card to place, the letter of
/// a column with one playable cell places there and that of a column with several waits for
/// the row; with a card selected, any other letter of a column on the board warns that the
/// column has no playable cell; every other key does nothing.
pub open spec fn idle_step<const N: usize>(
    board: Board<N>,
    placing: bool,
    selected: bool,
    key: char,
    next: KeyEntry,
    r: KeyOutcome,
) -> bool {
    let col = (key as int) - ('a' as int);
    let on_board = is_lower(key) && col < N;
    if key == ':' {
        next == KeyEntry::Command && r == KeyOutcome::Nothing
    } else if placing && on_board && exists|row: int| #[trigger] only_playable(board, col, row) {
        &&& next == KeyEntry::Idle
        &&& r matches KeyOutcome::Place(p) && p.col == col && only_playable(board, col, p.row as int)
    } else if placing && on_board && several_playable(board, col) {
        next == KeyEntry::Column(col as u8) && r == KeyOutcome::Nothing
    } else if selected && on_board {
        &&& next == KeyEntry::Idle
        &&& r matches KeyOutcome::Warn(w) && w@ == "no playable cells in column "@ + seq![key]
    } else {
        next == KeyEntry::Idle && r == KeyOutcome::Nothing
    }
}

/// Pressing `key` after `:`: `q` exits, any other key warns that it is not a command.
pub open spec fn command_step(key: char, next: KeyEntry, r: KeyOutcome) -> bool {
    &&& next == KeyEntry::Idle
    &&& if key == 'q' {
        r == KeyOutcome::Exit
    } else {
        r matches KeyOutcome::Warn(w) && w@ == seq![':', key] + " is not a command"@
    }
}

/// Pressing `key` after the letter of column `col`: the key of a playable row places there,
/// anything else warns (see [`column_warning_text`]).
pub open spec fn column_step<const N: usize>(
    board: Board<N>,
    col: int,
    key: char,
    next: KeyEntry,
    r: KeyOutcome,
) -> bool {
    &&& next == KeyEntry::Idle
    &&& if key_names_row(board, col, key) {
        &&& r matches KeyOutcome::Place(p)
        &&& r->Place_0.col == col
        &&& 0 <= r->Place_0.row < N
        &&& board.playable(r->Place_0.row as int, col)
        &&& row_key(r->Place_0.row as int) == key
    } else {
        r matches KeyOutcome::Warn(w) && w@ == column_warning_text(board, col, key)
    }
}

/// `next` and `r` are what pressing `key` in state `entry` does on `board`; `placing` says
/// whether the player to move has a selected card to place (so column keys place it), and
/// `selected` whether a card is selected at all.
pub open spec fn is_key_step<const N: usize>(
    board: Board<N>,
    placing: bool,
    selected: bool,
    entry: KeyEntry,
    key: char,
    next: KeyEntry,
    r: KeyOutcome,
) -> bool {
    match entry {
        KeyEntry::Idle => idle_step(board, placing, selected, key, next, r),
        KeyEntry::Command => command_step(key, next, r),
        KeyEntry::Column(col) => column_step(board, col as int, key, next, r),
    }
}

/// A key press only ever places on a playable cell.
pub proof fn lemma_key_places_on_playable<const N: usize>(
    board: Board<N>,
    placing: bool,
    selected: bool,
    entry: KeyEntry,
    key: char,
    next: KeyEntry,
    r: KeyOutcome,
)
    requires
        is_key_step(board, placing, selected, entry, key, next, r),
        r is Place,
    ensures
        board.playable(r->Place_0.row as int, r->Place_0.col as int),
        next == KeyEntry::Idle,
{
}

/// The playable rows of column `col`, in order.
fn rows_of<const N: usize>(board: &Board<N>, col: u8) -> (r: Vec<u8>)
    requires
        N <= MAX_BOARD_SIZE,
    ensures
        forall|i: int| 0 <= i < r.len() ==> (#[trigger] r@[i]) < N && board.playable(r@[i] as int, col as int),
        forall|row: int| 0 <= row < N && board.playable(row, col as int) ==> r@.contains(row as u8),
        forall|i: int, j: int| 0 <= i < j < r.len() ==> (#[trigger] r@[i]) < (#[trigger] r@[j]),
{
    let mut out: Vec<u8> = Vec::new();
    let mut row: usize = 0;
    while row < N
        invariant
            N <= MAX_BOARD_SIZE,
            row <= N,
            forall|i: int| 0 <= i < out.len() ==> (#[trigger] out@[i]) < row && board.playable(out@[i] as int, col as int),
            forall|q: int| 0 <= q < row && board.playable(q, col as int) ==> out@.contains(q as u8),
            forall|i: int, j: int| 0 <= i < j < out.len() ==> (#[trigger] out@[i]) < (#[trigger] out@[j]),
        decreases N - row,
    {
        if board.is_playable(Pos { row: row as u8, col }) {
            let ghost before = out@;
            out.push(row as u8);
            proof {
                assert(out@[out.len() - 1] == row as u8);
                assert forall|q: int| 0 <= q < row + 1 && board.playable(q, col as int) implies out@.contains(q as u8) by {
                    if q < row {
                        let k = choose|k: int| 0 <= k < before.len() && before[k] == q as u8;
                        assert(out@[k] == q as u8);
                    }
                }
            }
        }
        row += 1;
    }
    out
}

/// What pressing `key` in state `entry` does (see [`is_key_step`]): the next state and the
/// outcome.
pub fn key_step<const N: usize>(board: &Board<N>, placing: bool, selected: bool, entry: KeyEntry, key: char) -> (r: (
    KeyEntry,
    KeyOutcome,
))
    requires
        1 <= N <= MAX_BOARD_SIZE,
        entry_fits(entry, N as int),
    ensures
        is_key_step(*board, placing, selected, entry, key, r.0, r.1),
        entry_fits(r.0, N as int),
{
    match entry {
        KeyEntry::Idle => {
            if key == ':' {
                return (KeyEntry::Command, KeyOutcome::Nothing);
            }
            let lower = 'a' <= key && key <= 'z';
            if lower && ((key as u32) - ('a' as u32)) < N as u32 {
                let col = ((key as u32) - ('a' as u32)) as u8;
                assert(col as int == (key as int) - ('a' as int));
                if placing {
                    let rows = rows_of(board, col);
                    if rows.len() == 1 {
                        let row = rows[0];
                        proof {
                            assert forall|r: int| #[trigger] board.playable(r, col as int) implies r == row by {
                                assert(rows@.contains(r as u8));
                            }
                            assert(only_playable(*board, col as int, row as int));
                        }
                        return (KeyEntry::Idle, KeyOutcome::Place(Pos { row, col }));
                    }
                    if rows.len() > 1 {
                        proof {
                            assert(rows@[0] < rows@[1]);
                            assert(board.playable(rows@[0] as int, col as int));
                            assert(board.playable(rows@[1] as int, col as int));
                            assert forall|row: int| !#[trigger] only_playable(*board, col as int, row) by {
                                if only_playable(*board, col as int, row) {
                                    assert(rows@[0] as int == row);
                                    assert(rows@[1] as int == row);
                                }
                            }
                        }
                        return (KeyEntry::Column(col), KeyOutcome::Nothing);
                    }
                    proof {
                        assert forall|row: int| !#[trigger] only_playable(*board, col as int, row) by {
                            if only_playable(*board, col as int, row) {
                                assert(rows@.contains(row as u8));
                            }
                        }
                        assert(!several_playable(*board, col as int)) by {
                            if several_playable(*board, col as int) {
                                let (r1, r2) = choose|r1: int, r2: int|
                                    r1 != r2 && #[trigger] board.playable(r1, col as int) && #[trigger] board.playable(
                                        r2,
                                        col as int,
                                    );
                                assert(rows@.contains(r1 as u8));
                            }
                        }
                    }
                }
                if selected {
                    let w = concat_char("no playable cells in column ", key, "");
                    proof {
                        reveal_strlit("");
                        assert(w@ =~= "no playable cells in column "@ + seq![key]);
                    }
                    return (KeyEntry::Idle, KeyOutcome::Warn(w));
                }
            }
            (KeyEntry::Idle, KeyOutcome::Nothing)
        },
        KeyEntry::Command => {
            if key == 'q' {
                (KeyEntry::Idle, KeyOutcome::Exit)
            } else {
                let w = concat_char(":", key, " is not a command");
                proof {
                    reveal_strlit(":");
                    assert(w@ =~= seq![':', key] + " is not a command"@);
                }
                (KeyEntry::Idle, KeyOutcome::Warn(w))
            }
        },
        KeyEntry::Column(col) => {
            let col_key = ascii_char(97, col);
            let digit = '0' <= key && key <= '9';
            let rows = rows_of(board, col);
            let mut i: usize = 0;
            while i < rows.len()
                invariant
                    entry == KeyEntry::Column(col),
                    col < N,
                    N <= MAX_BOARD_SIZE,
                    i <= rows.len(),
                    forall|k: int| 0 <= k < rows.len() ==> (#[trigger] rows@[k]) < N && board.playable(rows@[k] as int, col as int),
                    forall|k: int| 0 <= k < i ==> row_key(#[trigger] rows@[k] as int) != key,
                decreases rows.len() - i,
            {
                let row = rows[i];
                if ascii_char(49, row) == key {
                    assert(0 <= row < N && board.playable(row as int, col as int) && row_key(row as int) == key);
                    return (KeyEntry::Idle, KeyOutcome::Place(Pos { row, col }));
                }
                i += 1;
            }
            proof {
                assert forall|row: int| !(0 <= row < N && board.playable(row, col as int) && row_key(row) == key) by {
                    if 0 <= row < N && board.playable(row, col as int) && row_key(row) == key {
                        assert(rows@.contains(row as u8));
                        let k = choose|k: int| 0 <= k < rows@.len() && rows@[k] == row as u8;
                        assert(row_key(rows@[k] as int) != key);
                    }
                }
            }
            let w = column_warning(board, col, col_key, key, digit);
            (KeyEntry::Idle, w)
        },
    }
}

/// The warning for `key` typed after the letter of column `col`, which matches no playable row.
fn column_warning<const N: usize>(board: &Board<N>, col: u8, col_key: char, key: char, digit: bool) -> (r: KeyOutcome)
    requires
        N <= MAX_BOARD_SIZE,
        col_key == column_key(col as int),
        digit == is_digit_key(key),
    ensures
        r matches KeyOutcome::Warn(w) && w@ == column_warning_text(*board, col as int, key),
{
    let head = concat_char("", col_key, "");
    let text = if digit {
        let row = ((key as u32) + 256 - ('1' as u32)) % 256;
        if row as usize >= N {
            concat_char(head.as_str(), key, ": row out of bounds")
        } else if !board.is_playable(Pos { row: row as u8, col }) {
            concat_char(head.as_str(), key, ": not a valid placement")
        } else {
            concat_char(head.as_str(), key, ": invalid")
        }
    } else {
        concat_char(head.as_str(), key, ": expected row number")
    };
    proof {
        reveal_strlit("");
        assert(head@ =~= seq![column_key(col as int)]);
        assert(seq![column_key(col as int)] + seq![key] =~= seq![column_key(col as int), key]);
    }
    KeyOutcome::Warn(text)
}

/// How a board cell is drawn.
#[derive(Clone, Copy, Debug, PartialEq, Eq, Structural)]
pub enum CellShade {
    /// The cell holds a card.
    Occupied,
    /// An empty cell where the selected card may go.
    Highlighted,
    /// Any other empty cell.
    Plain,
}

/// How cell `(row, col)` is drawn: occupied if it holds a card; else highlighted when a card is
/// selected, a human is to move, the cell is playable, and it lies in the column typed on the
/// keyboard if one was typed (`entry` is `Column`); else plain.
pub open spec fn spec_cell_shade<const N: usize>(
    board: Board<N>,
    row: int,
    col: int,
    selected: bool,
    manual_turn: bool,
    entry: KeyEntry,
) -> CellShade {
    if board.cell(row, col) != crate::board::EMPTY {
        CellShade::Occupied
    } else if selected && manual_turn && board.playable(row, col) && (entry matches KeyEntry::Column(c) ==> col == c) {
        CellShade::Highlighted
    } else {
        CellShade::Plain
    }
}

/// How cell `p` is drawn ([`spec_cell_shade`]).
pub fn cell_shade<const N: usize>(board: &Board<N>, p: Pos, selected: bool, manual_turn: bool, entry: KeyEntry) -> (r:
    CellShade)
    requires
        N <= MAX_BOARD_SIZE,
        p.row < N,
        p.col < N,
    ensures
        r == spec_cell_shade(*board, p.row as int, p.col as int, selected, manual_turn, entry),
{
    if board.get(p) != crate::board::EMPTY {
        return CellShade::Occupied;
    }
    let in_column = match entry {
        KeyEntry::Column(c) => p.col == c,
        _ => true,
    };
    if selected && manual_turn && board.is_playable(p) && in_column {
        CellShade::Highlighted
    } else {
        CellShade::Plain
    }
}

} // verus!
