use vstd::prelude::*;

use crate::board::{Board, Pos, EMPTY, MAX_BOARD_SIZE};
use crate::cards::{CardValue, Hand};
use crate::game::{GameState, Move};
use crate::text::{concat, concat_number, decimal, parse_u8, parsed_u8};

verus! {

/// Where the entry of a manual move stands: the next answer expected.
#[derive(Clone, Copy, Debug, PartialEq, Eq, Structural)]
pub enum ManualEntry {
    /// The card to play.
    AskCard,
    /// The row, once the card is known.
    AskRow { card: CardValue },
    /// The column, once the card and row are known.
    AskCol { card: CardValue, row: u8 },
}

/// What an answer leads to.
#[derive(Clone, Debug, PartialEq, Eq)]
pub enum ManualAction {
    /// Ask the next question.
    Ask(ManualEntry),
    /// Show this warning and start the move over.
    Warn(String),
    /// The move is complete.
    Done(Move),
}

/// The text of the warning for a number that could not be read.
pub open spec fn not_a_number_text() -> Seq<char> {
    "expected a number"@
}

/// `r` is the action for answer `text` (already trimmed) in state `state`:
/// - an answer that is not a `u8` number is warned about;
/// - a card must be in hand (values above `N` never are);
/// - a row is taken as given;
/// - a column completes the move when the cell is playable, else the warning says why: out of
///   bounds, already occupied, or no adjacent card.
pub open spec fn is_step<const N: usize>(
    board: Board<N>,
    hand: Hand<N>,
    state: ManualEntry,
    text: Seq<char>,
    r: ManualAction,
) -> bool {
    match parsed_u8(text) {
        None => r matches ManualAction::Warn(w) && w@ == not_a_number_text(),
        Some(x) => match state {
            ManualEntry::AskCard => if x <= N && hand@[x as int] > 0 {
                r == ManualAction::Ask(ManualEntry::AskRow { card: CardValue(x) })
            } else {
                r matches ManualAction::Warn(w) && w@ == "no card "@ + decimal(x as nat) + " in hand"@
            },
            ManualEntry::AskRow { card } => r == ManualAction::Ask(ManualEntry::AskCol { card, row: x }),
            ManualEntry::AskCol { card, row } => {
                let place = "("@ + decimal(row as nat) + ","@ + decimal(x as nat);
                if board.playable(row as int, x as int) {
                    r == ManualAction::Done(Move { pos: Pos { row, col: x }, card })
                } else if row >= N || x >= N {
                    r matches ManualAction::Warn(w) && w@ == place + ") is out of bounds"@
                } else if board.cell(row as int, x as int) != EMPTY {
                    r matches ManualAction::Warn(w) && w@ == place + ") is already occupied"@
                } else {
                    r matches ManualAction::Warn(w) && w@ == place + ") has no adjacent card"@
                }
            },
        },
    }
}

/// `c` has the Unicode property White_Space (what `char::is_whitespace` tests).
pub open spec fn is_white_space(c: char) -> bool {
    let u = c as u32;
    ||| 0x09 <= u <= 0x0D
    ||| u == 0x20 || u == 0x85 || u == 0xA0 || u == 0x1680
    ||| 0x2000 <= u <= 0x200A
    ||| u == 0x2028 || u == 0x2029 || u == 0x202F || u == 0x205F || u == 0x3000
}

/// `s` without its leading white space.
pub open spec fn trim_start_white(s: Seq<char>) -> Seq<char>
    decreases s.len(),
{
    if s.len() > 0 && is_white_space(s[0]) {
        trim_start_white(s.drop_first())
    } else {
        s
    }
}

/// `s` without its trailing white space.
pub open spec fn trim_end_white(s: Seq<char>) -> Seq<char>
    decreases s.len(),
{
    if s.len() > 0 && is_white_space(s.last()) {
        trim_end_white(s.drop_last())
    } else {
        s
    }
}

/// `s` without leading and trailing white space, as `str::trim` gives it.
pub open spec fn trimmed(s: Seq<char>) -> Seq<char> {
    trim_end_white(trim_start_white(s))
}

/// `str::trim`. Claimed, as its documentation says: the input without leading and trailing
/// white space, white space being the Unicode White_Space property ([`trimmed`]).
#[verifier::external_body]
pub(crate) fn trim(s: &str) -> (r: &str)
    ensures
        r@ == trimmed(s@),
{
    s.trim()
}

/// The action for an already trimmed answer (see [`is_step`]).
pub fn manual_step_trimmed<const N: usize>(board: &Board<N>, hand: &Hand<N>, state: ManualEntry, text: &str) -> (r:
    ManualAction)
    requires
        N <= MAX_BOARD_SIZE,
    ensures
        is_step(*board, *hand, state, text@, r),
{
    let x = match parse_u8(text) {
        None => return ManualAction::Warn("expected a number".to_string()),
        Some(x) => x,
    };
    match state {
        ManualEntry::AskCard => {
            if (x as usize) <= N && hand.count(CardValue(x)) > 0 {
                ManualAction::Ask(ManualEntry::AskRow { card: CardValue(x) })
            } else {
                let head = concat_number("no card ", x as u64);
                ManualAction::Warn(concat(head.as_str(), " in hand"))
            }
        },
        ManualEntry::AskRow { card } => ManualAction::Ask(ManualEntry::AskCol { card, row: x }),
        ManualEntry::AskCol { card, row } => {
            let pos = Pos { row, col: x };
            if board.is_playable(pos) {
                return ManualAction::Done(Move { pos, card });
            }
            let head = concat_number("(", row as u64);
            let head = concat(head.as_str(), ",");
            let place = concat_number(head.as_str(), x as u64);
            if (row as usize) >= N || (x as usize) >= N {
                ManualAction::Warn(concat(place.as_str(), ") is out of bounds"))
            } else if !board.is_empty(pos) {
                ManualAction::Warn(concat(place.as_str(), ") is already occupied"))
            } else {
                ManualAction::Warn(concat(place.as_str(), ") has no adjacent card"))
            }
        },
    }
}

/// The action for the answer line `line`, read after trimming it (see [`is_step`]).
pub fn manual_step<const N: usize>(board: &Board<N>, hand: &Hand<N>, state: ManualEntry, line: &str) -> (r:
    ManualAction)
    requires
        N <= MAX_BOARD_SIZE,
    ensures
        is_step(*board, *hand, state, trimmed(line@), r),
{
    manual_step_trimmed(board, hand, state, trim(line))
}

/// A move entered in three answers (card, row, column) at the board and hand of the player to move
/// is a legal move of the game: the card is held and the cell is playable.
pub proof fn lemma_entered_move_is_legal<const N: usize>(
    game: GameState<N>,
    card_text: Seq<char>,
    row_text: Seq<char>,
    col_text: Seq<char>,
    card: CardValue,
    row: u8,
    m: Move,
)
    requires
        is_step(game.board, game.hand_of(game.turn), ManualEntry::AskCard, card_text, ManualAction::Ask(ManualEntry::AskRow { card })),
        is_step(
            game.board,
            game.hand_of(game.turn),
            ManualEntry::AskRow { card },
            row_text,
            ManualAction::Ask(ManualEntry::AskCol { card, row }),
        ),
        is_step(game.board, game.hand_of(game.turn), ManualEntry::AskCol { card, row }, col_text, ManualAction::Done(m)),
    ensures
        game.is_legal(m),
        m.card == card,
        m.pos.row == row,
{
}

} // verus!
