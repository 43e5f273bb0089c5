use vstd::prelude::*;

use crate::board::{Board, Cell, Pos, EMPTY, MAX_BOARD_SIZE};
use crate::cards::{CardValue, Hand};
use crate::game::{GameState, Move, Player};
use crate::text::{concat, concat_number, decimal};

verus! {

/// The horizontal rule of an `n`×`n` board drawing: `9 + 4n` dashes.
pub open spec fn bar_text(n: int) -> Seq<char> {
    Seq::new((9 + 4 * n) as nat, |i: int| '-')
}

/// Column numbers `0..k` of the header, each but the last followed by three spaces.
pub open spec fn header_text(n: int, k: int) -> Seq<char>
    decreases k,
{
    if k <= 0 {
        Seq::empty()
    } else {
        header_text(n, k - 1) + decimal((k - 1) as nat) + if k < n {
            "   "@
        } else {
            Seq::empty()
        }
    }
}

/// One drawn cell: blank when empty, else the value; each closed by `|`.
pub open spec fn cell_text(v: Cell) -> Seq<char> {
    if v == EMPTY {
        "   |"@
    } else {
        " "@ + decimal(v as nat) + " |"@
    }
}

/// One drawn cell of a comparison with an earlier board: `+v` for a new card, `-` for a removed
/// one, `~v` for a changed one, else drawn as usual.
pub open spec fn diff_cell_text(mine: Cell, theirs: Cell) -> Seq<char> {
    if mine == theirs {
        cell_text(mine)
    } else if theirs == EMPTY {
        "+"@ + decimal(mine as nat) + " |"@
    } else if mine == EMPTY {
        "-  |"@
    } else {
        "~"@ + decimal(mine as nat) + " |"@
    }
}

/// The cells `0..k` of row `r`, compared with `other` (a board compared with itself draws plainly).
pub open spec fn row_cells_text<const N: usize>(b: Board<N>, other: Board<N>, r: int, k: int) -> Seq<char>
    decreases k,
{
    if k <= 0 {
        Seq::empty()
    } else {
        row_cells_text(b, other, r, k - 1) + diff_cell_text(b.cell(r, k - 1), other.cell(r, k - 1))
    }
}

/// Rows `0..k`, each as `(r,_)   |` then its cells and a line break.
pub open spec fn rows_text<const N: usize>(b: Board<N>, other: Board<N>, k: int) -> Seq<char>
    decreases k,
{
    if k <= 0 {
        Seq::empty()
    } else {
        rows_text(b, other, k - 1) + "("@ + decimal((k - 1) as nat) + ",_)   |"@ + row_cells_text(b, other, k - 1, N as int)
            + "\n"@
    }
}

/// The drawing of `b` compared with `other`: a rule, the column numbers, a rule, one line per row,
/// and a closing rule.
pub open spec fn diff_text<const N: usize>(b: Board<N>, other: Board<N>) -> Seq<char> {
    bar_text(N as int) + "\n"@ + "          "@ + header_text(N as int, N as int) + "\n"@ + bar_text(N as int) + "\n"@
        + rows_text(b, other, N as int) + bar_text(N as int)
}

/// The drawing of `b` on its own.
pub open spec fn board_text<const N: usize>(b: Board<N>) -> Seq<char> {
    diff_text(b, b)
}

/// The held values among `0..k` as `v:count`, separated by `, `.
pub open spec fn hand_items(counts: Seq<u8>, k: int) -> Seq<char>
    decreases k,
{
    if k <= 0 {
        Seq::empty()
    } else {
        let prev = hand_items(counts, k - 1);
        let item = decimal((k - 1) as nat) + ":"@ + decimal(counts[k - 1] as nat);
        if counts[k - 1] == 0 {
            prev
        } else if prev.len() == 0 {
            item
        } else {
            prev + ", "@ + item
        }
    }
}

/// The drawing of a hand: `{v:count, ...}` over the values held, in increasing order.
pub open spec fn hand_text<const N: usize>(h: Hand<N>) -> Seq<char> {
    "{"@ + hand_items(h@, N + 1) + "}"@
}

/// The rule line.
fn bar<const N: usize>() -> (r: String)
    requires
        N <= MAX_BOARD_SIZE,
    ensures
        r@ == bar_text(N as int),
{
    let mut out = String::new();
    let mut i: usize = 0;
    while i < 9 + 4 * N
        invariant
            N <= MAX_BOARD_SIZE,
            i <= 9 + 4 * N,
            out@ == Seq::new(i as nat, |k: int| '-'),
        decreases 9 + 4 * N - i,
    {
        out = concat(out.as_str(), "-");
        proof {
            reveal_strlit("-");
            assert(out@ =~= Seq::new((i + 1) as nat, |k: int| '-'));
        }
        i += 1;
    }
    out
}

impl<const N: usize> Board<N> {
    /// Draw this board, marking how it differs from `other`: `+v` where a card was added, `-`
    /// where one was removed, `~v` where one changed.
    pub fn display_diff(&self, other: &Board<N>) -> (r: String)
        requires
            N <= MAX_BOARD_SIZE,
        ensures
            r@ == diff_text(*self, *other),
    {
        let rule = bar::<N>();
        let mut out = concat(rule.as_str(), "\n");
        out = concat(out.as_str(), "          ");
        let ghost head = out@;
        let mut c: usize = 0;
        while c < N
            invariant
                N <= MAX_BOARD_SIZE,
                c <= N,
                out@ == head + header_text(N as int, c as int),
            decreases N - c,
        {
            out = concat_number(out.as_str(), c as u64);
            if c + 1 < N {
                out = concat(out.as_str(), "   ");
            }
            proof {
                assert(out@ =~= head + header_text(N as int, c + 1));
            }
            c += 1;
        }
        out = concat(out.as_str(), "\n");
        out = concat(out.as_str(), rule.as_str());
        out = concat(out.as_str(), "\n");
        let ghost top = out@;
        let mut row: usize = 0;
        while row < N
            invariant
                N <= MAX_BOARD_SIZE,
                row <= N,
                out@ == top + rows_text(*self, *other, row as int),
            decreases N - row,
        {
            let mut line = concat_number("(", row as u64);
            line = concat(line.as_str(), ",_)   |");
            let mut col: usize = 0;
            while col < N
                invariant
                    N <= MAX_BOARD_SIZE,
                    row < N,
                    col <= N,
                    line@ == "("@ + decimal(row as nat) + ",_)   |"@ + row_cells_text(*self, *other, row as int, col as int),
                decreases N - col,
            {
                let p = Pos { row: row as u8, col: col as u8 };
                let mine = self.get(p);
                let theirs = other.get(p);
                if mine == theirs {
                    if mine == EMPTY {
                        line = concat(line.as_str(), "   |");
                    } else {
                        line = concat(line.as_str(), " ");
                        line = concat_number(line.as_str(), mine as u64);
                        line = concat(line.as_str(), " |");
                    }
                } else if theirs == EMPTY {
                    line = concat(line.as_str(), "+");
                    line = concat_number(line.as_str(), mine as u64);
                    line = concat(line.as_str(), " |");
                } else if mine == EMPTY {
                    line = concat(line.as_str(), "-  |");
                } else {
                    line = concat(line.as_str(), "~");
                    line = concat_number(line.as_str(), mine as u64);
                    line = concat(line.as_str(), " |");
                }
                proof {
                    assert(line@ =~= "("@ + decimal(row as nat) + ",_)   |"@ + row_cells_text(*self, *other, row as int, col + 1));
                }
                col += 1;
            }
            out = concat(out.as_str(), line.as_str());
            out = concat(out.as_str(), "\n");
            proof {
                assert(out@ =~= top + rows_text(*self, *other, row + 1));
            }
            row += 1;
        }
        let r = concat(out.as_str(), rule.as_str());
        proof {
            assert(r@ =~= diff_text(*self, *other));
        }
        r
    }

    /// Draw this board: a rule, the column numbers, a rule, one line per row with each cell's
    /// value (blank when empty), and a closing rule.
    pub fn to_text(&self) -> (r: String)
        requires
            N <= MAX_BOARD_SIZE,
        ensures
            r@ == board_text(*self),
    {
        self.display_diff(self)
    }
}

impl<const N: usize> Hand<N> {
    /// Draw this hand: `{v:count, ...}` over the values held, in increasing order.
    pub fn to_text(&self) -> (r: String)
        requires
            N <= MAX_BOARD_SIZE,
        ensures
            r@ == hand_text(*self),
    {
        proof {
            self.lemma_view_len();
        }
        let mut items = String::new();
        let mut first = true;
        let mut v: usize = 0;
        while v <= N
            invariant
                N <= MAX_BOARD_SIZE,
                self@.len() == N + 1,
                v <= N + 1,
                items@ == hand_items(self@, v as int),
                first == (items@.len() == 0),
            decreases N + 1 - v,
        {
            let c = self.count(CardValue(v as u8));
            if c > 0 {
                proof {
                    reveal_strlit(":");
                    reveal_strlit(", ");
                }
                if !first {
                    items = concat(items.as_str(), ", ");
                }
                items = concat_number(items.as_str(), v as u64);
                items = concat(items.as_str(), ":");
                items = concat_number(items.as_str(), c as u64);
                first = false;
                proof {
                    assert(items@ =~= hand_items(self@, v + 1));
                    assert(decimal(c as nat).len() > 0) by {
                        crate::text::lemma_decimal_nonempty(c as nat);
                    }
                }
            }
            v += 1;
        }
        let open = concat("{", items.as_str());
        concat(open.as_str(), "}")
    }
}

/// A player named with the lines it scores: `P1 (Cols)` or `P2 (Rows)`.
#[derive(Clone, Copy, Debug, PartialEq, Eq, Structural)]
pub struct PlayerDisplay(pub Player);

impl PlayerDisplay {
    /// The name: `P1 (Cols)` for `A`, `P2 (Rows)` for `B`.
    pub fn to_text(&self) -> (r: String)
        ensures
            r@ == if self.0 is A {
                "P1 (Cols)"@
            } else {
                "P2 (Rows)"@
            },
    {
        match self.0 {
            Player::A => "P1 (Cols)".to_string(),
            Player::B => "P2 (Rows)".to_string(),
        }
    }
}

impl Move {
    /// The move as `card@(row,col)`.
    pub fn to_text(&self) -> (r: String)
        ensures
            r@ == decimal(self.card.0 as nat) + "@("@ + decimal(self.pos.row as nat) + ","@ + decimal(
                self.pos.col as nat,
            ) + ")"@,
    {
        let card = concat_number("", self.card.0 as u64);
        let at = concat(card.as_str(), "@(");
        let row = concat_number(at.as_str(), self.pos.row as u64);
        let comma = concat(row.as_str(), ",");
        let col = concat_number(comma.as_str(), self.pos.col as u64);
        let r = concat(col.as_str(), ")");
        proof {
            reveal_strlit("");
            assert(r@ =~= decimal(self.card.0 as nat) + "@("@ + decimal(self.pos.row as nat) + ","@ + decimal(
                self.pos.col as nat,
            ) + ")"@);
        }
        r
    }
}

/// The name of a player as drawn: `P1 (Cols)` or `P2 (Rows)`.
pub open spec fn player_text(p: Player) -> Seq<char> {
    if p is A {
        "P1 (Cols)"@
    } else {
        "P2 (Rows)"@
    }
}

/// The drawing of a game: the board, then whose turn it is and both hands.
pub open spec fn game_text<const N: usize>(g: GameState<N>) -> Seq<char> {
    board_text(g.board) + "\n"@ + player_text(g.turn) + " to play | "@ + player_text(Player::A) + ": "@ + hand_text(
        g.hands@[0],
    ) + " | "@ + player_text(Player::B) + ": "@ + hand_text(g.hands@[1])
}

impl<const N: usize> GameState<N> {
    /// Draw the game: the board, then `<player> to play | P1 (Cols): <hand> | P2 (Rows): <hand>`.
    pub fn to_text(&self) -> (r: String)
        requires
            N <= MAX_BOARD_SIZE,
        ensures
            r@ == game_text(*self),
    {
        let board = self.board.to_text();
        let turn = PlayerDisplay(self.turn).to_text();
        let a = PlayerDisplay(Player::A).to_text();
        let b = PlayerDisplay(Player::B).to_text();
        let h0 = self.hands[0].to_text();
        let h1 = self.hands[1].to_text();
        let t1 = concat(board.as_str(), "\n");
        let t2 = concat(t1.as_str(), turn.as_str());
        let t3 = concat(t2.as_str(), " to play | ");
        let t4 = concat(t3.as_str(), a.as_str());
        let t5 = concat(t4.as_str(), ": ");
        let t6 = concat(t5.as_str(), h0.as_str());
        let t7 = concat(t6.as_str(), " | ");
        let t8 = concat(t7.as_str(), b.as_str());
        let t9 = concat(t8.as_str(), ": ");
        let r = concat(t9.as_str(), h1.as_str());
        proof {
            assert(r@ =~= game_text(*self));
        }
        r
    }
}

/// The headline of the result screen: `<first> (Cols) wins!`, `<second> (Rows) wins!` or
/// `Draw!`, by the two scores.
pub open spec fn verdict_line(p1: Seq<char>, p2: Seq<char>, s0: int, s1: int) -> Seq<char> {
    if s0 > s1 {
        p1 + " (Cols) wins!"@
    } else if s0 < s1 {
        p2 + " (Rows) wins!"@
    } else {
        "Draw!"@
    }
}

/// The score lines of the result screen: each player's score with its weakest line.
pub open spec fn score_lines(p1: Seq<char>, p2: Seq<char>, s0: int, i0: int, s1: int, i1: int) -> Seq<char> {
    p1 + " (Cols): "@ + decimal(s0 as nat) + " (weakest: col "@ + decimal(i0 as nat) + ")\n"@ + p2 + " (Rows): "@
        + decimal(s1 as nat) + " (weakest: row "@ + decimal(i1 as nat) + ")"@
}

/// The texts of the result screen for players named `p1` (columns) and `p2` (rows) with scores
/// `s0`, `s1` and weakest lines `i0`, `i1`: the headline ([`verdict_line`]) and the score lines
/// ([`score_lines`]).
pub fn result_texts(p1: &str, p2: &str, s0: u16, i0: usize, s1: u16, i1: usize) -> (r: (String, String))
    ensures
        r.0@ == verdict_line(p1@, p2@, s0 as int, s1 as int),
        r.1@ == score_lines(p1@, p2@, s0 as int, i0 as int, s1 as int, i1 as int),
{
    let verdict = if s0 > s1 {
        concat(p1, " (Cols) wins!")
    } else if s0 < s1 {
        concat(p2, " (Rows) wins!")
    } else {
        concat("Draw!", "")
    };
    let a = concat(p1, " (Cols): ");
    let a = concat_number(a.as_str(), s0 as u64);
    let a = concat(a.as_str(), " (weakest: col ");
    let a = concat_number(a.as_str(), i0 as u64);
    let a = concat(a.as_str(), ")\n");
    let a = concat(a.as_str(), p2);
    let a = concat(a.as_str(), " (Rows): ");
    let a = concat_number(a.as_str(), s1 as u64);
    let a = concat(a.as_str(), " (weakest: row ");
    let a = concat_number(a.as_str(), i1 as u64);
    let scores = concat(a.as_str(), ")");
    proof {
        reveal_strlit("");
        assert(verdict@ =~= verdict_line(p1@, p2@, s0 as int, s1 as int));
        assert(scores@ =~= score_lines(p1@, p2@, s0 as int, i0 as int, s1 as int, i1 as int));
    }
    (verdict, scores)
}

} // verus!
