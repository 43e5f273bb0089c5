use vstd::prelude::*;

use crate::game::{scores_rows, Player};

verus! {

broadcast use vstd::array::group_array_axioms;

/// Largest supported board side length (and largest card value).
pub const MAX_BOARD_SIZE: usize = 15;

/// Number of cell slots a board reserves: `MAX_BOARD_SIZE²`.
pub const MAX_CELLS: usize = 225;

/// A board cell: a card value, or [`EMPTY`].
pub type Cell = u8;

/// Marker for an empty cell.
pub const EMPTY: Cell = 255;

/// A cell position on the board.
#[derive(Clone, Copy, Debug, PartialEq, Eq, Structural)]
pub struct Pos {
    pub row: u8,
    pub col: u8,
}

/// `(r, c)` lies on an `n`×`n` board.
pub open spec fn in_bounds(n: int, r: int, c: int) -> bool {
    0 <= r < n && 0 <= c < n
}

/// Row-major order on positions.
pub open spec fn pos_lt(a: Pos, b: Pos) -> bool {
    a.row < b.row || (a.row == b.row && a.col < b.col)
}

/// Distinct in-bounds cells have distinct row-major indices, and every such index is below `n²`.
pub proof fn lemma_flat_index(n: int, r1: int, c1: int, r2: int, c2: int)
    requires
        in_bounds(n, r1, c1),
        in_bounds(n, r2, c2),
    ensures
        0 <= r1 * n + c1 < n * n,
        (r1 * n + c1 == r2 * n + c2) <==> (r1 == r2 && c1 == c2),
{
    assert(0 <= r1 * n + c1 < n * n) by (nonlinear_arith)
        requires
            in_bounds(n, r1, c1),
    ;
    if r1 < r2 {
        assert(r1 * n + c1 < r2 * n + c2) by (nonlinear_arith)
            requires
                r1 < r2,
                0 <= c1 < n,
                0 <= c2,
        ;
    } else if r2 < r1 {
        assert(r2 * n + c2 < r1 * n + c1) by (nonlinear_arith)
            requires
                r2 < r1,
                0 <= c2 < n,
                0 <= c1,
        ;
    }
}

/// An `n`×`n` board with `n <= MAX_BOARD_SIZE` fits in `MAX_CELLS` slots.
pub proof fn lemma_cells_fit(n: int)
    requires
        0 <= n <= MAX_BOARD_SIZE,
    ensures
        n * n <= MAX_CELLS,
{
    assert(n * n <= 225) by (nonlinear_arith)
        requires
            0 <= n <= 15,
    ;
}

impl Pos {
    /// Row-major flat index of this position on an `N`×`N` board.
    pub fn flat<const N: usize>(self) -> (r: usize)
        requires
            N <= MAX_BOARD_SIZE,
            self.row < N,
            self.col < N,
        ensures
            r == self.row * N + self.col,
            r < N * N,
    {
        proof {
            lemma_flat_index(N as int, self.row as int, self.col as int, 0, 0);
            lemma_cells_fit(N as int);
            assert(self.row * N <= self.row * N + self.col);
        }
        self.row as usize * N + self.col as usize
    }
}

/// An `N`×`N` grid of cells. Supports `N <= MAX_BOARD_SIZE`.
#[derive(Clone, Copy, Debug, PartialEq, Eq)]
pub struct Board<const N: usize> {
    cells: [Cell; MAX_CELLS],
}

impl<const N: usize> View for Board<N> {
    type V = Seq<Cell>;

    /// The `N²` cells in row-major order.
    closed spec fn view(&self) -> Seq<Cell> {
        self.cells@.subrange(0, (N * N) as int)
    }
}

impl<const N: usize> Board<N> {
    /// The cell at `(r, c)`.
    pub open spec fn cell(self, r: int, c: int) -> Cell {
        self@[r * N + c]
    }

    /// `(r, c)` is on the board and holds a card.
    pub open spec fn occupied(self, r: int, c: int) -> bool {
        in_bounds(N as int, r, c) && self.cell(r, c) != EMPTY
    }

    /// At least one orthogonal neighbour of `(r, c)` holds a card.
    pub open spec fn has_occupied_neighbour(self, r: int, c: int) -> bool {
        self.occupied(r - 1, c) || self.occupied(r + 1, c) || self.occupied(r, c - 1) || self.occupied(
            r,
            c + 1,
        )
    }

    /// `(r, c)` is on the board, empty, and next to an occupied cell.
    pub open spec fn playable(self, r: int, c: int) -> bool {
        &&& in_bounds(N as int, r, c)
        &&& self.cell(r, c) == EMPTY
        &&& self.has_occupied_neighbour(r, c)
    }

    /// Every cell holds a card.
    pub open spec fn full(self) -> bool {
        forall|r: int, c: int| in_bounds(N as int, r, c) ==> #[trigger] self.cell(r, c) != EMPTY
    }

    /// Cell `j` of line `idx` as scored by `player`: a row for the rows player, a column otherwise.
    pub open spec fn line_cell(self, player: Player, idx: int, j: int) -> Cell {
        if scores_rows(player) {
            self.cell(idx, j)
        } else {
            self.cell(j, idx)
        }
    }

    /// Line `idx` of `player` as a sequence of `N` cells.
    pub open spec fn line_view(self, player: Player, idx: int) -> Seq<Cell> {
        Seq::new(N as nat, |j: int| self.line_cell(player, idx, j))
    }

    /// This board with `v` written into cell `(r, c)`.
    pub closed spec fn with_cell(self, r: int, c: int, v: Cell) -> Board<N> {
        Board { cells: vstd::array::spec_array_update(self.cells, r * N + c, v) }
    }

    /// Writing a cell updates the row-major view at that cell's index.
    pub proof fn lemma_with_cell(self, r: int, c: int, v: Cell)
        requires
            N <= MAX_BOARD_SIZE,
            in_bounds(N as int, r, c),
        ensures
            self.with_cell(r, c, v)@ == self@.update(r * N + c, v),
            forall|r2: int, c2: int|
                in_bounds(N as int, r2, c2) ==> #[trigger] self.with_cell(r, c, v).cell(r2, c2) == if r2 == r
                    && c2 == c {
                    v
                } else {
                    self.cell(r2, c2)
                },
    {
        lemma_flat_index(N as int, r, c, 0, 0);
        lemma_cells_fit(N as int);
        let b = self.with_cell(r, c, v);
        assert(b@ =~= self@.update(r * N + c, v));
        assert forall|r2: int, c2: int| in_bounds(N as int, r2, c2) implies #[trigger] b.cell(r2, c2) == if r2 == r
            && c2 == c {
            v
        } else {
            self.cell(r2, c2)
        } by {
            lemma_flat_index(N as int, r, c, r2, c2);
            lemma_flat_index(N as int, r2, c2, 0, 0);
        }
    }

    /// The board holds `N²` cells.
    pub proof fn lemma_view_len(self)
        requires
            N <= MAX_BOARD_SIZE,
        ensures
            self@.len() == N * N,
            N * N <= MAX_CELLS,
    {
        lemma_cells_fit(N as int);
    }

    /// The cell at `p`.
    pub fn get(&self, p: Pos) -> (r: Cell)
        requires
            N <= MAX_BOARD_SIZE,
            p.row < N,
            p.col < N,
        ensures
            r == self.cell(p.row as int, p.col as int),
    {
        let i = p.flat::<N>();
        proof {
            self.lemma_view_len();
            assert(self.cells@.len() == MAX_CELLS);
            assert(i < MAX_CELLS);
        }
        self.cells[i]
    }

    /// Write `v` into the cell at `p`.
    pub fn set(&mut self, p: Pos, v: Cell)
        requires
            N <= MAX_BOARD_SIZE,
            p.row < N,
            p.col < N,
        ensures
            *final(self) == old(self).with_cell(p.row as int, p.col as int, v),
            final(self)@ == old(self)@.update(p.row * N + p.col, v),
            forall|r: int, c: int|
                in_bounds(N as int, r, c) ==> #[trigger] final(self).cell(r, c) == if r == p.row
                    && c == p.col {
                    v
                } else {
                    old(self).cell(r, c)
                },
    {
        let i = p.flat::<N>();
        proof {
            old(self).lemma_view_len();
        }
        self.cells[i] = v;
        proof {
            self.lemma_view_len();
            assert(self.cells =~= old(self).with_cell(p.row as int, p.col as int, v).cells);
            assert(self@ =~= old(self)@.update(p.row * N + p.col, v));
            assert forall|r: int, c: int| in_bounds(N as int, r, c) implies #[trigger] self.cell(
                r,
                c,
            ) == if r == p.row && c == p.col {
                v
            } else {
                old(self).cell(r, c)
            } by {
                lemma_flat_index(N as int, r, c, p.row as int, p.col as int);
            }
        }
    }

    /// The cell at `p` is empty.
    pub fn is_empty(&self, p: Pos) -> (r: bool)
        requires
            N <= MAX_BOARD_SIZE,
            p.row < N,
            p.col < N,
        ensures
            r == (self.cell(p.row as int, p.col as int) == EMPTY),
    {
        self.get(p) == EMPTY
    }

    /// Every cell holds a card.
    pub fn is_full(&self) -> (r: bool)
        requires
            N <= MAX_BOARD_SIZE,
        ensures
            r == self.full(),
    {
        let mut row: usize = 0;
        while row < N
            invariant
                N <= MAX_BOARD_SIZE,
                row <= N,
                forall|r: int, c: int|
                    0 <= r < row && 0 <= c < N ==> #[trigger] self.cell(r, c) != EMPTY,
            decreases N - row,
        {
            let mut col: usize = 0;
            while col < N
                invariant
                    N <= MAX_BOARD_SIZE,
                    row < N,
                    col <= N,
                    forall|r: int, c: int|
                        0 <= r < row && 0 <= c < N ==> #[trigger] self.cell(r, c) != EMPTY,
                    forall|c: int| 0 <= c < col ==> #[trigger] self.cell(row as int, c) != EMPTY,
                decreases N - col,
            {
                if self.get(Pos { row: row as u8, col: col as u8 }) == EMPTY {
                    return false;
                }
                col += 1;
            }
            row += 1;
        }
        true
    }

    /// The in-bounds orthogonal neighbours of `p` (up, down, left, right) with their cells.
    pub open spec fn neighbour_seq(self, p: Pos) -> Seq<(Pos, Cell)> {
        let r = p.row as int;
        let c = p.col as int;
        let s0 = Seq::<(Pos, Cell)>::empty();
        let s1 = if r >= 1 {
            s0.push((Pos { row: (r - 1) as u8, col: p.col }, self.cell(r - 1, c)))
        } else {
            s0
        };
        let s2 = if r + 1 < N {
            s1.push((Pos { row: (r + 1) as u8, col: p.col }, self.cell(r + 1, c)))
        } else {
            s1
        };
        let s3 = if c >= 1 {
            s2.push((Pos { row: p.row, col: (c - 1) as u8 }, self.cell(r, c - 1)))
        } else {
            s2
        };
        if c + 1 < N {
            s3.push((Pos { row: p.row, col: (c + 1) as u8 }, self.cell(r, c + 1)))
        } else {
            s3
        }
    }

    /// Each entry of `neighbour_seq(p)` is an in-bounds orthogonal neighbour of `p` with its cell.
    pub proof fn lemma_neighbour_seq(self, p: Pos)
        requires
            N <= MAX_BOARD_SIZE,
            p.row < N,
            p.col < N,
        ensures
            forall|k: int|
                0 <= k < self.neighbour_seq(p).len() ==> {
                    let q = #[trigger] self.neighbour_seq(p)[k];
                    &&& in_bounds(N as int, q.0.row as int, q.0.col as int)
                    &&& q.1 == self.cell(q.0.row as int, q.0.col as int)
                    &&& {
                        ||| (q.0.row == p.row - 1 && q.0.col == p.col)
                        ||| (q.0.row == p.row + 1 && q.0.col == p.col)
                        ||| (q.0.row == p.row && q.0.col == p.col - 1)
                        ||| (q.0.row == p.row && q.0.col == p.col + 1)
                    }
                },
    {
    }

    /// The in-bounds orthogonal neighbours of `p`, in the order up, down, left, right.
    pub fn neighbours(&self, p: Pos) -> (r: Vec<(Pos, Cell)>)
        requires
            N <= MAX_BOARD_SIZE,
            p.row < N,
            p.col < N,
        ensures
            r@ == self.neighbour_seq(p),
    {
        let mut out: Vec<(Pos, Cell)> = Vec::new();
        if p.row >= 1 {
            let q = Pos { row: p.row - 1, col: p.col };
            out.push((q, self.get(q)));
        }
        if (p.row as usize) + 1 < N {
            let q = Pos { row: p.row + 1, col: p.col };
            out.push((q, self.get(q)));
        }
        if p.col >= 1 {
            let q = Pos { row: p.row, col: p.col - 1 };
            out.push((q, self.get(q)));
        }
        if (p.col as usize) + 1 < N {
            let q = Pos { row: p.row, col: p.col + 1 };
            out.push((q, self.get(q)));
        }
        out
    }

    /// True if `p` is in-bounds, currently empty, and has at least one occupied neighbour.
    pub fn is_playable(&self, p: Pos) -> (r: bool)
        requires
            N <= MAX_BOARD_SIZE,
        ensures
            r == self.playable(p.row as int, p.col as int),
    {
        if p.row as usize >= N || p.col as usize >= N {
            return false;
        }
        if !self.is_empty(p) {
            return false;
        }
        let ns = self.neighbours(p);
        let mut i: usize = 0;
        while i < ns.len()
            invariant
                N <= MAX_BOARD_SIZE,
                p.row < N,
                p.col < N,
                ns@ == self.neighbour_seq(p),
                self.cell(p.row as int, p.col as int) == EMPTY,
                i <= ns.len(),
                forall|k: int| 0 <= k < i ==> (#[trigger] ns@[k]).1 == EMPTY,
            decreases ns.len() - i,
        {
            let (q, _) = ns[i];
            proof {
                self.lemma_neighbour_seq(p);
                assert(ns@[i as int] == self.neighbour_seq(p)[i as int]);
            }
            if !self.is_empty(q) {
                proof {
                    let e = self.neighbour_seq(p)[i as int];
                    assert(e.0 == q);
                    assert(self.occupied(q.row as int, q.col as int));
                    assert(self.has_occupied_neighbour(p.row as int, p.col as int));
                }
                return true;
            }
            i += 1;
        }
        proof {
            let r = p.row as int;
            let c = p.col as int;
            assert(!self.has_occupied_neighbour(r, c)) by {
                let s = self.neighbour_seq(p);
                if self.occupied(r - 1, c) {
                    assert(s[0].1 == self.cell(r - 1, c));
                }
                if self.occupied(r + 1, c) {
                    let k: int = if r >= 1 { 1 } else { 0 };
                    assert(s[k].1 == self.cell(r + 1, c));
                }
                if self.occupied(r, c - 1) {
                    let k: int = (if r >= 1 { 1int } else { 0int }) + (if r + 1 < N { 1int } else { 0int });
                    assert(s[k].1 == self.cell(r, c - 1));
                }
                if self.occupied(r, c + 1) {
                    let k: int = (if r >= 1 { 1int } else { 0int }) + (if r + 1 < N { 1int } else { 0int }) + (if c >= 1 { 1int } else { 0int });
                    assert(s[k].1 == self.cell(r, c + 1));
                }
            }
        }
        false
    }

    /// All playable positions, in row-major order.
    pub fn valid_placements(&self) -> (r: Vec<Pos>)
        requires
            N <= MAX_BOARD_SIZE,
        ensures
            forall|i: int| 0 <= i < r.len() ==> self.playable(#[trigger] r@[i].row as int, r@[i].col as int),
            forall|row: int, col: int|
                #[trigger] self.playable(row, col) ==> r@.contains(Pos { row: row as u8, col: col as u8 }),
            forall|i: int, j: int| 0 <= i < j < r.len() ==> pos_lt(#[trigger] r@[i], #[trigger] r@[j]),
    {
        let mut out: Vec<Pos> = Vec::new();
        let mut row: usize = 0;
        while row < N
            invariant
                N <= MAX_BOARD_SIZE,
                row <= N,
                forall|i: int| 0 <= i < out.len() ==> self.playable(#[trigger] out@[i].row as int, out@[i].col as int),
                forall|i: int| 0 <= i < out.len() ==> #[trigger] out@[i].row < row,
                forall|rr: int, cc: int|
                    #[trigger] self.playable(rr, cc) && rr < row ==> out@.contains(Pos { row: rr as u8, col: cc as u8 }),
                forall|i: int, j: int| 0 <= i < j < out.len() ==> pos_lt(#[trigger] out@[i], #[trigger] out@[j]),
            decreases N - row,
        {
            let mut col: usize = 0;
            while col < N
                invariant
                    N <= MAX_BOARD_SIZE,
                    row < N,
                    col <= N,
                    forall|i: int| 0 <= i < out.len() ==> self.playable(#[trigger] out@[i].row as int, out@[i].col as int),
                    forall|i: int| 0 <= i < out.len() ==> pos_lt(#[trigger] out@[i], Pos { row: row as u8, col: col as u8 }),
                    forall|rr: int, cc: int|
                        #[trigger] self.playable(rr, cc) && (rr < row || (rr == row && cc < col)) ==> out@.contains(
                            Pos { row: rr as u8, col: cc as u8 },
                        ),
                    forall|i: int, j: int| 0 <= i < j < out.len() ==> pos_lt(#[trigger] out@[i], #[trigger] out@[j]),
                decreases N - col,
            {
                let p = Pos { row: row as u8, col: col as u8 };
                let ghost before = out@;
                if self.is_playable(p) {
                    out.push(p);
                    proof {
                        assert(out@[out.len() - 1] == p);
                        assert forall|rr: int, cc: int|
                            #[trigger] self.playable(rr, cc) && (rr < row || (rr == row && cc < col + 1)) implies out@.contains(
                                Pos { row: rr as u8, col: cc as u8 },
                            ) by {
                            if rr == row && cc == col {
                                assert(out@[out.len() - 1] == Pos { row: rr as u8, col: cc as u8 });
                            } else {
                                assert(before.contains(Pos { row: rr as u8, col: cc as u8 }));
                                let k = choose|k: int| 0 <= k < before.len() && before[k] == Pos { row: rr as u8, col: cc as u8 };
                                assert(out@[k] == before[k]);
                            }
                        }
                    }
                }
                col += 1;
            }
            row += 1;
        }
        out
    }

    /// Line `idx` of `player`: a row for the rows player, a column for the columns player.
    pub fn line(&self, player: Player, idx: usize) -> (r: [Cell; N])
        requires
            N <= MAX_BOARD_SIZE,
            idx < N,
        ensures
            r@ == self.line_view(player, idx as int),
    {
        let mut out = [EMPTY; N];
        let mut j: usize = 0;
        while j < N
            invariant
                N <= MAX_BOARD_SIZE,
                idx < N,
                j <= N,
                out@.len() == N,
                forall|k: int| 0 <= k < j ==> out@[k] == #[trigger] self.line_cell(player, idx as int, k),
            decreases N - j,
        {
            out[j] = if scores_rows(player) {
                self.get(Pos { row: idx as u8, col: j as u8 })
            } else {
                self.get(Pos { row: j as u8, col: idx as u8 })
            };
            j += 1;
        }
        assert(out@ =~= self.line_view(player, idx as int));
        out
    }
}

impl<const N: usize> Default for Board<N> {
    /// An empty board.
    fn default() -> (b: Self)
        ensures
            N <= MAX_BOARD_SIZE ==> forall|r: int, c: int| in_bounds(N as int, r, c) ==> #[trigger] b.cell(r, c) == EMPTY,
            N <= MAX_BOARD_SIZE ==> b@ == Seq::new((N * N) as nat, |k: int| EMPTY),
    {
        let b = Board { cells: [EMPTY; MAX_CELLS] };
        proof {
            if N <= MAX_BOARD_SIZE {
                b.lemma_view_len();
                assert(b@ =~= Seq::new((N * N) as nat, |k: int| EMPTY));
                assert forall|r: int, c: int| in_bounds(N as int, r, c) implies #[trigger] b.cell(r, c) == EMPTY by {
                    lemma_flat_index(N as int, r, c, 0, 0);
                }
            }
        }
        b
    }
}

} // verus!
