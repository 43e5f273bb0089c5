use vstd::prelude::*;

use crate::board::{Board, Pos, MAX_BOARD_SIZE};
use crate::cards::CardValue;
use crate::game::{GameState, Player};

verus! {

/// Number of input channels for an `n`×`n` board: card-value presence planes (`n + 1`), then the
/// current player's hand planes (`n + 1`), then the opponent's hand planes (`n + 1`): `3n + 3`.
pub fn in_channels(n: usize) -> (r: usize)
    requires
        3 * n + 3 <= usize::MAX,
    ensures
        r == 3 * n + 3,
{
    3 * n + 3
}

/// Number of possible actions: `(n + 1)` card values × `n²` positions.
pub fn action_size(n: usize) -> (r: usize)
    requires
        (n + 1) * n * n <= usize::MAX,
    ensures
        r == (n + 1) * n * n,
{
    proof {
        if n > 0 {
            assert(n + 1 <= (n + 1) * n * n) by (nonlinear_arith)
                requires
                    n >= 1,
            ;
            assert((n + 1) * n <= (n + 1) * n * n) by (nonlinear_arith)
                requires
                    n >= 1,
            ;
        }
    }
    (n + 1) * n * n
}

/// The flat policy index of placing `card` at `(row, col)`: `card·n² + r·n + c`, where `(r, c)`
/// is `(row, col)`, or `(col, row)` for player B.
pub open spec fn spec_action_index(card: int, row: int, col: int, n: int, player_b: bool) -> int {
    if player_b {
        card * n * n + col * n + row
    } else {
        card * n * n + row * n + col
    }
}

/// Map `(card_value, row, col)` to a flat policy index: `card·n² + r·n + c`, where `(r, c)` is
/// `(row, col)`, or `(col, row)` from player B's (transposed) perspective.
pub fn action_index(card: u8, row: usize, col: usize, n: usize, player_b: bool) -> (r: usize)
    requires
        card * n * n + row * n + col <= usize::MAX,
        card * n * n + col * n + row <= usize::MAX,
    ensures
        r == if player_b {
            card * n * n + col * n + row
        } else {
            card * n * n + row * n + col
        },
        r == spec_action_index(card as int, row as int, col as int, n as int, player_b),
{
    let (r, c) = if player_b { (col, row) } else { (row, col) };
    proof {
        assert(card * n * n <= card * n * n + r * n + c) by (nonlinear_arith)
            requires
                r >= 0,
                c >= 0,
                n >= 0,
        ;
        assert(card * n <= card * n * n || n == 0) by (nonlinear_arith);
        assert(r * n <= card * n * n + r * n + c) by (nonlinear_arith)
            requires
                card >= 0,
                c >= 0,
                n >= 0,
        ;
    }
    card as usize * n * n + r * n + c
}

/// The value of entry `k` of the input planes of `s`, times `N + 1` (the largest number of copies
/// of a card value), laid out channel-first: plane `k / N²`, cell `(row, col) = ((k mod N²) / N,
/// k mod N)`. The board is read transposed when `B` is to move, so both players see their scoring
/// lines as columns.
/// - planes `0..=N`: `N + 1` where the cell holds that card value, else 0;
/// - planes `N+1..=2N+1`: the mover's count of value `plane - (N + 1)`, on every cell;
/// - planes `2N+2..=3N+2`: the opponent's count of value `plane - (2N + 2)`, on every cell.
pub open spec fn plane_numerator<const N: usize>(s: GameState<N>, k: int) -> int {
    let n2 = (N * N) as int;
    let ch = k / n2;
    let rem = k % n2;
    let row = rem / (N as int);
    let col = rem % (N as int);
    let cell = if s.turn is B {
        s.board.cell(col, row)
    } else {
        s.board.cell(row, col)
    };
    if ch <= N {
        if cell == ch {
            N + 1
        } else {
            0
        }
    } else if ch <= 2 * N + 1 {
        s.hand_of(s.turn)@[ch - (N + 1)] as int
    } else {
        s.hand_of(s.turn.spec_other())@[ch - (2 * N + 2)] as int
    }
}

/// The input planes of `state` ([`plane_numerator`]), each entry `N + 1` times the network's
/// input value: `in_channels(N)·N²` entries.
pub fn plane_numerators<const N: usize>(state: &GameState<N>) -> (r: Vec<u8>)
    requires
        1 <= N <= MAX_BOARD_SIZE,
    ensures
        r@.len() == (3 * N + 3) * N * N,
        forall|k: int| 0 <= k < r@.len() ==> r@[k] == plane_numerator(*state, k),
{
    proof {
        assert(N * N <= 225) by (nonlinear_arith)
            requires
                N <= 15,
        ;
    }
    let n2 = N * N;
    proof {
        assert((3 * N + 3) * (N * N) <= 48 * 225) by (nonlinear_arith)
            requires
                N <= 15,
                N * N <= 225,
        ;
        assert((3 * N + 3) * N * N == (3 * N + 3) * (N * N)) by (nonlinear_arith);
    }
    let total = (3 * N + 3) * n2;
    let mover = state.hands[state.turn.index() as usize];
    let other = state.hands[state.turn.other().index() as usize];
    proof {
        mover.lemma_view_len();
        other.lemma_view_len();
    }
    let mut out: Vec<u8> = Vec::new();
    let mut k: usize = 0;
    while k < total
        invariant
            1 <= N <= MAX_BOARD_SIZE,
            n2 == N * N,
            n2 <= 225,
            total == (3 * N + 3) * n2,
            total == (3 * N + 3) * N * N,
            mover == state.hand_of(state.turn),
            other == state.hand_of(state.turn.spec_other()),
            k <= total,
            out@.len() == k,
            forall|j: int| 0 <= j < k ==> out@[j] == plane_numerator(*state, j),
        decreases total - k,
    {
        let ch = k / n2;
        let rem = k % n2;
        let row = rem / N;
        let col = rem % N;
        proof {
            assert(ch < 3 * N + 3) by (nonlinear_arith)
                requires
                    k < (3 * N + 3) * n2,
                    ch == k / n2,
                    n2 > 0,
            ;
            assert(row < N) by (nonlinear_arith)
                requires
                    rem < N * N,
                    row == rem / N,
                    N > 0,
            ;
        }
        let value: u8 = if ch <= N {
            let pos = if state.turn == Player::B {
                Pos { row: col as u8, col: row as u8 }
            } else {
                Pos { row: row as u8, col: col as u8 }
            };
            let cell = state.board.get(pos);
            if cell as usize == ch {
                (N + 1) as u8
            } else {
                0
            }
        } else if ch <= 2 * N + 1 {
            mover.count(CardValue((ch - (N + 1)) as u8))
        } else {
            other.count(CardValue((ch - (2 * N + 2)) as u8))
        };
        out.push(value);
        proof {
            assert(out@[k as int] == plane_numerator(*state, k as int));
        }
        k += 1;
    }
    out
}

/// Entry `ch·n² + r·n + c` lies in plane `ch` at cell `(r, c)`.
proof fn lemma_plane_index(n: int, ch: int, r: int, c: int)
    requires
        n > 0,
        0 <= r < n,
        0 <= c < n,
        ch >= 0,
    ensures
        (ch * n * n + r * n + c) / (n * n) == ch,
        (ch * n * n + r * n + c) % (n * n) / n == r,
        (ch * n * n + r * n + c) % (n * n) % n == c,
{
    vstd::arithmetic::div_mod::lemma_fundamental_div_mod_converse(r * n + c, n, r, c);
    assert(r * n + c < n * n) by (nonlinear_arith)
        requires
            0 <= r < n,
            0 <= c < n,
    ;
    assert(ch * n * n + r * n + c == ch * (n * n) + (r * n + c)) by (nonlinear_arith);
    vstd::arithmetic::div_mod::lemma_fundamental_div_mod_converse(ch * n * n + r * n + c, n * n, ch, r * n + c);
}

/// The cell of entry `k` of the planes lies on the board.
proof fn lemma_plane_cell_bounds(n: int, k: int)
    requires
        n > 0,
        k >= 0,
    ensures
        0 <= k % (n * n) / n < n,
        0 <= k % (n * n) % n < n,
{
    assert(0 <= k % (n * n) < n * n) by (nonlinear_arith)
        requires
            n > 0,
    ;
    assert(k % (n * n) / n < n) by (nonlinear_arith)
        requires
            n > 0,
            0 <= k % (n * n) < n * n,
    ;
    assert(0 <= k % (n * n) / n) by (nonlinear_arith)
        requires
            n > 0,
            0 <= k % (n * n),
    ;
}

/// The planes and the policy read the board alike: in the planes of the player to move, the entry
/// at the policy index of placing card `v` on `(row, col)` ([`spec_action_index`]) is lit
/// (`N + 1`) exactly when that cell holds `v`. So for B the board is read transposed, as the
/// policy index is.
pub proof fn lemma_placed_card_lit<const N: usize>(s: GameState<N>, row: int, col: int, v: int)
    requires
        1 <= N <= MAX_BOARD_SIZE,
        0 <= row < N,
        0 <= col < N,
        0 <= v <= N,
    ensures
        plane_numerator(s, spec_action_index(v, row, col, N as int, s.turn is B)) == if s.board.cell(row, col) == v {
            N + 1
        } else {
            0
        },
{
    if s.turn is B {
        lemma_plane_index(N as int, v, col, row);
    } else {
        lemma_plane_index(N as int, v, row, col);
    }
}

/// Board `b` is board `a` mirrored along its diagonal.
pub open spec fn transposed<const N: usize>(a: Board<N>, b: Board<N>) -> bool {
    forall|i: int, j: int| 0 <= i < N && 0 <= j < N ==> #[trigger] b.cell(i, j) == a.cell(j, i)
}

/// A position and its mirror image, with the other player to move holding the same hands, give
/// the same planes: each player sees the board as the first player does, their own scoring lines
/// as columns.
pub proof fn lemma_planes_mirror<const N: usize>(s: GameState<N>, t: GameState<N>)
    requires
        1 <= N <= MAX_BOARD_SIZE,
        transposed(s.board, t.board),
        t.turn == s.turn.spec_other(),
        t.hand_of(t.turn) == s.hand_of(s.turn),
        t.hand_of(t.turn.spec_other()) == s.hand_of(s.turn.spec_other()),
    ensures
        forall|k: int| 0 <= k < (3 * N + 3) * N * N ==> #[trigger] plane_numerator(s, k) == plane_numerator(t, k),
{
    assert forall|k: int| 0 <= k < (3 * N + 3) * N * N implies #[trigger] plane_numerator(s, k) == plane_numerator(t, k) by {
        lemma_plane_cell_bounds(N as int, k);
        let rem = k % (N * N) as int;
        let row = rem / (N as int);
        let col = rem % (N as int);
        assert(t.board.cell(row, col) == s.board.cell(col, row));
        assert(t.board.cell(col, row) == s.board.cell(row, col));
    }
}

} // verus!
