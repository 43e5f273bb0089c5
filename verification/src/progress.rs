use vstd::prelude::*;

use crate::board::{in_bounds, Board, Pos, EMPTY, MAX_BOARD_SIZE};
use crate::cards::{seq_sum, CardValue};
use crate::game::{hand_size, spec_cards_per_player, GameState, Move, Player};

verus! {

broadcast use {vstd::seq_lib::group_to_multiset_ensures, vstd::multiset::group_multiset_axioms};

/// Number of empty cells of a board.
pub open spec fn empty_cells<const N: usize>(b: Board<N>) -> nat {
    b@.to_multiset().count(EMPTY)
}

/// The cards in hand match the empty cells, in turn: the two hands together fill exactly the
/// empty cells, the player to move holds as many cards as the other (`A` to move) or one more
/// (`B` to move), and some cell is occupied.
pub open spec fn balanced<const N: usize>(g: GameState<N>) -> bool {
    &&& empty_cells(g.board) == hand_size(g.hands@[0]) + hand_size(g.hands@[1])
    &&& if g.turn is A {
        hand_size(g.hands@[0]) == hand_size(g.hands@[1])
    } else {
        hand_size(g.hands@[1]) == hand_size(g.hands@[0]) + 1
    }
    &&& exists|r: int, c: int| #[trigger] g.board.occupied(r, c)
}

/// Along a run of positions `a..=b`, a predicate that differs at the two ends changes between
/// some two neighbours.
pub proof fn lemma_change_between(f: spec_fn(int) -> bool, a: int, b: int)
    requires
        a < b,
        f(a) != f(b),
    ensures
        exists|i: int| a <= i < b && #[trigger] f(i) != f(i + 1),
    decreases b - a,
{
    if f(a) != f(a + 1) {
        assert(f(a) != f(a + 1));
    } else {
        lemma_change_between(f, a + 1, b);
        let i = choose|i: int| a + 1 <= i < b && #[trigger] f(i) != f(i + 1);
        assert(f(i) != f(i + 1));
    }
}

/// Along a line of cells, an occupied cell and an empty one have a playable cell between them.
proof fn lemma_playable_along(f: spec_fn(int) -> bool, a: int, b: int) -> (i: int)
    requires
        a != b,
        f(a) != f(b),
    ensures
        (a < b ==> a <= i < b) && (b < a ==> b <= i < a),
        f(i) != f(i + 1),
{
    if a < b {
        lemma_change_between(f, a, b);
        choose|i: int| a <= i < b && #[trigger] f(i) != f(i + 1)
    } else {
        lemma_change_between(f, b, a);
        choose|i: int| b <= i < a && #[trigger] f(i) != f(i + 1)
    }
}

/// A board with an occupied cell and an empty cell has a playable cell.
pub proof fn lemma_frontier<const N: usize>(b: Board<N>, r0: int, c0: int, r1: int, c1: int) -> (p: (int, int))
    requires
        N <= MAX_BOARD_SIZE,
        b.occupied(r0, c0),
        in_bounds(N as int, r1, c1),
        b.cell(r1, c1) == EMPTY,
    ensures
        b.playable(p.0, p.1),
{
    if r0 == r1 {
        let f = |c: int| b.occupied(r0, c);
        let i = lemma_playable_along(f, c0, c1);
        if f(i) {
            (r0, i + 1)
        } else {
            (r0, i)
        }
    } else if b.occupied(r0, c1) {
        let f = |r: int| b.occupied(r, c1);
        let i = lemma_playable_along(f, r0, r1);
        if f(i) {
            (i + 1, c1)
        } else {
            (i, c1)
        }
    } else {
        let f = |c: int| b.occupied(r0, c);
        let i = lemma_playable_along(f, c0, c1);
        if f(i) {
            (r0, i + 1)
        } else {
            (r0, i)
        }
    }
}

/// A sequence of counts with a positive sum has a positive entry.
pub proof fn lemma_positive_entry(s: Seq<u8>) -> (v: int)
    requires
        seq_sum(s) > 0,
    ensures
        0 <= v < s.len(),
        s[v] > 0,
    decreases s.len(),
{
    if s.last() > 0 {
        (s.len() - 1) as int
    } else {
        lemma_positive_entry(s.drop_last())
    }
}

/// A well-formed balanced game whose board is not full has a legal move.
pub proof fn lemma_balanced_has_move<const N: usize>(g: GameState<N>)
    requires
        g.wf(),
        balanced(g),
        !g.board.full(),
    ensures
        g.has_legal_move(),
{
    let (r1, c1) = choose|r: int, c: int| in_bounds(N as int, r, c) && #[trigger] g.board.cell(r, c) != EMPTY
        == false;
    assert(in_bounds(N as int, r1, c1) && g.board.cell(r1, c1) == EMPTY);
    let (r0, c0) = choose|r: int, c: int| #[trigger] g.board.occupied(r, c);
    let p = lemma_frontier(g.board, r0, c0, r1, c1);
    g.board.lemma_view_len();
    crate::board::lemma_flat_index(N as int, r1, c1, 0, 0);
    assert(g.board@[r1 * N + c1] == EMPTY);
    assert(g.board@.contains(EMPTY));
    assert(empty_cells(g.board) > 0);
    let h = g.hand_of(g.turn);
    assert(seq_sum(h@) > 0);
    let v = lemma_positive_entry(h@);
    h.lemma_view_len();
    let m = Move { pos: Pos { row: p.0 as u8, col: p.1 as u8 }, card: CardValue(v as u8) };
    assert(g.is_legal(m));
}

/// Playing a legal move fills one empty cell.
pub proof fn lemma_play_fills_cell<const N: usize>(g: GameState<N>, m: Move)
    requires
        g.wf(),
        g.is_legal(m),
    ensures
        empty_cells(g.after(m).board) + 1 == empty_cells(g.board),
        g.after(m).board.occupied(m.pos.row as int, m.pos.col as int),
{
    let i = m.pos.row * N + m.pos.col;
    g.board.lemma_view_len();
    crate::board::lemma_flat_index(N as int, m.pos.row as int, m.pos.col as int, 0, 0);
    g.board.lemma_with_cell(m.pos.row as int, m.pos.col as int, m.card.0);
    assert(g.board@[i] == EMPTY);
    vstd::seq_lib::to_multiset_update(g.board@, i, m.card.0);
    assert(m.card.0 != EMPTY);
}

/// Playing a legal move keeps a state balanced: one empty cell is filled with one card from
/// the mover's hand, and the turn passes.
pub proof fn lemma_play_keeps_balanced<const N: usize>(g: GameState<N>, m: Move)
    requires
        g.wf(),
        balanced(g),
        g.is_legal(m),
    ensures
        balanced(g.after(m)),
        empty_cells(g.after(m).board) + 1 == empty_cells(g.board),
{
    let next = g.after(m);
    lemma_play_fills_cell(g, m);
    let h = g.hand_of(g.turn);
    h.lemma_view_len();
    h.lemma_with_count(m.card.0 as int, (h@[m.card.0 as int] - 1) as u8);
    crate::cards::lemma_seq_sum_update(h@, m.card.0 as int, (h@[m.card.0 as int] - 1) as u8);
    if g.turn is A {
        assert(hand_size(next.hands@[0]) + 1 == hand_size(g.hands@[0]));
        assert(next.hands@[1] == g.hands@[1]);
    } else {
        assert(hand_size(next.hands@[1]) + 1 == hand_size(g.hands@[1]));
        assert(next.hands@[0] == g.hands@[0]);
    }
}

/// A sequence that holds `x` everywhere but at index `i` holds it `len - 1` times.
pub proof fn lemma_count_all_but_one<A>(s: Seq<A>, i: int, x: A)
    requires
        0 <= i < s.len(),
        s[i] != x,
        forall|k: int| 0 <= k < s.len() && k != i ==> s[k] == x,
    ensures
        s.to_multiset().count(x) == s.len() - 1,
    decreases s.len(),
{
    let p = s.drop_last();
    assert(s =~= p.push(s.last()));
    vstd::seq_lib::to_multiset_build(p, s.last());
    if i == s.len() - 1 {
        lemma_count_constant(p, x);
    } else {
        lemma_count_all_but_one(p, i, x);
    }
}

/// A sequence that holds `x` everywhere holds it `len` times.
pub proof fn lemma_count_constant<A>(s: Seq<A>, x: A)
    requires
        forall|k: int| 0 <= k < s.len() ==> s[k] == x,
    ensures
        s.to_multiset().count(x) == s.len(),
    decreases s.len(),
{
    if s.len() > 0 {
        let p = s.drop_last();
        assert(s =~= p.push(s.last()));
        vstd::seq_lib::to_multiset_build(p, s.last());
        lemma_count_constant(p, x);
    }
}

/// A fresh game of odd size, where each player holds `(N² - 1) / 2` cards and only the centre is
/// occupied, is balanced with `N² - 1` empty cells.
pub proof fn lemma_start_balanced<const N: usize>(g: GameState<N>)
    requires
        1 <= N <= MAX_BOARD_SIZE,
        N % 2 == 1,
        g.turn == Player::A,
        forall|r: int, c: int|
            0 <= r < N && 0 <= c < N ==> (#[trigger] g.board.cell(r, c) != EMPTY <==> (r == N / 2 && c == N / 2)),
        hand_size(g.hands@[0]) == spec_cards_per_player(N as int),
        hand_size(g.hands@[1]) == spec_cards_per_player(N as int),
    ensures
        balanced(g),
        empty_cells(g.board) == N * N - 1,
{
    g.board.lemma_view_len();
    let ci = (N / 2) * N + N / 2;
    crate::board::lemma_flat_index(N as int, N as int / 2, N as int / 2, 0, 0);
    assert forall|k: int| 0 <= k < g.board@.len() && k != ci implies g.board@[k] == EMPTY by {
        let r = k / N as int;
        let c = k % N as int;
        vstd::arithmetic::div_mod::lemma_fundamental_div_mod(k, N as int);
        assert(0 <= r < N) by {
            vstd::arithmetic::div_mod::lemma_div_pos_is_pos(k, N as int);
            vstd::arithmetic::div_mod::lemma_div_by_multiple_is_strongly_ordered(k, N * N, N as int, N as int);
            vstd::arithmetic::div_mod::lemma_div_by_multiple(N as int, N as int);
        }
        assert(g.board.cell(r, c) == g.board@[k]) by {
            assert(r * N + c == k) by (nonlinear_arith)
                requires
                    k == N * (k / N as int) + k % N as int,
                    r == k / N as int,
                    c == k % N as int,
            ;
        }
        if r == N / 2 && c == N / 2 {
            assert(k == ci);
        }
    }
    assert(g.board.cell(N as int / 2, N as int / 2) != EMPTY);
    lemma_count_all_but_one(g.board@, ci, EMPTY);
    assert(g.board.occupied(N as int / 2, N as int / 2));
    assert(2 * spec_cards_per_player(N as int) == N * N - 1) by {
        assert(N == 1 || N == 3 || N == 5 || N == 7 || N == 9 || N == 11 || N == 13 || N == 15);
    }
}

/// A board whose every cell is occupied has no empty cell.
pub proof fn lemma_full_no_empty<const N: usize>(b: Board<N>)
    requires
        N <= MAX_BOARD_SIZE,
        b.full(),
    ensures
        empty_cells(b) == 0,
{
    b.lemma_view_len();
    if empty_cells(b) > 0 {
        assert(b@.contains(EMPTY));
        let k = choose|k: int| 0 <= k < b@.len() && b@[k] == EMPTY;
        let r = k / N as int;
        let c = k % N as int;
        lemma_cell_of_index(N as int, k);
        assert(b.cell(r, c) == EMPTY);
    }
}

/// A board with an empty cell has at least one empty cell counted.
pub proof fn lemma_not_full_has_empty<const N: usize>(b: Board<N>)
    requires
        N <= MAX_BOARD_SIZE,
        !b.full(),
    ensures
        empty_cells(b) >= 1,
{
    let (r, c) = choose|r: int, c: int| in_bounds(N as int, r, c) && #[trigger] b.cell(r, c) != EMPTY == false;
    b.lemma_view_len();
    crate::board::lemma_flat_index(N as int, r, c, 0, 0);
    assert(b@[r * N + c] == EMPTY);
    assert(b@.contains(EMPTY));
}

/// A board with an occupied cell has at most `N² - 1` empty cells.
pub proof fn lemma_some_occupied_bounds_empty<const N: usize>(b: Board<N>)
    requires
        N <= MAX_BOARD_SIZE,
        exists|r: int, c: int| #[trigger] b.occupied(r, c),
    ensures
        empty_cells(b) <= N * N - 1,
{
    let (r, c) = choose|r: int, c: int| #[trigger] b.occupied(r, c);
    b.lemma_view_len();
    crate::board::lemma_flat_index(N as int, r, c, 0, 0);
    lemma_count_le_len_minus_one(b@, r * N + c, EMPTY);
}

/// A sequence with an element other than `x` holds `x` at most `len - 1` times.
pub proof fn lemma_count_le_len_minus_one<A>(s: Seq<A>, i: int, x: A)
    requires
        0 <= i < s.len(),
        s[i] != x,
    ensures
        s.to_multiset().count(x) <= s.len() - 1,
    decreases s.len(),
{
    let p = s.drop_last();
    assert(s =~= p.push(s.last()));
    vstd::seq_lib::to_multiset_build(p, s.last());
    if i == s.len() - 1 {
        lemma_count_le_len(p, x);
    } else {
        lemma_count_le_len_minus_one(p, i, x);
    }
}

/// No element occurs more often than the sequence is long.
pub proof fn lemma_count_le_len<A>(s: Seq<A>, x: A)
    ensures
        s.to_multiset().count(x) <= s.len(),
    decreases s.len(),
{
    if s.len() > 0 {
        let p = s.drop_last();
        assert(s =~= p.push(s.last()));
        vstd::seq_lib::to_multiset_build(p, s.last());
        lemma_count_le_len(p, x);
    }
}

/// Index `k` of an `n`×`n` board is the cell at row `k / n`, column `k % n`.
pub proof fn lemma_cell_of_index(n: int, k: int)
    requires
        1 <= n,
        0 <= k < n * n,
    ensures
        in_bounds(n, k / n, k % n),
        (k / n) * n + k % n == k,
{
    vstd::arithmetic::div_mod::lemma_fundamental_div_mod(k, n);
    vstd::arithmetic::div_mod::lemma_div_pos_is_pos(k, n);
    vstd::arithmetic::div_mod::lemma_div_by_multiple_is_strongly_ordered(k, n * n, n, n);
    vstd::arithmetic::div_mod::lemma_div_by_multiple(n, n);
    assert((k / n) * n + k % n == k) by (nonlinear_arith)
        requires
            k == n * (k / n) + k % n,
    ;
}

/// The state reached from `g` by playing `moves` in order.
pub open spec fn replay<const N: usize>(g: GameState<N>, moves: Seq<Move>) -> GameState<N>
    decreases moves.len(),
{
    if moves.len() == 0 {
        g
    } else {
        replay(g, moves.drop_last()).after(moves.last())
    }
}

/// Every move of `moves` is legal in the state reached by the moves before it.
pub open spec fn legal_run<const N: usize>(g: GameState<N>, moves: Seq<Move>) -> bool {
    forall|k: int| 0 <= k < moves.len() ==> #[trigger] replay(g, moves.take(k)).is_legal(moves[k])
}

/// Extending a legal run by a move that is legal at its end gives a legal run.
pub proof fn lemma_legal_run_push<const N: usize>(g: GameState<N>, moves: Seq<Move>, m: Move)
    requires
        legal_run(g, moves),
        replay(g, moves).is_legal(m),
    ensures
        legal_run(g, moves.push(m)),
        replay(g, moves.push(m)) == replay(g, moves).after(m),
{
    let ext = moves.push(m);
    assert(ext.drop_last() =~= moves);
    assert forall|k: int| 0 <= k < ext.len() implies #[trigger] replay(g, ext.take(k)).is_legal(ext[k]) by {
        if k < moves.len() {
            assert(ext.take(k) =~= moves.take(k));
            assert(replay(g, moves.take(k)).is_legal(moves[k]));
        } else {
            assert(ext.take(k) =~= moves);
        }
    }
}

} // verus!
