use vstd::prelude::*;

verus! {

/// One of the two players. `A` scores columns, `B` scores rows; `A` moves first.
#[derive(Clone, Copy, Debug, PartialEq, Eq, Structural)]
pub enum Player {
    A,
    B,
}

impl Player {
    /// `0` for `A`, `1` for `B`.
    pub fn index(self) -> (r: u8)
        ensures
            r == (if self is A { 0u8 } else { 1u8 }),
    {
        match self {
            Player::A => 0,
            Player::B => 1,
        }
    }

    /// The opponent.
    pub open spec fn spec_other(self) -> Player {
        if self is A { Player::B } else { Player::A }
    }

    /// The opponent.
    #[verifier::when_used_as_spec(spec_other)]
    pub fn other(self) -> (r: Player)
        ensures
            r == self.spec_other(),
    {
        match self {
            Player::A => Player::B,
            Player::B => Player::A,
        }
    }
}

/// Player `A` scores columns, player `B` scores rows.
pub open spec fn spec_scores_rows(p: Player) -> bool {
    p is B
}

/// Player `A` scores columns, player `B` scores rows.
#[verifier::when_used_as_spec(spec_scores_rows)]
pub fn scores_rows(p: Player) -> (r: bool)
    ensures
        r == spec_scores_rows(p),
{
    match p {
        Player::A => false,
        Player::B => true,
    }
}

} // verus!

use crate::board::{pos_lt, Board, Pos, EMPTY, MAX_BOARD_SIZE};
use crate::cards::{deal, full_deck_count, lemma_count_split, new_deck, seq_sum, CardValue, Hand};
use crate::scoring::{board_countable, cells_countable, is_weakest_line, victoire};

verus! {

broadcast use vstd::array::group_array_axioms;

/// Game parameters.
#[derive(Clone, Copy, Debug, PartialEq, Eq, Structural)]
pub struct GameConfig {
    pub size: u8,
    pub max_card: u8,
    pub nb_c: u8,
}

impl Default for GameConfig {
    /// The standard 5×5 game: cards 0–5, 6 copies each.
    fn default() -> (r: Self)
        ensures
            r == (GameConfig { size: 5, max_card: 5, nb_c: 6 }),
    {
        GameConfig { size: 5, max_card: 5, nb_c: 6 }
    }
}

/// Number of cards each player receives on a board of side `size`: `(size² - 1) / 2`, kept to a `u8`.
pub open spec fn spec_cards_per_player(size: int) -> int {
    ((size * size - 1) / 2) % 256
}

impl GameConfig {
    /// Number of cards each player receives: `(size² - 1) / 2` (truncated to a `u8`).
    pub fn cards_per_player(self) -> (r: u8)
        requires
            self.size >= 1,
        ensures
            r == spec_cards_per_player(self.size as int),
    {
        let n = self.size as u16;
        proof {
            assert(1 <= n * n <= 65025) by (nonlinear_arith)
                requires
                    1 <= n <= 255,
            ;
        }
        (((n * n - 1) / 2) % 256) as u8
    }
}

/// A move: put `card` at `pos`.
#[derive(Clone, Copy, Debug, PartialEq, Eq, Structural)]
pub struct Move {
    pub pos: Pos,
    pub card: CardValue,
}

/// Order on moves: by position (row-major), then by card value.
pub open spec fn move_lt(a: Move, b: Move) -> bool {
    pos_lt(a.pos, b.pos) || (a.pos == b.pos && a.card.0 < b.card.0)
}

/// `s` lists moves in strictly increasing [`move_lt`] order.
pub open spec fn moves_increasing(s: Seq<Move>) -> bool {
    forall|i: int, j: int| 0 <= i < j < s.len() ==> move_lt(#[trigger] s[i], #[trigger] s[j])
}

/// [`move_lt`] is a strict total order.
proof fn lemma_move_lt_order(a: Move, b: Move, c: Move)
    ensures
        !move_lt(a, a),
        move_lt(a, b) && move_lt(b, c) ==> move_lt(a, c),
        a != b ==> move_lt(a, b) || move_lt(b, a),
{
}

/// Two sequences listing the same moves, each in strictly increasing [`move_lt`] order, are
/// equal: so the moves of a state, listed in that order, are one sequence.
pub proof fn lemma_increasing_moves_unique(a: Seq<Move>, b: Seq<Move>)
    requires
        moves_increasing(a),
        moves_increasing(b),
        forall|m: Move| a.contains(m) <==> b.contains(m),
    ensures
        a == b,
    decreases a.len() + b.len(),
{
    if a.len() == 0 || b.len() == 0 {
        if a.len() > 0 {
            assert(b.contains(a[0]));
        }
        if b.len() > 0 {
            assert(a.contains(b[0]));
        }
        assert(a =~= b);
    } else {
        assert(b.contains(a[0]));
        assert(a.contains(b[0]));
        let j = choose|j: int| 0 <= j < b.len() && b[j] == a[0];
        let k = choose|k: int| 0 <= k < a.len() && a[k] == b[0];
        if a[0] != b[0] {
            lemma_move_lt_order(a[0], b[0], a[0]);
            if j > 0 {
                assert(move_lt(b[0], b[j]));
            }
            if k > 0 {
                assert(move_lt(a[0], a[k]));
            }
            assert(false);
        }
        let ta = a.drop_first();
        let tb = b.drop_first();
        assert forall|m: Move| ta.contains(m) <==> tb.contains(m) by {
            if ta.contains(m) {
                let i = choose|i: int| 0 <= i < ta.len() && ta[i] == m;
                assert(move_lt(a[0], a[i + 1]));
                lemma_move_lt_order(m, m, m);
                assert(b.contains(m));
                let i2 = choose|i2: int| 0 <= i2 < b.len() && b[i2] == m;
                assert(i2 != 0);
                assert(tb[i2 - 1] == m);
            }
            if tb.contains(m) {
                let i = choose|i: int| 0 <= i < tb.len() && tb[i] == m;
                assert(move_lt(b[0], b[i + 1]));
                lemma_move_lt_order(m, m, m);
                assert(a.contains(m));
                let i2 = choose|i2: int| 0 <= i2 < a.len() && a[i2] == m;
                assert(i2 != 0);
                assert(ta[i2 - 1] == m);
            }
        }
        assert(moves_increasing(ta)) by {
            assert forall|i: int, j2: int| 0 <= i < j2 < ta.len() implies move_lt(#[trigger] ta[i], #[trigger] ta[j2]) by {
                assert(move_lt(a[i + 1], a[j2 + 1]));
            }
        }
        assert(moves_increasing(tb)) by {
            assert forall|i: int, j2: int| 0 <= i < j2 < tb.len() implies move_lt(#[trigger] tb[i], #[trigger] tb[j2]) by {
                assert(move_lt(b[i + 1], b[j2 + 1]));
            }
        }
        lemma_increasing_moves_unique(ta, tb);
        assert(a =~= seq![a[0]] + ta);
        assert(b =~= seq![b[0]] + tb);
    }
}

/// The game is over: no move can be asked about or played.
#[derive(Clone, Copy, Debug, PartialEq, Eq, Structural)]
pub struct BoardDone;

/// Why a move was refused.
#[derive(Clone, Copy, Debug, PartialEq, Eq, Structural)]
pub enum PlayError {
    /// The board is full.
    BoardDone,
    /// The move is not legal in this state.
    UnavailableMove,
}

/// Result of a finished game.
#[derive(Clone, Copy, Debug, PartialEq, Eq, Structural)]
pub enum Outcome {
    WonBy(Player),
    Draw,
}

/// The score of `player`'s weakest line.
pub open spec fn weakest_score<const N: usize>(board: Board<N>, player: Player) -> int {
    (choose|s: int, i: int| #[trigger] is_weakest_line(board, player, s, i)).0
}

/// Two weakest-line descriptions of one player agree on the score.
pub proof fn lemma_weakest_unique<const N: usize>(board: Board<N>, player: Player, s: int, i: int)
    requires
        is_weakest_line(board, player, s, i),
    ensures
        weakest_score(board, player) == s,
{
    assert(exists|s1: int, j: int| #[trigger] is_weakest_line(board, player, s1, j));
    let (s2, j) = choose|s1: int, j: int| #[trigger] is_weakest_line(board, player, s1, j);
    assert(s <= crate::scoring::line_score(board, player, j));
    assert(s2 <= crate::scoring::line_score(board, player, i));
}

/// Outcome of a full board with the given weakest-line scores: higher score wins.
pub open spec fn decide(s0: int, s1: int) -> Outcome {
    if s0 > s1 {
        Outcome::WonBy(Player::A)
    } else if s0 < s1 {
        Outcome::WonBy(Player::B)
    } else {
        Outcome::Draw
    }
}

/// Full game state.
#[derive(Clone, Copy, Debug, PartialEq, Eq)]
pub struct GameState<const N: usize> {
    pub board: Board<N>,
    pub hands: [Hand<N>; 2],
    pub turn: Player,
    pub config: GameConfig,
}

impl<const N: usize> GameState<N> {
    /// The hand of `p`.
    pub open spec fn hand_of(self, p: Player) -> Hand<N> {
        if p is A {
            self.hands@[0]
        } else {
            self.hands@[1]
        }
    }

    /// `m` can be played now: its cell is playable and the player to move holds its card.
    pub open spec fn is_legal(self, m: Move) -> bool {
        &&& self.board.playable(m.pos.row as int, m.pos.col as int)
        &&& m.card.0 <= N
        &&& self.hand_of(self.turn)@[m.card.0 as int] > 0
    }

    /// Some move is legal.
    pub open spec fn has_legal_move(self) -> bool {
        exists|m: Move| #[trigger] self.is_legal(m)
    }

    /// Number of copies of card value `v` on the board.
    pub open spec fn on_board(self, v: int) -> nat {
        self.board@.to_multiset().count(v as u8)
    }

    /// Well-formed state: supported size, every card on the board is a value `0..=N`, and no value
    /// appears (board and both hands together) more often than the `N + 1` copies of the deck.
    pub open spec fn wf(self) -> bool {
        &&& 1 <= N <= MAX_BOARD_SIZE
        &&& forall|r: int, c: int|
            0 <= r < N && 0 <= c < N ==> #[trigger] self.board.cell(r, c) == EMPTY || self.board.cell(r, c) <= N
        &&& forall|v: int|
            0 <= v <= N ==> #[trigger] self.on_board(v) + self.hands@[0]@[v] + self.hands@[1]@[v] <= N + 1
    }

    /// `next` is this state after `m` was played.
    pub open spec fn played(self, m: Move, next: Self) -> bool {
        &&& next.board@ == self.board@.update(m.pos.row * N + m.pos.col, m.card.0)
        &&& forall|r: int, c: int|
            0 <= r < N && 0 <= c < N ==> #[trigger] next.board.cell(r, c) == if r == m.pos.row && c
                == m.pos.col {
                m.card.0
            } else {
                self.board.cell(r, c)
            }
        &&& next.hand_of(self.turn)@ == self.hand_of(self.turn)@.update(
            m.card.0 as int,
            (self.hand_of(self.turn)@[m.card.0 as int] - 1) as u8,
        )
        &&& next.hand_of(self.turn.other()) == self.hand_of(self.turn.other())
        &&& next.turn == self.turn.other()
        &&& next.config == self.config
    }

    /// This state after the player to move plays `m`: the card leaves their hand for the board and
    /// the turn passes.
    pub open spec fn after(self, m: Move) -> Self {
        let h = self.hand_of(self.turn);
        let h2 = h.with_count(m.card.0 as int, (h@[m.card.0 as int] - 1) as u8);
        GameState {
            board: self.board.with_cell(m.pos.row as int, m.pos.col as int, m.card.0),
            hands: if self.turn is A {
                [h2, self.hands@[1]]
            } else {
                [self.hands@[0], h2]
            },
            turn: self.turn.other(),
            config: self.config,
        }
    }

    /// The outcome: none while the board has an empty cell; otherwise the higher weakest line wins.
    pub open spec fn spec_outcome(self) -> Option<Outcome> {
        if !self.board.full() {
            None
        } else {
            Some(decide(weakest_score(self.board, Player::A), weakest_score(self.board, Player::B)))
        }
    }

    /// The player to move.
    pub fn next_player(&self) -> (r: Player)
        ensures
            r == self.turn,
    {
        self.turn
    }

    /// The hand of the player to move.
    fn mover_hand(&self) -> (h: Hand<N>)
        ensures
            h == self.hand_of(self.turn),
    {
        match self.turn {
            Player::A => self.hands[0],
            Player::B => self.hands[1],
        }
    }

    /// Every legal move, ordered by position (row-major) then card value.
    pub fn valid_moves(&self) -> (r: Vec<Move>)
        requires
            N <= MAX_BOARD_SIZE,
        ensures
            forall|i: int| 0 <= i < r.len() ==> self.is_legal(#[trigger] r@[i]),
            forall|m: Move| #[trigger] self.is_legal(m) ==> r@.contains(m),
            forall|i: int, j: int| 0 <= i < j < r.len() ==> move_lt(#[trigger] r@[i], #[trigger] r@[j]),
    {
        let hand = self.mover_hand();
        let placements = self.board.valid_placements();
        let cards = hand.iter_playable();
        let mut out: Vec<Move> = Vec::new();
        let mut i: usize = 0;
        while i < placements.len()
            invariant
                N <= MAX_BOARD_SIZE,
                hand == self.hand_of(self.turn),
                i <= placements.len(),
                forall|k: int| 0 <= k < placements.len() ==> self.board.playable(#[trigger] placements@[k].row as int, placements@[k].col as int),
                forall|row: int, col: int|
                    #[trigger] self.board.playable(row, col) ==> placements@.contains(Pos { row: row as u8, col: col as u8 }),
                forall|a: int, b: int| 0 <= a < b < placements.len() ==> pos_lt(#[trigger] placements@[a], #[trigger] placements@[b]),
                forall|k: int| 0 <= k < cards.len() ==> hand.holds(#[trigger] cards@[k].0 as int),
                forall|v: int| #[trigger] hand.holds(v) ==> cards@.contains(CardValue(v as u8)),
                forall|a: int, b: int| 0 <= a < b < cards.len() ==> (#[trigger] cards@[a]).0 < (#[trigger] cards@[b]).0,
                forall|k: int| 0 <= k < out.len() ==> self.is_legal(#[trigger] out@[k]),
                forall|k: int| 0 <= k < out.len() ==> exists|a: int| 0 <= a < i && (#[trigger] out@[k]).pos == placements@[a],
                forall|m: Move|
                    #[trigger] self.is_legal(m) && (exists|a: int| 0 <= a < i && m.pos == placements@[a]) ==> out@.contains(m),
                forall|a: int, b: int| 0 <= a < b < out.len() ==> move_lt(#[trigger] out@[a], #[trigger] out@[b]),
            decreases placements.len() - i,
        {
            let pos = placements[i];
            let mut j: usize = 0;
            while j < cards.len()
                invariant
                    N <= MAX_BOARD_SIZE,
                    hand == self.hand_of(self.turn),
                    i < placements.len(),
                    pos == placements@[i as int],
                    j <= cards.len(),
                    forall|k: int| 0 <= k < placements.len() ==> self.board.playable(#[trigger] placements@[k].row as int, placements@[k].col as int),
                    forall|a: int, b: int| 0 <= a < b < placements.len() ==> pos_lt(#[trigger] placements@[a], #[trigger] placements@[b]),
                    forall|k: int| 0 <= k < cards.len() ==> hand.holds(#[trigger] cards@[k].0 as int),
                    forall|v: int| #[trigger] hand.holds(v) ==> cards@.contains(CardValue(v as u8)),
                    forall|a: int, b: int| 0 <= a < b < cards.len() ==> (#[trigger] cards@[a]).0 < (#[trigger] cards@[b]).0,
                    forall|k: int| 0 <= k < out.len() ==> self.is_legal(#[trigger] out@[k]),
                    forall|k: int|
                        0 <= k < out.len() ==> (exists|a: int| 0 <= a < i && (#[trigger] out@[k]).pos == placements@[a])
                            || (out@[k].pos == pos && exists|b: int| 0 <= b < j && out@[k].card == cards@[b]),
                    forall|m: Move|
                        #[trigger] self.is_legal(m) && ((exists|a: int| 0 <= a < i && m.pos == placements@[a]) || (m.pos
                            == pos && exists|b: int| 0 <= b < j && m.card == cards@[b])) ==> out@.contains(m),
                    forall|a: int, b: int| 0 <= a < b < out.len() ==> move_lt(#[trigger] out@[a], #[trigger] out@[b]),
                decreases cards.len() - j,
            {
                let m = Move { pos, card: cards[j] };
                let ghost before = out@;
                proof {
                    assert forall|k: int| 0 <= k < out.len() implies move_lt(#[trigger] out@[k], m) by {
                        if exists|a: int| 0 <= a < i && out@[k].pos == placements@[a] {
                            let a = choose|a: int| 0 <= a < i && out@[k].pos == placements@[a];
                            assert(pos_lt(placements@[a], placements@[i as int]));
                        } else {
                            let b = choose|b: int| 0 <= b < j && out@[k].card == cards@[b];
                            assert(cards@[b].0 < cards@[j as int].0);
                        }
                    }
                }
                out.push(m);
                proof {
                    assert(out@[out.len() - 1] == m);
                    assert forall|mm: Move|
                        #[trigger] self.is_legal(mm) && ((exists|a: int| 0 <= a < i && mm.pos == placements@[a]) || (mm.pos
                            == pos && exists|b: int| 0 <= b < j + 1 && mm.card == cards@[b])) implies out@.contains(mm) by {
                        if mm == m {
                        } else {
                            if mm.pos == pos && (exists|b: int| 0 <= b < j + 1 && mm.card == cards@[b]) {
                                let b = choose|b: int| 0 <= b < j + 1 && mm.card == cards@[b];
                                if b == j {
                                    assert(mm == m);
                                }
                            }
                            assert(before.contains(mm));
                            let k = choose|k: int| 0 <= k < before.len() && before[k] == mm;
                            assert(out@[k] == before[k]);
                        }
                    }
                    assert forall|k: int|
                        0 <= k < out.len() implies (exists|a: int| 0 <= a < i && (#[trigger] out@[k]).pos == placements@[a])
                            || (out@[k].pos == pos && exists|b: int| 0 <= b < j + 1 && out@[k].card == cards@[b]) by {
                        if k == out.len() - 1 {
                            assert(out@[k].card == cards@[j as int]);
                        } else {
                            assert(out@[k] == before[k]);
                        }
                    }
                }
                j += 1;
            }
            proof {
                assert forall|m: Move|
                    #[trigger] self.is_legal(m) && (exists|a: int| 0 <= a < i + 1 && m.pos == placements@[a]) implies out@.contains(m) by {
                    if m.pos == pos {
                        assert(hand.holds(m.card.0 as int));
                        assert(cards@.contains(CardValue(m.card.0 as u8)));
                        let b = choose|b: int| 0 <= b < cards.len() && cards@[b] == CardValue(m.card.0 as u8);
                        assert(m.card == cards@[b]);
                    }
                }
            }
            i += 1;
        }
        proof {
            assert forall|m: Move| #[trigger] self.is_legal(m) implies out@.contains(m) by {
                assert(placements@.contains(Pos { row: m.pos.row as u8, col: m.pos.col as u8 }));
                let a = choose|a: int| 0 <= a < placements.len() && placements@[a] == Pos { row: m.pos.row as u8, col: m.pos.col as u8 };
                assert(m.pos == placements@[a]);
            }
        }
        out
    }
}


impl<const N: usize> GameState<N> {
    /// Whether `mv` can be played now; `Err(BoardDone)` once the board is full.
    pub fn is_available_move(&self, mv: Move) -> (r: Result<bool, BoardDone>)
        requires
            N <= MAX_BOARD_SIZE,
            self.board.playable(mv.pos.row as int, mv.pos.col as int) ==> mv.card.0 <= N,
        ensures
            r == if self.board.full() {
                Err(BoardDone)
            } else {
                Ok(self.is_legal(mv))
            },
    {
        if self.board.is_full() {
            return Err(BoardDone);
        }
        let hand = self.mover_hand();
        Ok(self.board.is_playable(mv.pos) && hand.count(mv.card) > 0)
    }

    /// Play `mv` for the player to move: the card leaves their hand for the board and the turn passes.
    pub fn play(&mut self, mv: Move) -> (r: Result<(), PlayError>)
        requires
            N <= MAX_BOARD_SIZE,
            old(self).board.playable(mv.pos.row as int, mv.pos.col as int) ==> mv.card.0 <= N,
        ensures
            old(self).board.full() ==> r == Err::<(), PlayError>(PlayError::BoardDone) && *final(self) == *old(self),
            !old(self).board.full() && !old(self).is_legal(mv) ==> r == Err::<(), PlayError>(PlayError::UnavailableMove)
                && *final(self) == *old(self),
            !old(self).board.full() && old(self).is_legal(mv) ==> r == Ok::<(), PlayError>(()) && old(self).played(
                mv,
                *final(self),
            ) && *final(self) == old(self).after(mv),
            old(self).wf() && r is Ok ==> final(self).wf(),
    {
        if self.board.is_full() {
            return Err(PlayError::BoardDone);
        }
        let idx: usize = self.turn.index() as usize;
        if !self.board.is_playable(mv.pos) || self.hands[idx].count(mv.card) == 0 {
            return Err(PlayError::UnavailableMove);
        }
        let ghost s0 = *self;
        self.board.set(mv.pos, mv.card.0);
        let mut h = self.hands[idx];
        h.take(mv.card);
        self.hands[idx] = h;
        self.turn = self.turn.other();
        proof {
            assert(s0.played(mv, *self));
            assert(self.hands =~= s0.after(mv).hands);
            if s0.wf() {
                lemma_play_keeps_wf(s0, mv, *self);
            }
        }
        Ok(())
    }

    /// A copy of this state with `mv` played (see [`GameState::play`]).
    pub fn clone_and_play(&self, mv: Move) -> (r: Result<Self, PlayError>)
        requires
            N <= MAX_BOARD_SIZE,
            self.board.playable(mv.pos.row as int, mv.pos.col as int) ==> mv.card.0 <= N,
        ensures
            self.board.full() ==> r == Err::<Self, PlayError>(PlayError::BoardDone),
            !self.board.full() && !self.is_legal(mv) ==> r == Err::<Self, PlayError>(PlayError::UnavailableMove),
            !self.board.full() && self.is_legal(mv) ==> r is Ok && self.played(mv, r->Ok_0) && r->Ok_0 == self.after(mv),
            self.wf() && r is Ok ==> r->Ok_0.wf(),
    {
        let mut next = *self;
        match next.play(mv) {
            Ok(()) => Ok(next),
            Err(e) => Err(e),
        }
    }

    /// The outcome: `None` while the board has an empty cell, otherwise the player whose weakest
    /// line scores higher wins (equal weakest lines draw).
    pub fn outcome(&self) -> (r: Option<Outcome>)
        requires
            1 <= N <= MAX_BOARD_SIZE,
            board_countable(self.board),
        ensures
            r == self.spec_outcome(),
    {
        if !self.board.is_full() {
            return None;
        }
        let (s0, i0, s1, i1) = victoire(&self.board);
        proof {
            lemma_weakest_unique(self.board, Player::A, s0 as int, i0 as int);
            lemma_weakest_unique(self.board, Player::B, s1 as int, i1 as int);
        }
        Some(
            if s0 > s1 {
                Outcome::WonBy(Player::A)
            } else if s0 < s1 {
                Outcome::WonBy(Player::B)
            } else {
                Outcome::Draw
            },
        )
    }

    /// The game is over: the board is full.
    pub fn is_done(&self) -> (r: bool)
        requires
            1 <= N <= MAX_BOARD_SIZE,
            board_countable(self.board),
        ensures
            r == self.board.full(),
    {
        self.outcome().is_some()
    }

    /// Number of moves in a game: every cell but the centre is filled by a move.
    pub fn total_moves() -> (r: usize)
        requires
            1 <= N <= MAX_BOARD_SIZE,
        ensures
            r == N * N - 1,
    {
        proof {
            crate::board::lemma_cells_fit(N as int);
            assert(1 <= N * N) by (nonlinear_arith)
                requires
                    1 <= N,
            ;
        }
        N * N - 1
    }

    /// The legal moves, or `Err(BoardDone)` once the board is full.
    pub fn available_moves(&self) -> (r: Result<Vec<Move>, BoardDone>)
        requires
            N <= MAX_BOARD_SIZE,
        ensures
            self.board.full() ==> r == Err::<Vec<Move>, BoardDone>(BoardDone),
            !self.board.full() ==> r is Ok && {
                let v = r->Ok_0;
                &&& forall|i: int| 0 <= i < v.len() ==> self.is_legal(#[trigger] v@[i])
                &&& forall|m: Move| #[trigger] self.is_legal(m) ==> v@.contains(m)
                &&& forall|i: int, j: int| 0 <= i < j < v.len() ==> move_lt(#[trigger] v@[i], #[trigger] v@[j])
            },
    {
        if self.board.is_full() {
            return Err(BoardDone);
        }
        Ok(self.valid_moves())
    }
}

/// Highest card value that [`AllMoves`] enumerates.
pub const ALL_MOVES_MAX_CARD: u8 = 5;

/// `m` is among the theoretically possible moves: an on-board cell and a card value `0..=5`.
pub open spec fn is_possible_move(n: int, m: Move) -> bool {
    m.pos.row < n && m.pos.col < n && m.card.0 <= ALL_MOVES_MAX_CARD
}

/// All theoretically possible moves: every (cell, card `0..=5`) pair on an `N`×`N` board.
#[derive(Clone, Copy, Debug)]
pub struct AllMoves<const N: usize> {}

impl<const N: usize> GameState<N> {
    /// All theoretically possible moves (see [`AllMoves`]).
    pub fn all_possible_moves() -> (r: AllMoves<N>)
        ensures
            r == (AllMoves::<N> {}),
    {
        AllMoves {}
    }
}

impl<const N: usize> AllMoves<N> {
    /// Every theoretically possible move: each on-board cell with each card value `0..=5`, ordered by
    /// position (row-major) then card value.
    pub fn to_vec(&self) -> (r: Vec<Move>)
        requires
            N <= MAX_BOARD_SIZE,
        ensures
            forall|i: int| 0 <= i < r.len() ==> is_possible_move(N as int, #[trigger] r@[i]),
            forall|m: Move| #[trigger] is_possible_move(N as int, m) ==> r@.contains(m),
            forall|i: int, j: int| 0 <= i < j < r.len() ==> move_lt(#[trigger] r@[i], #[trigger] r@[j]),
    {
        let mut out: Vec<Move> = Vec::new();
        let mut row: u8 = 0;
        while (row as usize) < N
            invariant
                N <= MAX_BOARD_SIZE,
                row <= N,
                forall|i: int| 0 <= i < out.len() ==> is_possible_move(N as int, #[trigger] out@[i]),
                forall|i: int| 0 <= i < out.len() ==> (#[trigger] out@[i]).pos.row < row,
                forall|m: Move| #[trigger] is_possible_move(N as int, m) && m.pos.row < row ==> out@.contains(m),
                forall|i: int, j: int| 0 <= i < j < out.len() ==> move_lt(#[trigger] out@[i], #[trigger] out@[j]),
            decreases N - row,
        {
            let mut col: u8 = 0;
            while (col as usize) < N
                invariant
                    N <= MAX_BOARD_SIZE,
                    row < N,
                    col <= N,
                    forall|i: int| 0 <= i < out.len() ==> is_possible_move(N as int, #[trigger] out@[i]),
                    forall|i: int| 0 <= i < out.len() ==> pos_lt((#[trigger] out@[i]).pos, Pos { row, col }),
                    forall|m: Move|
                        #[trigger] is_possible_move(N as int, m) && (m.pos.row < row || (m.pos.row == row && m.pos.col < col))
                            ==> out@.contains(m),
                    forall|i: int, j: int| 0 <= i < j < out.len() ==> move_lt(#[trigger] out@[i], #[trigger] out@[j]),
                decreases N - col,
            {
                let mut card: u8 = 0;
                while card <= ALL_MOVES_MAX_CARD
                    invariant
                        N <= MAX_BOARD_SIZE,
                        row < N,
                        col < N,
                        card <= ALL_MOVES_MAX_CARD + 1,
                        forall|i: int| 0 <= i < out.len() ==> is_possible_move(N as int, #[trigger] out@[i]),
                        forall|i: int| 0 <= i < out.len() ==> move_lt(#[trigger] out@[i], Move { pos: Pos { row, col }, card: CardValue(card) }),
                        forall|m: Move|
                            #[trigger] is_possible_move(N as int, m) && (m.pos.row < row || (m.pos.row == row && m.pos.col < col)
                                || (m.pos.row == row && m.pos.col == col && m.card.0 < card)) ==> out@.contains(m),
                        forall|i: int, j: int| 0 <= i < j < out.len() ==> move_lt(#[trigger] out@[i], #[trigger] out@[j]),
                    decreases ALL_MOVES_MAX_CARD + 1 - card,
                {
                    let m = Move { pos: Pos { row, col }, card: CardValue(card) };
                    let ghost before = out@;
                    out.push(m);
                    proof {
                        assert(out@[out.len() - 1] == m);
                        assert forall|mm: Move|
                            #[trigger] is_possible_move(N as int, mm) && (mm.pos.row < row || (mm.pos.row == row && mm.pos.col < col)
                                || (mm.pos.row == row && mm.pos.col == col && mm.card.0 < card + 1)) implies out@.contains(mm) by {
                            if mm == m {
                            } else {
                                assert(before.contains(mm));
                                let k = choose|k: int| 0 <= k < before.len() && before[k] == mm;
                                assert(out@[k] == before[k]);
                            }
                        }
                    }
                    card += 1;
                }
                col += 1;
            }
            row += 1;
        }
        out
    }
}

/// Number of cards in a hand.
pub open spec fn hand_size<const N: usize>(h: Hand<N>) -> int {
    seq_sum(h@)
}

impl<const N: usize> GameState<N> {
    /// Start a game: shuffle a full deck for the board ([`new_deck`] of `N`: values `0..=N`,
    /// `N + 1` copies each; `config.max_card` and `config.nb_c` are not read), put its top card at
    /// the centre, then deal `config.cards_per_player()` cards to each player. Player `A` moves
    /// first.
    pub fn new(config: GameConfig, rng: &mut rand::rngs::SmallRng) -> (s: Self)
        requires
            1 <= N <= MAX_BOARD_SIZE,
            config.size >= 1,
            1 + 2 * spec_cards_per_player(config.size as int) <= (N + 1) * (N + 1),
        ensures
            s.wf(),
            s.turn == Player::A,
            s.config == config,
            forall|r: int, c: int|
                0 <= r < N && 0 <= c < N ==> (#[trigger] s.board.cell(r, c) != EMPTY <==> (r == N / 2 && c
                    == N / 2)),
            hand_size(s.hands@[0]) == spec_cards_per_player(config.size as int),
            hand_size(s.hands@[1]) == spec_cards_per_player(config.size as int),
    {
        broadcast use {vstd::seq_lib::group_to_multiset_ensures, vstd::multiset::group_multiset_axioms};

        let mut deck = new_deck(N, rng);
        let ghost d0 = deck@;
        let ghost len0 = d0.len();
        proof {
            assert forall|i: int| 0 <= i < d0.len() implies (#[trigger] d0[i]).0 <= N by {
                assert(d0.contains(d0[i]));
                assert(d0.to_multiset().count(d0[i]) > 0);
            }
        }
        let mut board: Board<N> = Board::default();
        let center_card = deck.pop().unwrap();
        let center = Pos { row: (N / 2) as u8, col: (N / 2) as u8 };
        board.set(center, center_card.0);
        let cpp = config.cards_per_player();
        let ghost d1 = deck@;
        let hand0: Hand<N> = deal(&mut deck, cpp);
        let ghost d2 = deck@;
        let hand1: Hand<N> = deal(&mut deck, cpp);
        let s = GameState { board, hands: [hand0, hand1], turn: Player::A, config };
        proof {
            assert(seq_sum(hand0@) == cpp);
            assert(hand_size(hand0) == cpp);
            assert(s.hands@[0] == hand0);
            assert(s.hands@[1] == hand1);
            let k0 = (len0 - 1) as int;
            let k1 = (k0 - cpp) as int;
            let k2 = (k1 - cpp) as int;
            assert(d1 =~= d0.take(k0));
            assert(d2 =~= d1.take(k1));
            board.lemma_view_len();
            crate::board::lemma_flat_index(N as int, (N / 2) as int, (N / 2) as int, 0, 0);
            let empty = Seq::new((N * N) as nat, |k: int| EMPTY);
            vstd::seq_lib::to_multiset_update(empty, (N / 2) * N + N / 2, center_card.0);
            assert forall|r: int, c: int|
                0 <= r < N && 0 <= c < N implies (#[trigger] s.board.cell(r, c) != EMPTY <==> (r == N / 2 && c
                    == N / 2)) by {
            }
            assert forall|v: int| 0 <= v <= N implies #[trigger] s.on_board(v) + s.hands@[0]@[v]
                + s.hands@[1]@[v] <= N + 1 by {
                let cv = CardValue(v as u8);
                assert(v as u8 != EMPTY);
                assert(!empty.contains(v as u8));
                assert(s.on_board(v) == if center_card.0 == v { 1int } else { 0int });
                lemma_count_split(d0, k0, cv);
                lemma_count_split(d1, k1, cv);
                lemma_count_split(d2, k2, cv);
                assert(d0.skip(k0) =~= seq![center_card]);
                assert(seq![center_card].to_multiset().count(cv) == if center_card.0 == v { 1int } else { 0int }) by {
                    assert(seq![center_card] =~= Seq::<CardValue>::empty().push(center_card));
                }
                assert(d0.to_multiset().count(cv) == full_deck_count(N as int, cv));
            }
        }
        s
    }
}

/// In a well-formed state every line holds only empty cells and values `0..=N`.
pub proof fn lemma_lines_countable<const N: usize>(g: GameState<N>, p: Player, i: int)
    requires
        g.wf(),
        0 <= i < N,
    ensures
        cells_countable(g.board.line_view(p, i)),
        forall|j: int| 0 <= j < N ==> #[trigger] g.board.line_view(p, i)[j] == EMPTY || g.board.line_view(p, i)[j] <= N,
{
    assert forall|j: int| 0 <= j < N implies #[trigger] g.board.line_view(p, i)[j] == EMPTY || g.board.line_view(p, i)[j] <= N by {
        assert(g.board.cell(i, j) == EMPTY || g.board.cell(i, j) <= N);
        assert(g.board.cell(j, i) == EMPTY || g.board.cell(j, i) <= N);
    }
}

/// A legal move keeps the state well-formed: the card moves from the hand to an empty cell.
pub proof fn lemma_play_keeps_wf<const N: usize>(s: GameState<N>, m: Move, next: GameState<N>)
    requires
        s.wf(),
        s.is_legal(m),
        s.played(m, next),
    ensures
        next.wf(),
{
    broadcast use {vstd::seq_lib::group_to_multiset_ensures, vstd::multiset::group_multiset_axioms};

    let i = m.pos.row * N + m.pos.col;
    s.board.lemma_view_len();
    crate::board::lemma_flat_index(N as int, m.pos.row as int, m.pos.col as int, 0, 0);
    assert(s.board@[i] == EMPTY);
    vstd::seq_lib::to_multiset_update(s.board@, i, m.card.0);
    assert forall|v: int| 0 <= v <= N implies #[trigger] next.on_board(v) + next.hands@[0]@[v] + next.hands@[1]@[v] <= N + 1 by {
        assert(v as u8 != EMPTY);
        s.hands@[0].lemma_view_len();
        s.hands@[1].lemma_view_len();
        next.hands@[0].lemma_view_len();
        next.hands@[1].lemma_view_len();
        assert(s.on_board(v) + s.hands@[0]@[v] + s.hands@[1]@[v] <= N + 1);
        let turn_hand = s.hand_of(s.turn)@;
        if v == m.card.0 {
            assert(next.on_board(v) == s.on_board(v) + 1);
            assert(next.hand_of(s.turn)@[v] == turn_hand[v] - 1);
        } else {
            assert(next.on_board(v) == s.on_board(v));
            assert(next.hand_of(s.turn)@[v] == turn_hand[v]);
        }
        if s.turn is A {
            assert(next.hands@[1] == s.hands@[1]);
        } else {
            assert(next.hands@[0] == s.hands@[0]);
        }
    }
}

} // verus!
