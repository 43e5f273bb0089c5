use vstd::prelude::*;

use std::ops::ControlFlow;

use crate::board::MAX_BOARD_SIZE;
use crate::game::{GameState, Move};
use crate::player::Bot;
use crate::progress::{
    balanced, empty_cells, lemma_balanced_has_move, lemma_legal_run_push, lemma_play_keeps_balanced,
    legal_run, replay,
};
use crate::rating::{outcome_of_scores, spec_outcome_of_scores, Outcome};
use crate::scoring::{is_weakest_line, victoire};
use crate::text::{concat, concat_number, decimal, str_eq};

verus! {

/// A move in plain numbers, as stored in match records.
#[derive(Clone, Copy, Debug, PartialEq, Eq, Structural)]
pub struct SerMove {
    pub row: u8,
    pub col: u8,
    pub card: u8,
}

/// The plain record of a move.
pub open spec fn ser_move(m: Move) -> SerMove {
    SerMove { row: m.pos.row, col: m.pos.col, card: m.card.0 }
}

impl From<Move> for SerMove {
    fn from(m: Move) -> (r: Self) {
        SerMove { row: m.pos.row, col: m.pos.col, card: m.card.0 }
    }
}

impl vstd::std_specs::convert::FromSpecImpl<Move> for SerMove {
    open spec fn obeys_from_spec() -> bool {
        true
    }

    open spec fn from_spec(m: Move) -> SerMove {
        ser_move(m)
    }
}

/// The final record of a match.
#[derive(Clone, Debug)]
pub struct MatchResult {
    pub p1_id: String,
    pub p2_id: String,
    pub p1_score: u16,
    pub p2_score: u16,
    pub p1_weak_line: usize,
    pub p2_weak_line: usize,
    pub moves: Vec<SerMove>,
}

/// `r` records a match between `p1_id` and `p2_id` that played `moves` and ended on `board`:
/// each player's score is their weakest line.
pub open spec fn records<const N: usize>(
    r: MatchResult,
    p1_id: Seq<char>,
    p2_id: Seq<char>,
    board: crate::board::Board<N>,
    moves: Seq<Move>,
) -> bool {
    &&& r.p1_id@ == p1_id
    &&& r.p2_id@ == p2_id
    &&& is_weakest_line(board, crate::game::Player::A, r.p1_score as int, r.p1_weak_line as int)
    &&& is_weakest_line(board, crate::game::Player::B, r.p2_score as int, r.p2_weak_line as int)
    &&& r.moves@ == moves.map_values(|m: Move| ser_move(m))
}

impl MatchResult {
    /// A record from its parts.
    pub fn new(
        p1_id: String,
        p2_id: String,
        p1_score: u16,
        p2_score: u16,
        p1_weak_line: usize,
        p2_weak_line: usize,
        moves: Vec<SerMove>,
    ) -> (r: Self)
        ensures
            r.p1_id == p1_id,
            r.p2_id == p2_id,
            r.p1_score == p1_score,
            r.p2_score == p2_score,
            r.p1_weak_line == p1_weak_line,
            r.p2_weak_line == p2_weak_line,
            r.moves == moves,
    {
        MatchResult { p1_id, p2_id, p1_score, p2_score, p1_weak_line, p2_weak_line, moves }
    }

    /// Who won: the higher score, or a draw on equal scores.
    pub fn outcome(&self) -> (r: Outcome)
        ensures
            r == spec_outcome_of_scores(self.p1_score as int, self.p2_score as int),
    {
        outcome_of_scores(self.p1_score, self.p2_score)
    }

    /// The report of the match with the players shown as `p1` and `p2` ([`report_text`]).
    pub fn report(&self, p1: &str, p2: &str) -> (r: String)
        ensures
            r@ == report_text(*self, p1@, p2@),
    {
        let a = concat(p1, ": score ");
        let a = concat_number(a.as_str(), self.p1_score as u64);
        let a = concat(a.as_str(), " (column ");
        let a = concat_number(a.as_str(), self.p1_weak_line as u64);
        let a = concat(a.as_str(), ")\n");
        let a = concat(a.as_str(), p2);
        let a = concat(a.as_str(), ": score ");
        let a = concat_number(a.as_str(), self.p2_score as u64);
        let a = concat(a.as_str(), " (row ");
        let a = concat_number(a.as_str(), self.p2_weak_line as u64);
        let a = concat(a.as_str(), ")\n");
        let r = match self.outcome() {
            Outcome::P1Win => concat(a.as_str(), concat(p1, " wins.").as_str()),
            Outcome::P2Win => concat(a.as_str(), concat(p2, " wins.").as_str()),
            Outcome::Draw => concat(a.as_str(), "draw."),
        };
        proof {
            assert(r@ =~= report_text(*self, p1@, p2@));
        }
        r
    }
}

/// How many of `results` player `id` took part in, a game against itself counting twice.
pub open spec fn games_of(results: Seq<MatchResult>, id: Seq<char>) -> nat
    decreases results.len(),
{
    if results.len() == 0 {
        0
    } else {
        let r = results.last();
        games_of(results.drop_last(), id) + (if r.p1_id@ == id { 1nat } else { 0nat }) + (if r.p2_id@ == id {
            1nat
        } else {
            0nat
        })
    }
}

/// How many of `results` player `id` won, as first player with the higher score or as second.
pub open spec fn wins_of(results: Seq<MatchResult>, id: Seq<char>) -> nat
    decreases results.len(),
{
    if results.len() == 0 {
        0
    } else {
        let r = results.last();
        let o = spec_outcome_of_scores(r.p1_score as int, r.p2_score as int);
        wins_of(results.drop_last(), id) + (if o == Outcome::P1Win && r.p1_id@ == id { 1nat } else { 0nat }) + (
        if o == Outcome::P2Win && r.p2_id@ == id {
            1nat
        } else {
            0nat
        })
    }
}

/// A player wins no more games than it plays.
proof fn lemma_wins_within_games(results: Seq<MatchResult>, id: Seq<char>)
    ensures
        wins_of(results, id) <= games_of(results, id),
        games_of(results, id) <= 2 * results.len(),
    decreases results.len(),
{
    if results.len() > 0 {
        lemma_wins_within_games(results.drop_last(), id);
    }
}

/// The wins and games of player `id` over `results` ([`wins_of`], [`games_of`]).
pub fn wins_and_games(results: &[MatchResult], id: &str) -> (r: (u32, u32))
    requires
        2 * results@.len() <= u32::MAX,
    ensures
        r.0 == wins_of(results@, id@),
        r.1 == games_of(results@, id@),
{
    let mut wins: u32 = 0;
    let mut games: u32 = 0;
    let mut i: usize = 0;
    while i < results.len()
        invariant
            2 * results@.len() <= u32::MAX,
            i <= results@.len(),
            wins == wins_of(results@.take(i as int), id@),
            games == games_of(results@.take(i as int), id@),
        decreases results@.len() - i,
    {
        proof {
            assert(results@.take(i + 1).drop_last() =~= results@.take(i as int));
            lemma_wins_within_games(results@.take(i as int), id@);
        }
        let r = &results[i];
        let first = str_eq(r.p1_id.as_str(), id);
        let second = str_eq(r.p2_id.as_str(), id);
        if first {
            games += 1;
        }
        if second {
            games += 1;
        }
        match r.outcome() {
            Outcome::P1Win => {
                if first {
                    wins += 1;
                }
            },
            Outcome::P2Win => {
                if second {
                    wins += 1;
                }
            },
            Outcome::Draw => {},
        }
        i += 1;
    }
    proof {
        assert(results@.take(results@.len() as int) =~= results@);
    }
    (wins, games)
}

/// Who won, in words: `<name> wins.` or `draw.`.
pub open spec fn verdict_text(o: Outcome, p1: Seq<char>, p2: Seq<char>) -> Seq<char> {
    match o {
        Outcome::P1Win => p1 + " wins."@,
        Outcome::P2Win => p2 + " wins."@,
        Outcome::Draw => "draw."@,
    }
}

/// The report of a match for the players shown as `p1` and `p2`: each one's score with their
/// weakest line (a column for the first player, a row for the second), one per line, then who
/// won.
pub open spec fn report_text(r: MatchResult, p1: Seq<char>, p2: Seq<char>) -> Seq<char> {
    p1 + ": score "@ + decimal(r.p1_score as nat) + " (column "@ + decimal(r.p1_weak_line as nat) + ")\n"@ + p2
        + ": score "@ + decimal(r.p2_score as nat) + " (row "@ + decimal(r.p2_weak_line as nat) + ")\n"@
        + verdict_text(spec_outcome_of_scores(r.p1_score as int, r.p2_score as int), p1, p2)
}

/// Appending a move that bots `b1`, `b2` chose, where they choose as `p1`, `p2` do, after moves
/// that `p1`, `p2` chose, gives moves that `p1`, `p2` chose.
proof fn lemma_bots_chose_push<const N: usize, P1: Bot<N>, P2: Bot<N>>(
    p1: P1,
    p2: P2,
    b1: P1,
    b2: P2,
    start: GameState<N>,
    before: Seq<Move>,
    moves: Seq<Move>,
    from: int,
)
    requires
        0 <= from,
        bots_chose(p1, p2, start, before, from),
        moves.len() == before.len() + 1,
        moves.drop_last() == before,
        chosen_by(b1, b2, replay(start, before), moves.last()),
        forall|g: GameState<N>, mv: Move| #[trigger] b1.chooses(g, mv) == p1.chooses(g, mv),
        forall|g: GameState<N>, mv: Move| #[trigger] b2.chooses(g, mv) == p2.chooses(g, mv),
    ensures
        bots_chose(p1, p2, start, moves, from),
{
    assert forall|k: int| from <= k < moves.len() implies #[trigger] chosen_by(p1, p2, replay(start, moves.take(k)), moves[k]) by {
        if k < before.len() {
            assert(moves.take(k) =~= before.take(k));
            assert(moves[k] == before[k]);
            assert(chosen_by(p1, p2, replay(start, before.take(k)), before[k]));
        } else {
            assert(moves.take(k) =~= before);
            let g = replay(start, before);
            assert(b1.chooses(g, moves.last()) == p1.chooses(g, moves.last()));
            assert(b2.chooses(g, moves.last()) == p2.chooses(g, moves.last()));
        }
    }
}

/// A game between two bots, move by move.
pub struct Match<const N: usize, P1: Bot<N>, P2: Bot<N>> {
    game: GameState<N>,
    p1: P1,
    p2: P2,
    p1_id: String,
    p2_id: String,
    moves: Vec<Move>,
    start: Ghost<GameState<N>>,
}

/// `m` is a move that the bot of the player to move in `g` may pick: `p1` for `A`, `p2` for `B`.
pub open spec fn chosen_by<const N: usize, P1: Bot<N>, P2: Bot<N>>(p1: P1, p2: P2, g: GameState<N>, m: Move) -> bool {
    match g.turn {
        crate::game::Player::A => p1.chooses(g, m),
        crate::game::Player::B => p2.chooses(g, m),
    }
}

/// Every move of `moves` from position `from` on is one the bot to move may pick, in the state
/// the moves before it reach from `start`.
pub open spec fn bots_chose<const N: usize, P1: Bot<N>, P2: Bot<N>>(
    p1: P1,
    p2: P2,
    start: GameState<N>,
    moves: Seq<Move>,
    from: int,
) -> bool {
    forall|k: int| from <= k < moves.len() ==> #[trigger] chosen_by(p1, p2, replay(start, moves.take(k)), moves[k])
}

impl<const N: usize, P1: Bot<N>, P2: Bot<N>> Match<N, P1, P2> {
    /// The current game state.
    pub closed spec fn state(&self) -> GameState<N> {
        self.game
    }

    /// The first player's bot (player `A`).
    pub closed spec fn first_bot(&self) -> P1 {
        self.p1
    }

    /// The second player's bot (player `B`).
    pub closed spec fn second_bot(&self) -> P2 {
        self.p2
    }

    /// The state the match started from.
    pub closed spec fn start(&self) -> GameState<N> {
        self.start@
    }

    /// The moves played so far.
    pub closed spec fn played_moves(&self) -> Seq<Move> {
        self.moves@
    }

    /// The first player's id.
    pub closed spec fn first_id(&self) -> Seq<char> {
        self.p1_id@
    }

    /// The second player's id.
    pub closed spec fn second_id(&self) -> Seq<char> {
        self.p2_id@
    }

    /// The match is sound: it started from a well-formed balanced state, every move so far was
    /// legal, and the current state is what they lead to, with one empty cell fewer per move.
    pub open spec fn inv(&self) -> bool {
        &&& 1 <= N <= MAX_BOARD_SIZE
        &&& self.start().wf()
        &&& balanced(self.start())
        &&& legal_run(self.start(), self.played_moves())
        &&& self.state() == replay(self.start(), self.played_moves())
        &&& self.state().wf()
        &&& balanced(self.state())
        &&& self.played_moves().len() + empty_cells(self.state().board) == empty_cells(self.start().board)
    }

    /// A match from `game` between `p1` (player `A`) and `p2` (player `B`).
    pub fn new(game: GameState<N>, p1: P1, p2: P2, p1_id: String, p2_id: String) -> (r: Self)
        requires
            1 <= N <= MAX_BOARD_SIZE,
            game.wf(),
            balanced(game),
        ensures
            r.inv(),
            r.start() == game,
            r.state() == game,
            r.played_moves() == Seq::<Move>::empty(),
            r.first_id() == p1_id@,
            r.second_id() == p2_id@,
            r.first_bot() == p1,
            r.second_bot() == p2,
    {
        let r = Match { game, p1, p2, p1_id, p2_id, moves: Vec::new(), start: Ghost(game) };
        proof {
            assert(r.played_moves() =~= Seq::<Move>::empty());
            assert(replay(game, Seq::<Move>::empty()) == game);
        }
        r
    }

    /// The current game state.
    pub fn game(&self) -> (r: &GameState<N>)
        ensures
            *r == self.state(),
    {
        &self.game
    }

    /// Advance one turn: play `external_move` if given, else the move chosen by the player to
    /// move. Returns `Break` with the match record when this move fills the board, else
    /// `Continue` with the new state.
    pub fn next(&mut self, external_move: Option<Move>) -> (r: ControlFlow<MatchResult, &GameState<N>>)
        requires
            old(self).inv(),
            !old(self).state().board.full(),
            external_move is Some ==> old(self).state().is_legal(external_move->0),
        ensures
            final(self).inv(),
            final(self).start() == old(self).start(),
            final(self).first_id() == old(self).first_id(),
            final(self).second_id() == old(self).second_id(),
            final(self).played_moves().len() == old(self).played_moves().len() + 1,
            final(self).played_moves().drop_last() == old(self).played_moves(),
            external_move is Some ==> final(self).played_moves().last() == external_move->0,
            external_move is None ==> chosen_by(
                old(self).first_bot(),
                old(self).second_bot(),
                old(self).state(),
                final(self).played_moves().last(),
            ),
            external_move is Some ==> final(self).first_bot() == old(self).first_bot() && final(self).second_bot()
                == old(self).second_bot(),
            forall|g: GameState<N>, mv: Move| #[trigger] final(self).first_bot().chooses(g, mv) == old(self).first_bot().chooses(g, mv),
            forall|g: GameState<N>, mv: Move| #[trigger] final(self).second_bot().chooses(g, mv) == old(self).second_bot().chooses(g, mv),
            old(self).state().is_legal(final(self).played_moves().last()),
            final(self).state() == old(self).state().after(final(self).played_moves().last()),
            match r {
                ControlFlow::Break(res) => {
                    &&& final(self).state().board.full()
                    &&& records(res, final(self).first_id(), final(self).second_id(), final(self).state().board, final(self).played_moves())
                },
                ControlFlow::Continue(g) => !final(self).state().board.full() && *g == final(self).state(),
            },
    {
        proof {
            lemma_balanced_has_move(self.game);
        }
        let m = match external_move {
            Some(m) => m,
            None => match self.game.turn {
                crate::game::Player::A => self.p1.choose_move(&self.game),
                crate::game::Player::B => self.p2.choose_move(&self.game),
            },
        };
        let ghost before = self.game;
        let next = match self.game.clone_and_play(m) {
            Ok(g) => g,
            Err(_) => vstd::pervasive::unreached(),
        };
        proof {
            lemma_play_keeps_balanced(before, m);
            lemma_legal_run_push(self.start@, self.moves@, m);
        }
        self.game = next;
        self.moves.push(m);
        proof {
            assert(self.moves@.drop_last() =~= old(self).moves@);
        }
        if self.game.is_done() {
            ControlFlow::Break(self.build_result())
        } else {
            ControlFlow::Continue(&self.game)
        }
    }

    /// Play to completion, every move chosen by the bots.
    pub fn run(self) -> (r: MatchResult)
        requires
            self.inv(),
            !self.state().board.full(),
        ensures
            exists|moves: Seq<Move>|
                {
                    &&& moves.take(self.played_moves().len() as int) == self.played_moves()
                    &&& legal_run(self.start(), moves)
                    &&& moves.len() == empty_cells(self.start().board)
                    &&& replay(self.start(), moves).board.full()
                    &&& bots_chose(self.first_bot(), self.second_bot(), self.start(), moves, self.played_moves().len() as int)
                    &&& #[trigger] records(r, self.first_id(), self.second_id(), replay(self.start(), moves).board, moves)
                },
    {
        let ghost m0 = self;
        let mut m = self;
        let total = GameState::<N>::total_moves();
        proof {
            crate::progress::lemma_some_occupied_bounds_empty(m.start().board);
        }
        let mut i: usize = 0;
        while i < total
            invariant
                m0 == self,
                m.inv(),
                !m.state().board.full(),
                m.start() == m0.start(),
                m.first_id() == m0.first_id(),
                m.second_id() == m0.second_id(),
                m.played_moves().len() >= m0.played_moves().len(),
                m.played_moves().take(m0.played_moves().len() as int) == m0.played_moves(),
                total == N * N - 1,
                empty_cells(m0.start().board) <= total,
                m.played_moves().len() == m0.played_moves().len() + i,
                i <= total,
                bots_chose(m0.first_bot(), m0.second_bot(), m0.start(), m.played_moves(), m0.played_moves().len() as int),
                forall|g: GameState<N>, mv: Move| #[trigger] m.first_bot().chooses(g, mv) == m0.first_bot().chooses(g, mv),
                forall|g: GameState<N>, mv: Move| #[trigger] m.second_bot().chooses(g, mv) == m0.second_bot().chooses(g, mv),
            decreases total - i,
        {
            let ghost before = m.played_moves();
            let ghost before_state = m.state();
            let ghost b1 = m.first_bot();
            let ghost b2 = m.second_bot();
            match m.next(None) {
                ControlFlow::Break(result) => {
                    proof {
                        let moves = m.played_moves();
                        assert(moves.take(m0.played_moves().len() as int) =~= m0.played_moves()) by {
                            assert(moves.drop_last() == before);
                            assert forall|k: int| 0 <= k < m0.played_moves().len() implies moves[k] == m0.played_moves()[k] by {
                                assert(before[k] == moves.drop_last()[k]);
                                assert(before.take(m0.played_moves().len() as int)[k] == before[k]);
                            }
                        }
                        lemma_bots_chose_push(m0.first_bot(), m0.second_bot(), b1, b2, m0.start(), before, m.played_moves(), m0.played_moves().len() as int);
                        crate::progress::lemma_full_no_empty(m.state().board);
                        assert(m.state() == replay(m0.start(), moves));
                        assert(records(result, m0.first_id(), m0.second_id(), replay(m0.start(), moves).board, moves));
                    }
                    return result;
                },
                ControlFlow::Continue(_) => {},
            }
            proof {
                lemma_bots_chose_push(m0.first_bot(), m0.second_bot(), b1, b2, m0.start(), before, m.played_moves(), m0.played_moves().len() as int);
                let moves = m.played_moves();
                assert(moves.take(m0.played_moves().len() as int) =~= m0.played_moves()) by {
                    assert(moves.drop_last() == before);
                    assert forall|k: int| 0 <= k < m0.played_moves().len() implies moves[k] == m0.played_moves()[k] by {
                        assert(before[k] == moves.drop_last()[k]);
                        assert(before.take(m0.played_moves().len() as int)[k] == before[k]);
                    }
                }
            }
            i += 1;
        }
        proof {
            crate::progress::lemma_not_full_has_empty(m.state().board);
        }
        vstd::pervasive::unreached()
    }

    /// The record of the match as it stands.
    fn build_result(&self) -> (r: MatchResult)
        requires
            1 <= N <= MAX_BOARD_SIZE,
            self.state().wf(),
        ensures
            records(r, self.first_id(), self.second_id(), self.state().board, self.played_moves()),
    {
        let (s0, i0, s1, i1) = victoire(&self.game.board);
        let mut moves: Vec<SerMove> = Vec::new();
        let mut k: usize = 0;
        while k < self.moves.len()
            invariant
                k <= self.moves.len(),
                moves@ == self.moves@.take(k as int).map_values(|m: Move| ser_move(m)),
            decreases self.moves.len() - k,
        {
            moves.push(SerMove::from(self.moves[k]));
            proof {
                assert(self.moves@.take(k + 1).map_values(|m: Move| ser_move(m)) =~= self.moves@.take(
                    k as int,
                ).map_values(|m: Move| ser_move(m)).push(ser_move(self.moves@[k as int])));
            }
            k += 1;
        }
        proof {
            assert(self.moves@.take(self.moves.len() as int) =~= self.moves@);
        }
        MatchResult {
            p1_id: self.p1_id.clone(),
            p2_id: self.p2_id.clone(),
            p1_score: s0,
            p2_score: s1,
            p1_weak_line: i0,
            p2_weak_line: i1,
            moves,
        }
    }
}

} // verus!
