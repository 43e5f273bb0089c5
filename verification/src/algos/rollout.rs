use vstd::prelude::*;

use crate::algos::greedy_max::{greedy_move, is_greedy_choice, lemma_greedy_choice_unique, line_delta, line_of};
use crate::board::{pos_lt, Pos, EMPTY, MAX_BOARD_SIZE};
use crate::cards::CardValue;
use crate::game::{
    lemma_lines_countable, lemma_weakest_unique, move_lt, scores_rows, weakest_score, GameState, Move, Player,
};
use crate::player::Bot;
use crate::algos::sadist::min_int;
use crate::progress::{empty_cells, lemma_play_fills_cell, replay};
use crate::scoring::{
    is_weakest_line, lemma_points_bounds, line_counts, line_score, player_score, score_delta, score_line,
    spec_line_counts, LINE_COUNT_SLOTS,
};

verus! {

/// Three-mode bot:
/// 1. No finished lines → pure greedy (maximize immediate score delta)
/// 2. Some finished lines, unfinished lines below the weakest finished one → target those weak lines
/// 3. No improvable lines → averse (harass the opponent)
#[derive(Clone, Copy, Debug, Default, PartialEq, Eq, Structural)]
pub struct Rollout {}

/// Fuel the rollout bot gives its averse mode.
pub const ROLLOUT_AVERSE_FUEL: u32 = 500;

/// The mover's line `i` has no empty cell.
pub open spec fn line_finished<const N: usize>(g: GameState<N>, i: int) -> bool {
    forall|j: int| 0 <= j < N ==> #[trigger] g.board.line_view(g.turn, i)[j] != EMPTY
}

/// Some line of the mover is finished.
pub open spec fn has_finished_line<const N: usize>(g: GameState<N>) -> bool {
    exists|i: int| 0 <= i < N && #[trigger] line_finished(g, i)
}

/// `f` is the lowest score among the mover's finished lines.
pub open spec fn is_finished_min<const N: usize>(g: GameState<N>, f: int) -> bool {
    &&& exists|i: int| 0 <= i < N && #[trigger] line_finished(g, i) && line_score(g.board, g.turn, i) == f
    &&& forall|i: int| 0 <= i < N && #[trigger] line_finished(g, i) ==> f <= line_score(g.board, g.turn, i)
}

/// The mover's line `i` is a target: unfinished, and scoring below every finished line (of which
/// there is one).
pub open spec fn is_target_line<const N: usize>(g: GameState<N>, i: int) -> bool {
    &&& 0 <= i < N
    &&& !line_finished(g, i)
    &&& has_finished_line(g)
    &&& forall|j: int|
        0 <= j < N && #[trigger] line_finished(g, j) ==> line_score(g.board, g.turn, i) < line_score(g.board, g.turn, j)
}

/// How the rollout bot plays a position.
#[derive(Clone, Copy, Debug, PartialEq, Eq, Structural)]
pub enum Mode {
    /// No finished lines — play pure greedy.
    Greedy,
    /// At least one finished line, and unfinished lines below the weakest finished one — target those.
    TargetWeak,
    /// Every unfinished line scores at least the weakest finished one — harass the opponent.
    Averse,
}

/// The mode of a position: greedy without finished lines, targeting with a target line, else averse.
pub open spec fn spec_mode<const N: usize>(g: GameState<N>) -> Mode {
    if !has_finished_line(g) {
        Mode::Greedy
    } else if exists|i: int| #[trigger] is_target_line(g, i) {
        Mode::TargetWeak
    } else {
        Mode::Averse
    }
}

/// The mode read off line summaries `(index, score, finished)` and the weakest finished score.
pub open spec fn mode_of_lines(lines: Seq<(usize, u16, bool)>, finished_min: Option<u16>) -> Mode {
    match finished_min {
        None => Mode::Greedy,
        Some(f) => if exists|k: int| 0 <= k < lines.len() && !(#[trigger] lines[k]).2 && lines[k].1 < f {
            Mode::TargetWeak
        } else {
            Mode::Averse
        },
    }
}

/// Per-line summary of the mover's lines.
#[derive(Clone, Debug)]
pub struct LineAnalysis {
    /// `(line_index, score, is_finished)` for each line.
    pub lines: Vec<(usize, u16, bool)>,
    /// The lowest score of a finished line, if any line is finished.
    pub finished_min: Option<u16>,
}

impl LineAnalysis {
    /// This analysis describes the mover's lines in `g`.
    pub open spec fn describes<const N: usize>(&self, g: GameState<N>) -> bool {
        &&& self.lines@.len() == N
        &&& forall|i: int|
            0 <= i < N ==> {
                let l = #[trigger] self.lines@[i];
                &&& l.0 == i
                &&& l.1 == line_score(g.board, g.turn, i)
                &&& l.2 == line_finished(g, i)
            }
        &&& match self.finished_min {
            None => !has_finished_line(g),
            Some(f) => is_finished_min(g, f as int),
        }
    }

    /// Summarize each of the mover's lines: its score and whether it is finished.
    pub fn new<const N: usize>(game: &GameState<N>) -> (r: Self)
        requires
            game.wf(),
        ensures
            r.describes(*game),
    {
        let player = game.turn;
        let mut lines: Vec<(usize, u16, bool)> = Vec::new();
        let mut finished_min: Option<u16> = None;
        let mut i: usize = 0;
        while i < N
            invariant
                game.wf(),
                player == game.turn,
                i <= N,
                lines@.len() == i,
                forall|k: int|
                    0 <= k < i ==> {
                        let l = #[trigger] lines@[k];
                        &&& l.0 == k
                        &&& l.1 == line_score(game.board, game.turn, k)
                        &&& l.2 == line_finished(*game, k)
                    },
                match finished_min {
                    None => forall|k: int| 0 <= k < i ==> !#[trigger] line_finished(*game, k),
                    Some(f) => {
                        &&& exists|k: int|
                            0 <= k < i && #[trigger] line_finished(*game, k) && line_score(game.board, game.turn, k) == f
                        &&& forall|k: int|
                            0 <= k < i && #[trigger] line_finished(*game, k) ==> f <= line_score(game.board, game.turn, k)
                    },
                },
            decreases N - i,
        {
            let line = game.board.line(player, i);
            proof {
                lemma_lines_countable(*game, player, i as int);
            }
            proof {
                crate::scoring::lemma_short_line_counts_fit(line@);
            }
            let counts = line_counts(&line);
            let score = score_line(&counts);
            let mut is_finished = true;
            let mut j: usize = 0;
            while j < N
                invariant
                    j <= N,
                    line@ == game.board.line_view(player, i as int),
                    is_finished == forall|jj: int| 0 <= jj < j ==> #[trigger] line@[jj] != EMPTY,
                decreases N - j,
            {
                if line[j] == EMPTY {
                    is_finished = false;
                }
                j += 1;
            }
            proof {
                assert(is_finished == line_finished(*game, i as int));
            }
            lines.push((i, score, is_finished));
            if is_finished {
                finished_min = match finished_min {
                    None => Some(score),
                    Some(f) => if score < f {
                        Some(score)
                    } else {
                        Some(f)
                    },
                };
            }
            i += 1;
        }
        LineAnalysis { lines, finished_min }
    }

    /// The mode these lines call for.
    pub fn mode(&self) -> (r: Mode)
        ensures
            r == mode_of_lines(self.lines@, self.finished_min),
    {
        let fmin = match self.finished_min {
            None => return Mode::Greedy,
            Some(f) => f,
        };
        let mut k: usize = 0;
        while k < self.lines.len()
            invariant
                k <= self.lines.len(),
                self.finished_min == Some(fmin),
                forall|a: int| 0 <= a < k ==> !(!(#[trigger] self.lines@[a]).2 && self.lines@[a].1 < fmin),
            decreases self.lines.len() - k,
        {
            let (_, score, finished) = self.lines[k];
            if !finished && score < fmin {
                return Mode::TargetWeak;
            }
            k += 1;
        }
        Mode::Averse
    }
}

/// An analysis that describes a position calls for that position's mode.
pub proof fn lemma_mode_of_analysis<const N: usize>(a: LineAnalysis, g: GameState<N>)
    requires
        a.describes(g),
    ensures
        mode_of_lines(a.lines@, a.finished_min) == spec_mode(g),
{
    if let Some(f) = a.finished_min {
        let w = choose|i: int| 0 <= i < N && #[trigger] line_finished(g, i) && line_score(g.board, g.turn, i) == f;
        assert(has_finished_line(g));
        if exists|k: int| 0 <= k < a.lines@.len() && !(#[trigger] a.lines@[k]).2 && a.lines@[k].1 < f {
            let k = choose|k: int| 0 <= k < a.lines@.len() && !(#[trigger] a.lines@[k]).2 && a.lines@[k].1 < f;
            assert(is_target_line(g, k));
        } else {
            assert forall|i: int| !#[trigger] is_target_line(g, i) by {
                if is_target_line(g, i) {
                    assert(line_score(g.board, g.turn, i) < line_score(g.board, g.turn, w));
                    assert(!(a.lines@[i]).2 && a.lines@[i].1 < f);
                }
            }
        }
    }
}

/// Score change on the mover's line through `m.pos` if card `m.card` joins it.
pub open spec fn move_delta<const N: usize>(g: GameState<N>, m: Move) -> int {
    line_delta(g, line_of(g.turn, m.pos), m.card.0 as int)
}

/// `m` is a legal move on a target line.
pub open spec fn is_target_move<const N: usize>(g: GameState<N>, m: Move) -> bool {
    g.is_legal(m) && is_target_line(g, line_of(g.turn, m.pos))
}

/// Some legal move lands on a target line.
pub open spec fn has_target_move<const N: usize>(g: GameState<N>) -> bool {
    exists|m: Move| #[trigger] is_target_move(g, m)
}

/// `m` is the targeting move: among the legal moves on target lines, it has the largest delta,
/// and is the first such in position-then-card order.
pub open spec fn is_target_choice<const N: usize>(g: GameState<N>, m: Move) -> bool {
    &&& is_target_move(g, m)
    &&& forall|q: Move|
        #[trigger] is_target_move(g, q) ==> move_delta(g, q) <= move_delta(g, m) && (move_delta(g, q) == move_delta(g, m)
            ==> !move_lt(q, m))
}

/// Mode 2: maximize the score delta on unfinished lines below the weakest finished line; with no
/// playable cell on those lines, play greedy.
pub fn target_weak<const N: usize>(game: &GameState<N>, analysis: &LineAnalysis) -> (m: Move)
    requires
        game.wf(),
        game.has_legal_move(),
        analysis.describes(*game),
        analysis.finished_min is Some,
    ensures
        has_target_move(*game) ==> is_target_choice(*game, m),
        !has_target_move(*game) ==> is_greedy_choice(*game, m),
        game.is_legal(m),
{
    let fmin = analysis.finished_min.unwrap();
    let player = game.turn;
    let hand = match player {
        Player::A => game.hands[0],
        Player::B => game.hands[1],
    };
    let ghost g = *game;

    let mut is_target: Vec<bool> = Vec::new();
    let mut t: usize = 0;
    while t < N
        invariant
            analysis.describes(g),
            g == *game,
            game.wf(),
            analysis.finished_min == Some(fmin),
            t <= N,
            is_target@.len() == t,
            forall|k: int| 0 <= k < t ==> (#[trigger] is_target@[k]) == is_target_line(g, k),
        decreases N - t,
    {
        let (_, score, finished) = analysis.lines[t];
        proof {
            let w = choose|i: int| 0 <= i < N && #[trigger] line_finished(g, i) && line_score(g.board, g.turn, i) == fmin;
            if !finished && score < fmin {
                assert(is_target_line(g, t as int));
            }
            if is_target_line(g, t as int) {
                assert(line_score(g.board, g.turn, t as int) < line_score(g.board, g.turn, w));
            }
        }
        is_target.push(!finished && score < fmin);
        t += 1;
    }

    let placements = game.board.valid_placements();
    let cards = hand.iter_playable();
    proof {
        assert forall|q: Move| #[trigger] is_target_move(g, q) implies placements@.contains(q.pos) && cards@.contains(q.card) by {
            assert(g.board.playable(q.pos.row as int, q.pos.col as int));
            assert(Pos { row: q.pos.row as u8, col: q.pos.col as u8 } == q.pos);
            assert(hand.holds(q.card.0 as int));
            assert(CardValue(q.card.0 as u8) == q.card);
        }
    }
    let mut best: Option<(i16, Move)> = None;
    let mut a: usize = 0;
    while a < placements.len()
        invariant
            g == *game,
            game.wf(),
            player == g.turn,
            hand == g.hand_of(g.turn),
            is_target@.len() == N,
            forall|k: int| 0 <= k < N ==> (#[trigger] is_target@[k]) == is_target_line(g, k),
            a <= placements.len(),
            forall|i: int| 0 <= i < placements.len() ==> g.board.playable(#[trigger] placements@[i].row as int, placements@[i].col as int),
            forall|q: Move| #[trigger] is_target_move(g, q) ==> placements@.contains(q.pos),
            forall|i: int, j: int| 0 <= i < j < placements.len() ==> pos_lt(#[trigger] placements@[i], #[trigger] placements@[j]),
            forall|i: int| 0 <= i < cards.len() ==> hand.holds(#[trigger] cards@[i].0 as int),
            forall|q: Move| #[trigger] is_target_move(g, q) ==> cards@.contains(q.card),
            forall|i: int, j: int| 0 <= i < j < cards.len() ==> (#[trigger] cards@[i]).0 < (#[trigger] cards@[j]).0,
            match best {
                None => forall|q: Move, b: int|
                    #![trigger is_target_move(g, q), placements@[b]]
                    is_target_move(g, q) && 0 <= b < a ==> placements@[b] != q.pos,
                Some((d, bm)) => {
                    &&& is_target_move(g, bm)
                    &&& d == move_delta(g, bm)
                    &&& (a < placements.len() ==> pos_lt(bm.pos, placements@[a as int]))
                    &&& forall|q: Move|
                        #[trigger] is_target_move(g, q) && (a == placements.len() || pos_lt(q.pos, placements@[a as int]))
                            ==> move_delta(g, q) <= d && (move_delta(g, q) == d ==> !move_lt(q, bm))
                },
            },
        decreases placements.len() - a,
    {
        let pos = placements[a];
        let line_idx = if scores_rows(player) {
            pos.row as usize
        } else {
            pos.col as usize
        };
        proof {
            assert(g.board.playable(pos.row as int, pos.col as int));
            assert(line_idx == line_of(g.turn, pos));
        }
        if is_target[line_idx] {
            let line = game.board.line(player, line_idx);
            proof {
                lemma_lines_countable(g, player, line_idx as int);
            }
            proof {
                crate::scoring::lemma_short_line_counts_fit(line@);
            }
            let counts = line_counts(&line);
            let mut k: usize = 0;
            while k < cards.len()
                invariant
                    g == *game,
                    game.wf(),
                    player == g.turn,
                    hand == g.hand_of(g.turn),
                    a < placements.len(),
                    pos == placements@[a as int],
                    g.board.playable(pos.row as int, pos.col as int),
                    line_idx == line_of(g.turn, pos),
                    is_target_line(g, line_idx as int),
                    counts@ == spec_line_counts(g.board.line_view(g.turn, line_idx as int)),
                    forall|q: Move| #[trigger] is_target_move(g, q) ==> placements@.contains(q.pos),
                    forall|i: int, j: int| 0 <= i < j < placements.len() ==> pos_lt(#[trigger] placements@[i], #[trigger] placements@[j]),
                    k <= cards.len(),
                    forall|i: int| 0 <= i < cards.len() ==> hand.holds(#[trigger] cards@[i].0 as int),
                    forall|q: Move| #[trigger] is_target_move(g, q) ==> cards@.contains(q.card),
                    forall|i: int, j: int| 0 <= i < j < cards.len() ==> (#[trigger] cards@[i]).0 < (#[trigger] cards@[j]).0,
                    match best {
                        None => {
                            &&& k == 0
                            &&& forall|q: Move, b: int|
                                #![trigger is_target_move(g, q), placements@[b]]
                                is_target_move(g, q) && 0 <= b < a ==> placements@[b] != q.pos
                        },
                        Some((d, bm)) => {
                            &&& is_target_move(g, bm)
                            &&& d == move_delta(g, bm)
                            &&& (pos_lt(bm.pos, pos) || (bm.pos == pos && k > 0 && bm.card.0 <= cards@[k - 1].0))
                            &&& forall|q: Move|
                                #[trigger] is_target_move(g, q) && (pos_lt(q.pos, pos) || (q.pos == pos && k > 0 && q.card.0
                                    <= cards@[k - 1].0)) ==> move_delta(g, q) <= d && (move_delta(g, q) == d ==> !move_lt(q, bm))
                        },
                    },
                decreases cards.len() - k,
            {
                let card = cards[k];
                proof {
                    g.hand_of(g.turn).lemma_view_len();
                }
                let delta = score_delta(&counts, card);
                let mv = Move { pos, card };
                proof {
                    assert(hand.holds(card.0 as int));
                    assert(g.is_legal(mv));
                    assert(is_target_move(g, mv));
                    if k > 0 {
                        assert(cards@[k - 1].0 < card.0);
                    }
                }
                let replace = match best {
                    None => true,
                    Some((d, _)) => delta > d,
                };
                let ghost old_best = best;
                if replace {
                    best = Some((delta, mv));
                }
                proof {
                    assert forall|q: Move|
                        #[trigger] is_target_move(g, q) && (pos_lt(q.pos, pos) || (q.pos == pos && q.card.0 <= card.0))
                            implies move_delta(g, q) <= best->Some_0.0 && (move_delta(g, q) == best->Some_0.0 ==> !move_lt(
                            q,
                            best->Some_0.1,
                        )) by {
                        if old_best is None {
                            assert(placements@.contains(q.pos));
                            let b = choose|b: int| 0 <= b < placements.len() && placements@[b] == q.pos;
                            if pos_lt(q.pos, pos) {
                                if b >= a {
                                    if b > a {
                                        assert(pos_lt(placements@[a as int], placements@[b]));
                                    }
                                }
                                assert(placements@[b] != q.pos);
                            } else {
                                assert(cards@.contains(q.card));
                                let c = choose|c: int| 0 <= c < cards.len() && cards@[c] == q.card;
                                if c > 0 {
                                    assert(cards@[0].0 < cards@[c].0);
                                }
                                assert(q == mv);
                            }
                        } else if q.pos == pos && q.card.0 == card.0 {
                            assert(q == mv);
                        } else if q.pos == pos && q.card.0 < card.0 {
                            assert(cards@.contains(q.card));
                            let c = choose|c: int| 0 <= c < cards.len() && cards@[c] == q.card;
                            if c >= k {
                                if c > k {
                                    assert(cards@[k as int].0 < cards@[c].0);
                                }
                            }
                            assert(c < k);
                            if c < k - 1 {
                                assert(cards@[c].0 < cards@[k - 1].0);
                            }
                        }
                    }
                }
                k += 1;
            }
            proof {
                if best is None {
                    assert forall|q: Move, b: int|
                        #![trigger is_target_move(g, q), placements@[b]]
                        is_target_move(g, q) && 0 <= b < a + 1 implies placements@[b] != q.pos by {
                        assert(cards@.contains(q.card));
                    }
                } else {
                    assert forall|q: Move|
                        #[trigger] is_target_move(g, q) && (a + 1 == placements.len() || pos_lt(q.pos, placements@[a + 1]))
                            implies (pos_lt(q.pos, pos) || (q.pos == pos && k > 0 && q.card.0 <= cards@[k - 1].0)) by {
                        assert(placements@.contains(q.pos));
                        let b = choose|b: int| 0 <= b < placements.len() && placements@[b] == q.pos;
                        if b > a {
                            if b > a + 1 {
                                assert(pos_lt(placements@[a + 1], placements@[b]));
                            }
                            assert(false);
                        } else if b < a {
                            assert(pos_lt(placements@[b], placements@[a as int]));
                        } else {
                            assert(cards@.contains(q.card));
                            let c = choose|c: int| 0 <= c < cards.len() && cards@[c] == q.card;
                            if c < k - 1 {
                                assert(cards@[c].0 < cards@[k - 1].0);
                            }
                        }
                    }
                    if a + 1 < placements.len() {
                        assert(pos_lt(placements@[a as int], placements@[a + 1]));
                    }
                }
            }
        } else {
            proof {
                assert forall|q: Move| #[trigger] is_target_move(g, q) implies q.pos != pos by {
                    if q.pos == pos {
                        assert(line_of(g.turn, q.pos) == line_idx);
                    }
                }
                if best is Some {
                    assert forall|q: Move|
                        #[trigger] is_target_move(g, q) && (a + 1 == placements.len() || pos_lt(q.pos, placements@[a + 1]))
                            implies pos_lt(q.pos, placements@[a as int]) by {
                        assert(placements@.contains(q.pos));
                        let b = choose|b: int| 0 <= b < placements.len() && placements@[b] == q.pos;
                        if b > a {
                            if b > a + 1 {
                                assert(pos_lt(placements@[a + 1], placements@[b]));
                            }
                            assert(false);
                        } else {
                            assert(b != a);
                            assert(pos_lt(placements@[b], placements@[a as int]));
                        }
                    }
                    if a + 1 < placements.len() {
                        assert(pos_lt(placements@[a as int], placements@[a + 1]));
                    }
                }
            }
        }
        a += 1;
    }
    match best {
        Some((_, m)) => {
            proof {
                assert(has_target_move(g));
            }
            m
        },
        None => {
            proof {
                assert forall|q: Move| !#[trigger] is_target_move(g, q) by {
                    if is_target_move(g, q) {
                        assert(placements@.contains(q.pos));
                        let b = choose|b: int| 0 <= b < placements.len() && placements@[b] == q.pos;
                    }
                }
            }
            greedy_move(game)
        },
    }
}

/// The position cannot go on: the board is full or the player to move has no legal move.
pub open spec fn stuck<const N: usize>(g: GameState<N>) -> bool {
    g.board.full() || !g.has_legal_move()
}

/// Every move of `ms` is the greedy choice of the state it is played in, and none of those
/// states is stuck.
pub open spec fn greedy_run<const N: usize>(g: GameState<N>, ms: Seq<Move>) -> bool {
    forall|k: int|
        0 <= k < ms.len() ==> !stuck(#[trigger] replay(g, ms.take(k))) && is_greedy_choice(replay(g, ms.take(k)), ms[k])
}

/// `ms` is the greedy playout of `g`: greedy moves until the position is stuck.
pub open spec fn greedy_playout<const N: usize>(g: GameState<N>, ms: Seq<Move>) -> bool {
    greedy_run(g, ms) && stuck(replay(g, ms))
}

/// `s` is the projected score of `opp` from `g`: their weakest line once both sides play greedy
/// until the position is stuck.
pub open spec fn projects<const N: usize>(g: GameState<N>, opp: Player, s: int) -> bool {
    exists|ms: Seq<Move>| #[trigger] greedy_playout(g, ms) && s == weakest_score(replay(g, ms).board, opp)
}

/// Extending a greedy run by the greedy choice of a state that is not stuck.
pub proof fn lemma_greedy_run_push<const N: usize>(g: GameState<N>, ms: Seq<Move>, m: Move)
    requires
        greedy_run(g, ms),
        !stuck(replay(g, ms)),
        is_greedy_choice(replay(g, ms), m),
    ensures
        greedy_run(g, ms.push(m)),
        replay(g, ms.push(m)) == replay(g, ms).after(m),
{
    let ext = ms.push(m);
    assert(ext.drop_last() =~= ms);
    assert forall|k: int| 0 <= k < ext.len() implies !stuck(#[trigger] replay(g, ext.take(k))) && is_greedy_choice(
        replay(g, ext.take(k)),
        ext[k],
    ) by {
        if k < ms.len() {
            assert(ext.take(k) =~= ms.take(k));
            assert(!stuck(replay(g, ms.take(k))));
        } else {
            assert(ext.take(k) =~= ms);
        }
    }
}

/// Two greedy runs agree on their common length.
proof fn lemma_greedy_runs_agree<const N: usize>(g: GameState<N>, ms1: Seq<Move>, ms2: Seq<Move>, k: int)
    requires
        greedy_run(g, ms1),
        greedy_run(g, ms2),
        0 <= k <= ms1.len(),
        k <= ms2.len(),
    ensures
        ms1.take(k) == ms2.take(k),
    decreases k,
{
    if k == 0 {
        assert(ms1.take(0) =~= ms2.take(0));
    } else {
        lemma_greedy_runs_agree(g, ms1, ms2, k - 1);
        assert(!stuck(replay(g, ms1.take(k - 1))));
        assert(!stuck(replay(g, ms2.take(k - 1))));
        lemma_greedy_choice_unique(replay(g, ms1.take(k - 1)), ms1[k - 1], ms2[k - 1]);
        assert(ms1.take(k) =~= ms1.take(k - 1).push(ms1[k - 1]));
        assert(ms2.take(k) =~= ms2.take(k - 1).push(ms2[k - 1]));
    }
}

/// A position has one greedy playout.
pub proof fn lemma_greedy_playout_unique<const N: usize>(g: GameState<N>, ms1: Seq<Move>, ms2: Seq<Move>)
    requires
        greedy_playout(g, ms1),
        greedy_playout(g, ms2),
    ensures
        ms1 == ms2,
{
    if ms1.len() < ms2.len() {
        lemma_greedy_runs_agree(g, ms1, ms2, ms1.len() as int);
        assert(ms1.take(ms1.len() as int) =~= ms1);
        assert(!stuck(replay(g, ms2.take(ms1.len() as int))));
    } else if ms2.len() < ms1.len() {
        lemma_greedy_runs_agree(g, ms1, ms2, ms2.len() as int);
        assert(ms2.take(ms2.len() as int) =~= ms2);
        assert(!stuck(replay(g, ms1.take(ms2.len() as int))));
    } else {
        lemma_greedy_runs_agree(g, ms1, ms2, ms1.len() as int);
        assert(ms1.take(ms1.len() as int) =~= ms1);
        assert(ms2.take(ms2.len() as int) =~= ms2);
    }
}

/// A position projects one score for each player.
pub proof fn lemma_projects_unique<const N: usize>(g: GameState<N>, opp: Player, s1: int, s2: int)
    requires
        projects(g, opp, s1),
        projects(g, opp, s2),
    ensures
        s1 == s2,
{
    let ms1 = choose|ms: Seq<Move>| #[trigger] greedy_playout(g, ms) && s1 == weakest_score(replay(g, ms).board, opp);
    let ms2 = choose|ms: Seq<Move>| #[trigger] greedy_playout(g, ms) && s2 == weakest_score(replay(g, ms).board, opp);
    lemma_greedy_playout_unique(g, ms1, ms2);
}

/// Project what score the opponent could reach if both sides play greedy from here: simulate
/// greedy moves until the board is full, then return `opponent`'s weakest line score.
///
/// A position where the player to move holds no playable card ends the simulation early.
pub fn project_opponent_score<const N: usize>(game: &GameState<N>, opponent: Player) -> (r: u16)
    requires
        game.wf(),
    ensures
        projects(*game, opponent, r as int),
{
    let mut sim = *game;
    let ghost mut ms: Seq<Move> = Seq::empty();
    proof {
        assert(replay(*game, ms) == *game);
    }
    loop
        invariant
            sim.wf(),
            sim == replay(*game, ms),
            greedy_run(*game, ms),
        ensures
            sim.wf(),
            sim == replay(*game, ms),
            greedy_playout(*game, ms),
        decreases empty_cells(sim.board),
    {
        if sim.outcome().is_some() {
            break;
        }
        let moves = sim.valid_moves();
        if moves.len() == 0 {
            proof {
                if sim.has_legal_move() {
                    let m = choose|m: Move| #[trigger] sim.is_legal(m);
                    assert(moves@.contains(m));
                }
            }
            break;
        }
        proof {
            assert(sim.is_legal(moves@[0]));
        }
        let mv = greedy_move(&sim);
        proof {
            lemma_greedy_run_push(*game, ms, mv);
            lemma_play_fills_cell(sim, mv);
        }
        sim = match sim.clone_and_play(mv) {
            Ok(next) => next,
            Err(_) => vstd::pervasive::unreached(),
        };
        proof {
            ms = ms.push(mv);
        }
    }
    let (score, line) = player_score(&sim.board, opponent);
    proof {
        lemma_weakest_unique(sim.board, opponent, score as int, line as int);
    }
    score
}

/// The opponent's weakest line score (see [`project_opponent_score`]).
pub fn opponent_min_score<const N: usize>(board: &crate::board::Board<N>, player: Player) -> (r: u16)
    requires
        1 <= N <= MAX_BOARD_SIZE,
        crate::scoring::board_countable(*board),
    ensures
        r == weakest_score(*board, player),
{
    let (score, line) = player_score(board, player);
    proof {
        lemma_weakest_unique(*board, player, score as int, line as int);
    }
    score
}

/// `ms` lists the legal moves of `g`, each once, in position-then-card order.
pub open spec fn sorted_legal<const N: usize>(g: GameState<N>, ms: Seq<Move>) -> bool {
    &&& forall|i: int| 0 <= i < ms.len() ==> g.is_legal(#[trigger] ms[i])
    &&& forall|m: Move| #[trigger] g.is_legal(m) ==> ms.contains(m)
    &&& forall|i: int, j: int| 0 <= i < j < ms.len() ==> move_lt(#[trigger] ms[i], #[trigger] ms[j])
}

/// Among the first `n` moves of `ms`, move `k` leaves the opponent the lowest projected score,
/// and is the first to do so.
pub open spec fn first_least_projection<const N: usize>(g: GameState<N>, ms: Seq<Move>, n: int, k: int) -> bool {
    &&& 0 <= k < n <= ms.len()
    &&& exists|s: int|
        #[trigger] projects(g.after(ms[k]), g.turn.other(), s) && forall|j: int, sj: int|
            0 <= j < n && #[trigger] projects(g.after(ms[j]), g.turn.other(), sj) ==> s <= sj && (j < k ==> s < sj)
}

/// `m` is the averse move with `fuel`: among the first `fuel` legal moves in position-then-card
/// order, the first that leaves the opponent the lowest projected score.
pub open spec fn is_averse_choice<const N: usize>(g: GameState<N>, fuel: int, m: Move) -> bool {
    exists|ms: Seq<Move>, k: int|
        #![trigger sorted_legal(g, ms), first_least_projection(g, ms, min_int(fuel, ms.len() as int), k)]
        sorted_legal(g, ms) && first_least_projection(g, ms, min_int(fuel, ms.len() as int), k) && ms[k] == m
}

/// Bounded sadist: minimizes the opponent's projected score, modelling both sides as greedy
/// instead of enumerating, and looks at no more than `fuel` moves.
#[derive(Clone, Copy, Debug, PartialEq, Eq, Structural)]
pub struct Averse {
    pub fuel: u32,
}

impl Default for Averse {
    /// Averse with 1000 fuel.
    fn default() -> (r: Self)
        ensures
            r.fuel == 1000,
    {
        Averse { fuel: 1000 }
    }
}

impl Averse {
    /// Averse with the given fuel.
    pub fn new(fuel: u32) -> (r: Self)
        ensures
            r.fuel == fuel,
    {
        Averse { fuel }
    }

    /// The averse move: see [`is_averse_choice`].
    pub fn pick<const N: usize>(&self, game: &GameState<N>) -> (m: Move)
        requires
            game.wf(),
            game.has_legal_move(),
            self.fuel > 0,
        ensures
            is_averse_choice(*game, self.fuel as int, m),
            game.is_legal(m),
    {
        let opponent = game.turn.other();
        let moves = game.valid_moves();
        let ghost ms = moves@;
        let mut best: Option<(Move, u16)> = None;
        let ghost mut best_k: int = 0;
        let mut fuel_remaining = self.fuel;
        let mut i: usize = 0;
        while i < moves.len() && fuel_remaining > 0
            invariant
                game.wf(),
                opponent == game.turn.other(),
                ms == moves@,
                sorted_legal(*game, ms),
                i <= moves.len(),
                fuel_remaining == self.fuel - i,
                i > 0 ==> best is Some,
                match best {
                    None => true,
                    Some((bm, bs)) => {
                        &&& 0 <= best_k < i
                        &&& ms[best_k] == bm
                        &&& projects(game.after(bm), opponent, bs as int)
                        &&& forall|j: int, sj: int|
                            0 <= j < i && #[trigger] projects(game.after(ms[j]), opponent, sj) ==> bs <= sj && (j < best_k
                                ==> bs < sj)
                    },
                },
            decreases moves.len() - i,
        {
            fuel_remaining -= 1;
            let m = moves[i];
            let next = match game.clone_and_play(m) {
                Ok(n) => n,
                Err(_) => vstd::pervasive::unreached(),
            };
            let opp_score = project_opponent_score(&next, opponent);
            proof {
                assert forall|sj: int| #[trigger] projects(game.after(m), opponent, sj) implies sj == opp_score by {
                    lemma_projects_unique(game.after(m), opponent, sj, opp_score as int);
                }
            }
            let replace = match best {
                None => true,
                Some((_, bs)) => opp_score < bs,
            };
            if replace {
                best = Some((m, opp_score));
                proof {
                    best_k = i as int;
                }
            }
            i += 1;
        }
        proof {
            let n = min_int(self.fuel as int, ms.len() as int);
            assert(i == n);
            let m0 = choose|m0: Move| #[trigger] game.is_legal(m0);
            assert(ms.contains(m0));
        }
        match best {
            Some((bm, bs)) => {
                proof {
                    let n = min_int(self.fuel as int, ms.len() as int);
                    assert(projects(game.after(ms[best_k]), game.turn.other(), bs as int));
                    assert(first_least_projection(*game, ms, n, best_k));
                }
                bm
            },
            None => vstd::pervasive::unreached(),
        }
    }
}

/// `m` is the rollout bot's move: greedy without finished lines; the targeting move when a
/// target line has a legal move (else greedy); otherwise the averse move with the rollout's fuel.
pub open spec fn is_rollout_choice<const N: usize>(g: GameState<N>, m: Move) -> bool {
    match spec_mode(g) {
        Mode::Greedy => is_greedy_choice(g, m),
        Mode::TargetWeak => if has_target_move(g) {
            is_target_choice(g, m)
        } else {
            is_greedy_choice(g, m)
        },
        Mode::Averse => is_averse_choice(g, ROLLOUT_AVERSE_FUEL as int, m),
    }
}

/// The rollout bot's move for the player to move: see [`is_rollout_choice`].
pub fn rollout_move<const N: usize>(game: &GameState<N>) -> (m: Move)
    requires
        game.wf(),
        game.has_legal_move(),
    ensures
        is_rollout_choice(*game, m),
        game.is_legal(m),
{
    let analysis = LineAnalysis::new(game);
    proof {
        lemma_mode_of_analysis(analysis, *game);
    }
    match analysis.mode() {
        Mode::Greedy => greedy_move(game),
        Mode::TargetWeak => target_weak(game, &analysis),
        Mode::Averse => Averse::new(ROLLOUT_AVERSE_FUEL).pick(game),
    }
}

impl<const N: usize> Bot<N> for Rollout {
    /// The rollout bot's choices: see [`is_rollout_choice`].
    open spec fn chooses(&self, g: GameState<N>, m: Move) -> bool {
        is_rollout_choice(g, m)
    }

    /// The rollout bot's move: see [`is_rollout_choice`].
    fn choose_move(&mut self, game: &GameState<N>) -> (m: Move)
        ensures
            is_rollout_choice(*game, m),
    {
        rollout_move(game)
    }
}

} // verus!
