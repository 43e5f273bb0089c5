use vstd::prelude::*;
use vstd::relations::{sorted_by, total_ordering};

use crate::board::{pos_lt, Board, Pos, EMPTY, MAX_BOARD_SIZE};
use crate::cards::CardValue;
use crate::game::{GameState, Move, Player};
use crate::player::Bot;
use crate::scoring::{board_countable, line_score, score_of_line, LINE_COUNT_SLOTS};
use crate::sorting::{
    lemma_lex_transitive, lemma_lex_trichotomy, lex_less, lex_lt, scores_equal, sort_scores, u16_leq,
};

verus! {

/// The mover's line scores after `m` is placed, line by line.
pub open spec fn scores_after<const N: usize>(g: GameState<N>, m: Move) -> Seq<u16> {
    Seq::new(
        N as nat,
        |i: int| line_score(g.board.with_cell(m.pos.row as int, m.pos.col as int, m.card.0), g.turn, i) as u16,
    )
}

/// The mover's line scores after `m`, sorted ascending.
pub open spec fn sorted_scores_after<const N: usize>(g: GameState<N>, m: Move) -> Seq<u16> {
    scores_after(g, m).sort_by(u16_leq())
}

/// `m1` beats `m2` for the score-greedy player: a lexicographically larger sorted score vector, then a
/// smaller card, then an earlier cell.
pub open spec fn score_prefers<const N: usize>(g: GameState<N>, m1: Move, m2: Move) -> bool {
    let s1 = sorted_scores_after(g, m1);
    let s2 = sorted_scores_after(g, m2);
    ||| lex_lt(s2, s1)
    ||| (s1 == s2 && m1.card.0 < m2.card.0)
    ||| (s1 == s2 && m1.card.0 == m2.card.0 && pos_lt(m1.pos, m2.pos))
}

/// `m` is the score-greedy move: legal, and no legal move beats it (see [`score_prefers`]).
pub open spec fn is_score_greedy_choice<const N: usize>(g: GameState<N>, m: Move) -> bool {
    &&& g.is_legal(m)
    &&& forall|m2: Move| #[trigger] g.is_legal(m2) ==> !score_prefers(g, m2, m)
}

/// Ascending order on `u16` is a total order.
pub proof fn lemma_u16_leq_total()
    ensures
        total_ordering(u16_leq()),
{
}

/// The score-greedy preference is transitive.
pub proof fn lemma_score_prefers_transitive<const N: usize>(g: GameState<N>, a: Move, b: Move, c: Move)
    requires
        score_prefers(g, a, b),
        score_prefers(g, b, c),
    ensures
        score_prefers(g, a, c),
{
    let sa = sorted_scores_after(g, a);
    let sb = sorted_scores_after(g, b);
    let sc = sorted_scores_after(g, c);
    lemma_lex_trichotomy(sa, sb);
    lemma_lex_trichotomy(sb, sc);
    lemma_lex_trichotomy(sa, sc);
    if lex_lt(sb, sa) && lex_lt(sc, sb) {
        lemma_lex_transitive(sc, sb, sa);
    }
}

/// Greedy player: maximizes the sorted line-score vector.
///
/// For each candidate move, simulates placing the card, computes every line's
/// score, sorts them, and picks the move whose sorted vector is lexicographically
/// largest. This raises the weakest line first.
///
/// Tiebreak: lexicographically largest score vector, then lowest card value,
/// then lowest (row, col).
#[derive(Clone, Copy, Debug, Default, PartialEq, Eq)]
pub struct GreedyForScore {}

/// The mover's line scores after `m`, sorted ascending.
pub fn sorted_scores_of<const N: usize>(g: &GameState<N>, m: Move) -> (r: Vec<u16>)
    requires
        g.wf(),
        g.is_legal(m),
    ensures
        r@ == sorted_scores_after(*g, m),
{
    let mut b = g.board;
    b.set(m.pos, m.card.0);
    proof {
        assert(board_countable(b)) by {
            assert forall|r: int, c: int| 0 <= r < N && 0 <= c < N implies #[trigger] b.cell(r, c) == EMPTY
                || b.cell(r, c) < LINE_COUNT_SLOTS by {
                assert(g.board.cell(r, c) == EMPTY || g.board.cell(r, c) <= N);
            }
        }
    }
    let mut scores: Vec<u16> = Vec::new();
    let mut i: usize = 0;
    while i < N
        invariant
            g.wf(),
            board_countable(b),
            b == g.board.with_cell(m.pos.row as int, m.pos.col as int, m.card.0),
            i <= N,
            scores@ == scores_after(*g, m).take(i as int),
        decreases N - i,
    {
        let s = score_of_line(&b, g.turn, i);
        scores.push(s);
        i += 1;
        proof {
            assert(scores@ =~= scores_after(*g, m).take(i as int));
        }
    }
    let ghost unsorted = scores@;
    sort_scores(&mut scores);
    proof {
        assert(unsorted =~= scores_after(*g, m));
        lemma_u16_leq_total();
        unsorted.lemma_sort_by_ensures(u16_leq());
        vstd::seq_lib::lemma_sorted_unique(scores@, unsorted.sort_by(u16_leq()), u16_leq());
    }
    scores
}

/// The score-greedy move of the player to move.
pub fn score_greedy_move<const N: usize>(game: &GameState<N>) -> (m: Move)
    requires
        game.wf(),
        game.has_legal_move(),
    ensures
        is_score_greedy_choice(*game, m),
{
    let moves = game.valid_moves();
    let ghost g = *game;
    let mut best: Option<(Vec<u16>, Move)> = None;
    let mut k: usize = 0;
    while k < moves.len()
        invariant
            g == *game,
            game.wf(),
            k <= moves.len(),
            forall|i: int| 0 <= i < moves.len() ==> g.is_legal(#[trigger] moves@[i]),
            forall|mm: Move| #[trigger] g.is_legal(mm) ==> moves@.contains(mm),
            forall|i: int, j: int| 0 <= i < j < moves.len() ==> crate::game::move_lt(#[trigger] moves@[i], #[trigger] moves@[j]),
            match best {
                Some((bs, bm)) => {
                    &&& g.is_legal(bm)
                    &&& bs@ == sorted_scores_after(g, bm)
                    &&& forall|i: int| 0 <= i < k ==> !score_prefers(g, #[trigger] moves@[i], bm)
                },
                None => k == 0,
            },
        decreases moves.len() - k,
    {
        let m = moves[k];
        let scores = sorted_scores_of(game, m);
        let ghost old_best = best;
        let take = match &best {
            None => true,
            Some((bs, bm)) => {
                let dominated = lex_less(&scores, bs) || (scores_equal(&scores, bs) && (m.card.0 > bm.card.0 || (
                m.card.0 == bm.card.0 && !(m.pos.row < bm.pos.row || (m.pos.row == bm.pos.row && m.pos.col
                    < bm.pos.col)))));
                !dominated
            },
        };
        proof {
            if let Some((bs, bm)) = old_best {
                lemma_lex_trichotomy(scores@, bs@);
                assert(take == score_prefers(g, m, bm));
            }
        }
        if take {
            best = Some((scores, m));
            proof {
                assert forall|i: int| 0 <= i < k + 1 implies !score_prefers(g, #[trigger] moves@[i], m) by {
                    if i < k {
                        if let Some((bs, bm)) = old_best {
                            if score_prefers(g, moves@[i], m) {
                                lemma_score_prefers_transitive(g, moves@[i], m, bm);
                            }
                        }
                    } else {
                        let s = sorted_scores_after(g, m);
                        lemma_lex_trichotomy(s, s);
                    }
                }
            }
        }
        k += 1;
    }
    proof {
        let lm = choose|lm: Move| #[trigger] g.is_legal(lm);
        assert(moves@.contains(lm));
        match &best {
            Some((bs, bm)) => {
                assert forall|m2: Move| #[trigger] g.is_legal(m2) implies !score_prefers(g, m2, *bm) by {
                    assert(moves@.contains(m2));
                    let i = choose|i: int| 0 <= i < moves.len() && moves@[i] == m2;
                }
            },
            None => {},
        }
    }
    let (_, m) = best.unwrap();
    m
}

impl<const N: usize> Bot<N> for GreedyForScore {
    /// The score-greedy choices: see [`is_score_greedy_choice`].
    open spec fn chooses(&self, g: GameState<N>, m: Move) -> bool {
        is_score_greedy_choice(g, m)
    }

    /// The score-greedy move: see [`is_score_greedy_choice`].
    fn choose_move(&mut self, game: &GameState<N>) -> (m: Move)
        ensures
            is_score_greedy_choice(*game, m),
    {
        score_greedy_move(game)
    }
}

} // verus!
