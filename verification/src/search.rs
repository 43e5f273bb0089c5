use vstd::prelude::*;

use crate::game::{move_lt, GameState, Move, Outcome, Player};
use crate::player::Bot;
use crate::progress::{
    balanced, empty_cells, lemma_balanced_has_move, lemma_full_no_empty, lemma_legal_run_push,
    lemma_play_keeps_balanced, legal_run, replay,
};

verus! {

/// The value of a finished game for `player`: 1 for a win, -1 for a loss, 0 for a draw.
pub open spec fn outcome_value(o: Outcome, player: Player) -> int {
    match o {
        Outcome::WonBy(w) => if w == player {
            1
        } else {
            -1
        },
        Outcome::Draw => 0,
    }
}

/// A bot wrapped in a tree search over an evaluator, built from a number of simulations.
pub trait SearchBot<E, const N: usize>: Bot<N> + Sized {
    /// The search bot running `sims` simulations per move over `evaluator`.
    fn with_sims(evaluator: E, sims: u32) -> Self;
}

/// Evaluates a position by letting a bot play both sides to the end.
pub struct RolloutEval<B> {
    bot: B,
}

impl<B> RolloutEval<B> {
    /// The evaluator that plays `bot`.
    pub fn new(bot: B) -> (r: Self)
        ensures
            r.bot() == bot,
    {
        RolloutEval { bot }
    }

    /// The bot that plays the rollouts.
    pub closed spec fn bot(&self) -> B {
        self.bot
    }

    /// The policy and value of `state`: every legal move with weight 1, in the order of
    /// [`GameState::valid_moves`], and the outcome, for the player to move, of a game that a clone
    /// of the bot plays to the end from `state`, every move one the clone may pick.
    pub fn evaluate<const N: usize>(&self, state: &GameState<N>) -> (r: (Vec<Move>, i8)) where
        B: Bot<N> + Clone,

        requires
            state.wf(),
            balanced(*state),
        ensures
            forall|i: int| 0 <= i < r.0.len() ==> state.is_legal(#[trigger] r.0@[i]),
            forall|m: Move| #[trigger] state.is_legal(m) ==> r.0@.contains(m),
            forall|i: int, j: int| 0 <= i < j < r.0.len() ==> move_lt(#[trigger] r.0@[i], #[trigger] r.0@[j]),
            exists|moves: Seq<Move>, c: B|
                #![trigger cloned(self.bot(), c), replay(*state, moves)]
                {
                    &&& cloned(self.bot(), c)
                    &&& forall|k: int| 0 <= k < moves.len() ==> #[trigger] c.chooses(replay(*state, moves.take(k)), moves[k])
                    &&& legal_run(*state, moves)
                    &&& moves.len() == empty_cells(state.board)
                    &&& replay(*state, moves).board.full()
                    &&& r.1 == outcome_value(replay(*state, moves).spec_outcome()->0, state.turn)
                },
    {
        let policy = state.valid_moves();
        let mut sim = *state;
        let mut bot = self.bot.clone();
        let ghost c = bot;
        let ghost mut moves: Seq<Move> = Seq::empty();
        proof {
            assert(replay(*state, moves) == *state);
        }
        while !sim.is_done()
            invariant
                state.wf(),
                balanced(*state),
                legal_run(*state, moves),
                sim == replay(*state, moves),
                sim.wf(),
                balanced(sim),
                moves.len() + empty_cells(sim.board) == empty_cells(state.board),
                forall|k: int| 0 <= k < moves.len() ==> #[trigger] c.chooses(replay(*state, moves.take(k)), moves[k]),
                forall|g: GameState<N>, mv: Move| #[trigger] bot.chooses(g, mv) == c.chooses(g, mv),
            decreases empty_cells(sim.board),
        {
            proof {
                lemma_balanced_has_move(sim);
            }
            let m = bot.choose_move(&sim);
            let next = match sim.clone_and_play(m) {
                Ok(g) => g,
                Err(_) => vstd::pervasive::unreached(),
            };
            proof {
                lemma_play_keeps_balanced(sim, m);
                lemma_legal_run_push(*state, moves, m);
                let old_moves = moves;
                moves = moves.push(m);
                assert forall|k: int| 0 <= k < moves.len() implies #[trigger] c.chooses(replay(*state, moves.take(k)), moves[k]) by {
                    if k < old_moves.len() {
                        assert(moves.take(k) =~= old_moves.take(k));
                    } else {
                        assert(moves.take(k) =~= old_moves);
                    }
                }
            }
            sim = next;
        }
        proof {
            lemma_full_no_empty(sim.board);
        }
        let value: i8 = match sim.outcome() {
            Some(Outcome::WonBy(w)) => if w == state.turn {
                1
            } else {
                -1
            },
            Some(Outcome::Draw) => 0,
            None => vstd::pervasive::unreached(),
        };
        proof {
            assert(cloned(self.bot(), c));
            assert(replay(*state, moves) == sim);
        }
        (policy, value)
    }
}

} // verus!
