use vstd::prelude::*;

use crate::algos::greedy_max::{greedy_move, is_greedy_choice};
use crate::game::{GameState, Move};
use crate::player::Bot;

verus! {

/// Greedy player: maximizes immediate score delta on own lines.
///
/// For each of the player's lines with a playable cell, takes the first such cell and scores
/// every card in hand by `score_delta`; plays the best (card, cell): highest delta, then lowest
/// card value, then lowest line. Treats each line independently, with no lookahead.
#[derive(Clone, Copy, Debug, Default, PartialEq, Eq, Structural)]
pub struct GreedyPlayer;

impl GreedyPlayer {
    /// The player's id, `greedy`.
    pub fn id(&self) -> (r: String)
        ensures
            r@ == "greedy"@,
    {
        "greedy".to_string()
    }
}

impl<const N: usize> Bot<N> for GreedyPlayer {
    /// The greedy choices: see [`is_greedy_choice`].
    open spec fn chooses(&self, g: GameState<N>, m: Move) -> bool {
        is_greedy_choice(g, m)
    }

    /// The greedy move: see [`is_greedy_choice`].
    fn choose_move(&mut self, game: &GameState<N>) -> (m: Move)
        ensures
            is_greedy_choice(*game, m),
    {
        greedy_move(game)
    }
}

} // verus!
