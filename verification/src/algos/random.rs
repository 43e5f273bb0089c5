use vstd::prelude::*;

use crate::game::{GameState, Move};
use crate::player::Bot;
use crate::rng::{choose_move_from, fresh_rng};

verus! {

/// Parameters of the random player (it has none).
#[derive(Clone, Copy, Debug, Default, PartialEq, Eq, Structural)]
pub struct Random {}

/// Plays a uniformly chosen legal move.
#[derive(Clone, Debug)]
pub struct RandomPlayer {
    params: Random,
    rng: rand::rngs::SmallRng,
}

impl RandomPlayer {
    /// The generator the player draws its moves from.
    pub closed spec fn generator(self) -> rand::rngs::SmallRng {
        self.rng
    }

    /// A random player seeded from the operating system.
    pub fn new() -> Self {
        RandomPlayer { params: Random {}, rng: fresh_rng() }
    }

    /// A random player drawing from the given generator.
    pub fn with_rng(rng: rand::rngs::SmallRng) -> (r: Self)
        ensures
            r.generator() == rng,
    {
        RandomPlayer { params: Random {}, rng }
    }
}

impl Default for RandomPlayer {
    /// A random player seeded from the operating system.
    fn default() -> Self {
        RandomPlayer::new()
    }
}

/// A random legal move of the player to move, or `None` if there is none.
pub fn random_move<const N: usize>(state: &GameState<N>, rng: &mut rand::rngs::SmallRng) -> (r: Option<Move>)
    requires
        N <= crate::board::MAX_BOARD_SIZE,
    ensures
        r is None <==> !state.has_legal_move(),
        r matches Some(m) ==> state.is_legal(m),
{
    let moves = state.valid_moves();
    let ghost mv = moves@;
    let r = choose_move_from(moves, rng);
    proof {
        if state.has_legal_move() {
            let m = choose|m: Move| #[trigger] state.is_legal(m);
            assert(mv.contains(m));
        }
        if let Some(m) = r {
            let k = choose|k: int| 0 <= k < mv.len() && mv[k] == m;
            assert(state.is_legal(mv[k]));
        }
    }
    r
}

impl<const N: usize> Bot<N> for RandomPlayer {
    /// Any legal move.
    open spec fn chooses(&self, g: GameState<N>, m: Move) -> bool {
        g.is_legal(m)
    }

    /// A uniformly random legal move.
    fn choose_move(&mut self, game: &GameState<N>) -> (m: Move) {
        random_move(game, &mut self.rng).unwrap()
    }
}

} // verus!
