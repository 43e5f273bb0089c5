use rand::seq::{IteratorRandom, SliceRandom};
use rand::{RngExt, SeedableRng};
use vstd::prelude::*;

use crate::cards::CardValue;
use crate::game::Move;

verus! {

/// `rand`'s small, fast pseudo-random generator, carried through opaquely.
#[verifier::external_type_specification]
#[verifier::external_body]
pub struct ExSmallRng(rand::rngs::SmallRng);

/// `SmallRng`'s derived `Clone`: a generator in the same state. Nothing is claimed about the state.
pub assume_specification[ <rand::rngs::SmallRng as Clone>::clone ](rng: &rand::rngs::SmallRng) -> (r: rand::rngs::SmallRng);

/// Shuffles `deck` in place with `rand`'s `SliceRandom::shuffle` (a Fisher–Yates shuffle).
/// Claimed: the result is a permutation of the input (same length, same multiset of cards).
/// Which permutation comes out depends on the generator's state and is left unsaid.
#[verifier::external_body]
pub(crate) fn shuffle_cards(deck: &mut Vec<CardValue>, rng: &mut rand::rngs::SmallRng)
    ensures
        final(deck)@.len() == old(deck)@.len(),
        final(deck)@.to_multiset() == old(deck)@.to_multiset(),
{
    deck.shuffle(rng);
}

} // verus!

verus! {

/// `rand::make_rng::<SmallRng>()`: a generator seeded from the operating system's entropy.
/// Nothing is claimed about its state.
#[verifier::external_body]
pub(crate) fn fresh_rng() -> (r: rand::rngs::SmallRng) {
    rand::make_rng()
}

/// `SeedableRng::seed_from_u64`: a generator whose whole state follows from `seed`. Nothing is
/// claimed about that state.
#[verifier::external_body]
pub(crate) fn seeded_rng(seed: u64) -> (r: rand::rngs::SmallRng) {
    rand::rngs::SmallRng::seed_from_u64(seed)
}

/// `RngExt::random::<u64>`: the generator's next 64-bit number. Nothing is claimed about it.
#[verifier::external_body]
pub(crate) fn random_u64(rng: &mut rand::rngs::SmallRng) -> (r: u64) {
    rng.random::<u64>()
}

/// `RngExt::random::<bool>`: a fair coin flip from the generator. Nothing is claimed about it.
#[verifier::external_body]
pub(crate) fn random_bool(rng: &mut rand::rngs::SmallRng) -> (r: bool) {
    rng.random::<bool>()
}

/// `IteratorRandom::choose` over the moves: `None` exactly when there is no move, otherwise one of
/// them. Which one depends on the generator's state and is left unsaid.
#[verifier::external_body]
pub(crate) fn choose_move_from(moves: Vec<Move>, rng: &mut rand::rngs::SmallRng) -> (r: Option<Move>)
    ensures
        r is None <==> moves@.len() == 0,
        r matches Some(m) ==> moves@.contains(m),
{
    moves.into_iter().choose(rng)
}

} // verus!
