use vstd::prelude::*;

verus! {

/// Result of a match from the first player's point of view.
#[derive(Clone, Copy, Debug, PartialEq, Eq, Structural)]
pub enum Outcome {
    P1Win,
    P2Win,
    Draw,
}

/// The outcome decided by the two final scores: the higher score wins, equal scores draw.
pub open spec fn spec_outcome_of_scores(p1_score: int, p2_score: int) -> Outcome {
    if p1_score > p2_score {
        Outcome::P1Win
    } else if p1_score < p2_score {
        Outcome::P2Win
    } else {
        Outcome::Draw
    }
}

/// The outcome of a match with the given final scores.
pub fn outcome_of_scores(p1_score: u16, p2_score: u16) -> (r: Outcome)
    ensures
        r == spec_outcome_of_scores(p1_score as int, p2_score as int),
{
    if p1_score > p2_score {
        Outcome::P1Win
    } else if p1_score < p2_score {
        Outcome::P2Win
    } else {
        Outcome::Draw
    }
}

/// Swapping the two players swaps a win into a loss and keeps a draw.
pub proof fn lemma_outcome_swap(a: int, b: int)
    ensures
        spec_outcome_of_scores(a, b) == match spec_outcome_of_scores(b, a) {
            Outcome::P1Win => Outcome::P2Win,
            Outcome::P2Win => Outcome::P1Win,
            Outcome::Draw => Outcome::Draw,
        },
{
}

} // verus!
