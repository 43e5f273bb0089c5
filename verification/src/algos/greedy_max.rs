use vstd::prelude::*;

use crate::board::{pos_lt, Pos, MAX_BOARD_SIZE};
use crate::cards::CardValue;
use crate::game::{scores_rows, GameState, Move, Player};
use crate::player::Bot;
use crate::scoring::{
    board_countable, cells_countable, delta_points, line_counts, score_delta, spec_line_counts,
    LineCounts,
};

verus! {

/// Index of the line of `turn` that position `p` lies on.
pub open spec fn line_of(turn: Player, p: Pos) -> int {
    if scores_rows(turn) {
        p.row as int
    } else {
        p.col as int
    }
}

/// `p` is the first playable cell, in row-major order, of the mover's line `i`.
pub open spec fn first_in_line<const N: usize>(g: GameState<N>, i: int, p: Pos) -> bool {
    &&& g.board.playable(p.row as int, p.col as int)
    &&& line_of(g.turn, p) == i
    &&& forall|q: Pos|
        #![trigger g.board.playable(q.row as int, q.col as int), line_of(g.turn, q)]
        g.board.playable(q.row as int, q.col as int) && line_of(g.turn, q) == i ==> !pos_lt(q, p)
}

/// Score change on the mover's line `i` if a card of value `c` joins it.
pub open spec fn line_delta<const N: usize>(g: GameState<N>, i: int, c: int) -> int {
    delta_points(c, spec_line_counts(g.board.line_view(g.turn, i))[c] as int)
}

/// Candidate `(i1, c1)` (line, card) beats `(i2, c2)`: larger delta, then smaller card, then smaller line.
pub open spec fn greedy_prefers<const N: usize>(g: GameState<N>, i1: int, c1: int, i2: int, c2: int) -> bool {
    let d1 = line_delta(g, i1, c1);
    let d2 = line_delta(g, i2, c2);
    d1 > d2 || (d1 == d2 && c1 < c2) || (d1 == d2 && c1 == c2 && i1 < i2)
}

/// `m` is the greedy move: among the first playable cell of each of the mover's lines and each card
/// held, it maximises the score delta on that line (then lowest card, then lowest line).
pub open spec fn is_greedy_choice<const N: usize>(g: GameState<N>, m: Move) -> bool {
    let i = line_of(g.turn, m.pos);
    &&& first_in_line(g, i, m.pos)
    &&& g.hand_of(g.turn).holds(m.card.0 as int)
    &&& forall|j: int, c: int, q: Pos|
        #![trigger first_in_line(g, j, q), g.hand_of(g.turn).holds(c)]
        first_in_line(g, j, q) && g.hand_of(g.turn).holds(c) ==> !greedy_prefers(g, j, c, i, m.card.0 as int)
}

/// The greedy choice is unique: the preference order is total on (line, card) candidates and
/// each line has one first playable cell.
pub proof fn lemma_greedy_choice_unique<const N: usize>(g: GameState<N>, m1: Move, m2: Move)
    requires
        is_greedy_choice(g, m1),
        is_greedy_choice(g, m2),
    ensures
        m1 == m2,
{
    let i1 = line_of(g.turn, m1.pos);
    let i2 = line_of(g.turn, m2.pos);
    assert(!greedy_prefers(g, i2, m2.card.0 as int, i1, m1.card.0 as int));
    assert(!greedy_prefers(g, i1, m1.card.0 as int, i2, m2.card.0 as int));
    assert(i1 == i2 && m1.card == m2.card);
    assert(!pos_lt(m2.pos, m1.pos));
    assert(!pos_lt(m1.pos, m2.pos));
}

/// Greedy player: maximizes immediate score delta on the single best line.
///
/// Picks the (card, position) that gives the highest `score_delta` on whichever
/// line it lands in. This tends to chase big scores (pairs/triples) on one line
/// while potentially leaving other lines at zero.
///
/// Tiebreak: highest delta, then lowest card value.
#[derive(Clone, Copy, Debug, Default, PartialEq, Eq)]
pub struct GreedyForNumber {}

/// The line counts of each of `turn`'s lines.
pub fn all_line_counts<const N: usize>(g: &GameState<N>) -> (r: Vec<LineCounts>)
    requires
        g.wf(),
    ensures
        r.len() == N,
        forall|i: int| 0 <= i < N ==> (#[trigger] r@[i])@ == spec_line_counts(g.board.line_view(g.turn, i)),
{
    let mut lines: Vec<LineCounts> = Vec::new();
    let mut i: usize = 0;
    while i < N
        invariant
            g.wf(),
            i <= N,
            lines.len() == i,
            forall|k: int| 0 <= k < i ==> (#[trigger] lines@[k])@ == spec_line_counts(g.board.line_view(g.turn, k)),
        decreases N - i,
    {
        let line = g.board.line(g.turn, i);
        proof {
            assert(cells_countable(line@)) by {
                assert forall|j: int| 0 <= j < line@.len() implies #[trigger] line@[j] == crate::board::EMPTY || line@[j]
                    < crate::scoring::LINE_COUNT_SLOTS by {
                    if g.turn is B {
                        assert(g.board.cell(i as int, j) == crate::board::EMPTY || g.board.cell(i as int, j) <= N);
                    } else {
                        assert(g.board.cell(j, i as int) == crate::board::EMPTY || g.board.cell(j, i as int) <= N);
                    }
                }
            }
        }
        proof {
            crate::scoring::lemma_short_line_counts_fit(line@);
        }
        lines.push(line_counts(&line));
        i += 1;
    }
    lines
}

/// For each of the mover's lines, its first playable cell in row-major order (if any).
pub fn first_cells<const N: usize>(g: &GameState<N>) -> (r: Vec<Option<Pos>>)
    requires
        g.wf(),
    ensures
        r.len() == N,
        forall|i: int| 0 <= i < N ==> match #[trigger] r@[i] {
            Some(p) => first_in_line(*g, i, p),
            None => forall|q: Pos| g.board.playable(q.row as int, q.col as int) ==> line_of(g.turn, q) != i,
        },
{
    let placements = g.board.valid_placements();
    let mut line_pos: Vec<Option<Pos>> = Vec::new();
    let mut i: usize = 0;
    while i < N
        invariant
            i <= N,
            line_pos.len() == i,
            forall|k: int| 0 <= k < i ==> (#[trigger] line_pos@[k]) is None,
        decreases N - i,
    {
        line_pos.push(None);
        i += 1;
    }
    let mut k: usize = 0;
    while k < placements.len()
        invariant
            g.wf(),
            k <= placements.len(),
            line_pos.len() == N,
            forall|a: int| 0 <= a < placements.len() ==> g.board.playable(#[trigger] placements@[a].row as int, placements@[a].col as int),
            forall|row: int, col: int|
                #[trigger] g.board.playable(row, col) ==> placements@.contains(Pos { row: row as u8, col: col as u8 }),
            forall|a: int, b: int| 0 <= a < b < placements.len() ==> pos_lt(#[trigger] placements@[a], #[trigger] placements@[b]),
            forall|i: int| 0 <= i < N ==> match #[trigger] line_pos@[i] {
                Some(p) => exists|a: int|
                    0 <= a < k && placements@[a] == p && line_of(g.turn, p) == i && forall|b: int|
                        0 <= b < a ==> line_of(g.turn, #[trigger] placements@[b]) != i,
                None => forall|b: int| 0 <= b < k ==> line_of(g.turn, #[trigger] placements@[b]) != i,
            },
        decreases placements.len() - k,
    {
        let pos = placements[k];
        let idx: usize = if scores_rows(g.turn) { pos.row as usize } else { pos.col as usize };
        proof {
            assert(g.board.playable(pos.row as int, pos.col as int));
        }
        if line_pos[idx].is_none() {
            line_pos.set(idx, Some(pos));
        }
        k += 1;
    }
    proof {
        assert forall|i: int| 0 <= i < N implies match #[trigger] line_pos@[i] {
            Some(p) => first_in_line(*g, i, p),
            None => forall|q: Pos| g.board.playable(q.row as int, q.col as int) ==> line_of(g.turn, q) != i,
        } by {
            match line_pos@[i] {
                Some(p) => {
                    let a = choose|a: int|
                        0 <= a < k && placements@[a] == p && line_of(g.turn, p) == i && forall|b: int|
                            0 <= b < a ==> line_of(g.turn, #[trigger] placements@[b]) != i;
                    assert forall|q: Pos|
                        g.board.playable(q.row as int, q.col as int) && line_of(g.turn, q) == i implies !pos_lt(q, p) by {
                        assert(placements@.contains(Pos { row: q.row as u8, col: q.col as u8 }));
                        let b = choose|b: int| 0 <= b < placements.len() && placements@[b] == Pos { row: q.row as u8, col: q.col as u8 };
                        assert(placements@[b] == q);
                        if pos_lt(q, p) {
                            if b > a {
                                assert(pos_lt(placements@[a], placements@[b]));
                            }
                        }
                    }
                },
                None => {
                    assert forall|q: Pos| g.board.playable(q.row as int, q.col as int) implies line_of(g.turn, q) != i by {
                        assert(placements@.contains(Pos { row: q.row as u8, col: q.col as u8 }));
                        let b = choose|b: int| 0 <= b < placements.len() && placements@[b] == Pos { row: q.row as u8, col: q.col as u8 };
                        assert(placements@[b] == q);
                    }
                },
            }
        }
    }
    line_pos
}

/// The greedy move of the player to move.
pub fn greedy_move<const N: usize>(game: &GameState<N>) -> (m: Move)
    requires
        game.wf(),
        game.has_legal_move(),
    ensures
        is_greedy_choice(*game, m),
        game.is_legal(m),
{
    let turn = game.turn;
    let hand = match turn {
        Player::A => game.hands[0],
        Player::B => game.hands[1],
    };
    let lines = all_line_counts(game);
    let line_pos = first_cells(game);
    let cards = hand.iter_playable();
    let ghost g = *game;

    let mut best: Option<(i16, CardValue, Pos, usize)> = None;
    let mut i: usize = 0;
    while i < N
        invariant
            g == *game,
            game.wf(),
            hand == g.hand_of(g.turn),
            turn == g.turn,
            i <= N,
            lines.len() == N,
            forall|k: int| 0 <= k < N ==> (#[trigger] lines@[k])@ == spec_line_counts(g.board.line_view(g.turn, k)),
            line_pos.len() == N,
            forall|k: int| 0 <= k < N ==> match #[trigger] line_pos@[k] {
                Some(p) => first_in_line(g, k, p),
                None => forall|q: Pos| g.board.playable(q.row as int, q.col as int) ==> line_of(g.turn, q) != k,
            },
            forall|a: int| 0 <= a < cards.len() ==> hand.holds(#[trigger] cards@[a].0 as int),
            forall|v: int| #[trigger] hand.holds(v) ==> cards@.contains(CardValue(v as u8)),
            forall|a: int, b: int| 0 <= a < b < cards.len() ==> (#[trigger] cards@[a]).0 < (#[trigger] cards@[b]).0,
            match best {
                Some((d, c, p, l)) => {
                    &&& l < i
                    &&& first_in_line(g, l as int, p)
                    &&& hand.holds(c.0 as int)
                    &&& d == line_delta(g, l as int, c.0 as int)
                    &&& forall|j: int, cc: int, q: Pos|
                        #![trigger first_in_line(g, j, q), hand.holds(cc)]
                        j < i && first_in_line(g, j, q) && hand.holds(cc) ==> !greedy_prefers(g, j, cc, l as int, c.0 as int)
                },
                None => forall|j: int, cc: int, q: Pos|
                    #![trigger first_in_line(g, j, q), hand.holds(cc)]
                    j < i && first_in_line(g, j, q) ==> !hand.holds(cc),
            },
        decreases N - i,
    {
        if let Some(pos) = line_pos[i] {
            let counts = &lines[i];
            let mut k: usize = 0;
            while k < cards.len()
                invariant
                    g == *game,
                    game.wf(),
                    hand == g.hand_of(g.turn),
                    i < N,
                    k <= cards.len(),
                    counts@ == spec_line_counts(g.board.line_view(g.turn, i as int)),
                    first_in_line(g, i as int, pos),
                    forall|a: int| 0 <= a < cards.len() ==> hand.holds(#[trigger] cards@[a].0 as int),
                    forall|v: int| #[trigger] hand.holds(v) ==> cards@.contains(CardValue(v as u8)),
                    forall|a: int, b: int| 0 <= a < b < cards.len() ==> (#[trigger] cards@[a]).0 < (#[trigger] cards@[b]).0,
                    match best {
                        Some((d, c, p, l)) => {
                            &&& l <= i
                            &&& first_in_line(g, l as int, p)
                            &&& hand.holds(c.0 as int)
                            &&& d == line_delta(g, l as int, c.0 as int)
                            &&& forall|j: int, cc: int, q: Pos|
                                #![trigger first_in_line(g, j, q), hand.holds(cc)]
                                j < i && first_in_line(g, j, q) && hand.holds(cc) ==> !greedy_prefers(g, j, cc, l as int, c.0 as int)
                            &&& forall|a: int|
                                0 <= a < k ==> !greedy_prefers(g, i as int, (#[trigger] cards@[a]).0 as int, l as int, c.0 as int)
                            &&& l == i ==> exists|a: int| 0 <= a < k && (#[trigger] cards@[a]) == c
                        },
                        None => {
                            &&& k == 0
                            &&& forall|j: int, cc: int, q: Pos|
                                #![trigger first_in_line(g, j, q), hand.holds(cc)]
                                j < i && first_in_line(g, j, q) ==> !hand.holds(cc)
                        },
                    },
                decreases cards.len() - k,
            {
                let card = cards[k];
                proof {
                    assert(hand.holds(card.0 as int));
                }
                let delta = score_delta(counts, card);
                let dominated = match best {
                    Some((bd, bc, _, _)) => delta < bd || (delta == bd && card.0 >= bc.0),
                    None => false,
                };
                let ghost old_best = best;
                if !dominated {
                    best = Some((delta, card, pos, i));
                }
                proof {
                    match best {
                        Some((d, c, p, l)) => {
                            assert forall|a: int|
                                0 <= a < k + 1 implies !greedy_prefers(g, i as int, (#[trigger] cards@[a]).0 as int, l as int, c.0 as int) by {
                                if a < k {
                                    if let Some((od, oc, op, ol)) = old_best {
                                        if !dominated {
                                            assert(cards@[a].0 < card.0);
                                        }
                                    }
                                }
                            }
                            if !dominated {
                                if let Some((od, oc, op, ol)) = old_best {
                                    assert forall|j: int, cc: int, q: Pos|
                                        #![trigger first_in_line(g, j, q), hand.holds(cc)]
                                        j < i && first_in_line(g, j, q) && hand.holds(cc) implies !greedy_prefers(g, j, cc, l as int, c.0 as int) by {
                                        assert(!greedy_prefers(g, j, cc, ol as int, oc.0 as int));
                                        if ol == i {
                                            let a = choose|a: int| 0 <= a < k && (#[trigger] cards@[a]) == oc;
                                            assert(cards@[a].0 < card.0);
                                        }
                                    }
                                }
                            } else {
                                if l == i {
                                    let a = choose|a: int| 0 <= a < k && (#[trigger] cards@[a]) == c;
                                    assert(0 <= a < k + 1 && cards@[a] == c);
                                }
                            }
                        },
                        None => {},
                    }
                }
                k += 1;
            }
            proof {
                match best {
                    Some((d, c, p, l)) => {
                        assert forall|j: int, cc: int, q: Pos|
                            #![trigger first_in_line(g, j, q), hand.holds(cc)]
                            j < i + 1 && first_in_line(g, j, q) && hand.holds(cc) implies !greedy_prefers(g, j, cc, l as int, c.0 as int) by {
                            if j == i {
                                assert(cards@.contains(CardValue(cc as u8)));
                                let a = choose|a: int| 0 <= a < cards.len() && cards@[a] == CardValue(cc as u8);
                                assert(cards@[a].0 == cc);
                                assert(line_of(g.turn, q) == i && line_of(g.turn, pos) == i);
                            }
                        }
                    },
                    None => {
                        assert forall|j: int, cc: int, q: Pos|
                            #![trigger first_in_line(g, j, q), hand.holds(cc)]
                            j < i + 1 && first_in_line(g, j, q) implies !hand.holds(cc) by {
                            if j == i && hand.holds(cc) {
                                assert(cards@.contains(CardValue(cc as u8)));
                            }
                        }
                    },
                }
            }
        } else {
            proof {
                assert forall|j: int, cc: int, q: Pos|
                    #![trigger first_in_line(g, j, q), hand.holds(cc)]
                    j == i && first_in_line(g, j, q) implies !hand.holds(cc) by {
                    assert(line_of(g.turn, q) != i);
                }
            }
        }
        i += 1;
    }
    proof {
        let lm = choose|lm: Move| #[trigger] g.is_legal(lm);
        let li = line_of(g.turn, lm.pos);
        assert(0 <= li < N);
        if best is None {
            match line_pos@[li] {
                Some(p) => {
                    assert(first_in_line(g, li, p));
                    assert(hand.holds(lm.card.0 as int));
                },
                None => {
                    assert(g.board.playable(lm.pos.row as int, lm.pos.col as int));
                },
            }
        }
    }
    let (_, card, pos, _) = best.unwrap();
    Move { pos, card }
}

impl<const N: usize> Bot<N> for GreedyForNumber {
    /// The greedy choices: see [`is_greedy_choice`].
    open spec fn chooses(&self, g: GameState<N>, m: Move) -> bool {
        is_greedy_choice(g, m)
    }

    /// The greedy move: see [`is_greedy_choice`].
    fn choose_move(&mut self, game: &GameState<N>) -> (m: Move)
        ensures
            is_greedy_choice(*game, m),
    {
        greedy_move(game)
    }
}

} // verus!
