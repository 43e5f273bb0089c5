use vstd::prelude::*;

use crate::board::{Pos, EMPTY, MAX_BOARD_SIZE};
use crate::cards::{lemma_count_split, lemma_seq_sum_prefix_le, seq_sum, CardValue};
use crate::game::{lemma_lines_countable, GameState, Move, Player};
use crate::player::Bot;
use crate::scoring::{
    lemma_line_counts_sum, lemma_points_bounds, line_counts, score_line, spec_line_counts,
    spec_score_line, LineCounts, LINE_COUNT_SLOTS,
};

verus! {

/// The smaller of two integers.
pub open spec fn min_int(a: int, b: int) -> int {
    if a <= b {
        a
    } else {
        b
    }
}

/// The scores of every way to fill `empty` more slots of a line with count `counts`, using card
/// values `ci..=max` with at most `rem[v]` copies of each value `v`; each multiset of added cards
/// is one completion.
pub open spec fn completions(counts: Seq<u8>, rem: Seq<u8>, empty: int, ci: int, max: int) -> Set<int>
    decreases max + 1 - ci, empty + 2,
{
    if empty <= 0 {
        set![spec_score_line(counts)]
    } else if ci > max || ci < 0 || ci >= LINE_COUNT_SLOTS {
        Set::empty()
    } else {
        completions_upto(counts, rem, empty, ci, max, min_int(rem[ci] as int, empty) + 1)
    }
}

/// The completions (as in `completions`) that add fewer than `k` copies of value `ci` and go on
/// with the values above it.
pub open spec fn completions_upto(counts: Seq<u8>, rem: Seq<u8>, empty: int, ci: int, max: int, k: int) -> Set<int>
    decreases max + 1 - ci, k,
{
    if k <= 0 || k > empty + 1 || ci > max || ci < 0 {
        Set::empty()
    } else {
        completions_upto(counts, rem, empty, ci, max, k - 1).union(
            completions(
                counts.update(ci, (counts[ci] + (k - 1)) as u8),
                rem.update(ci, (rem[ci] - (k - 1)) as u8),
                empty - (k - 1),
                ci + 1,
                max,
            ),
        )
    }
}

/// The scores of the completions of `completions`, in the order `complete_and_score` visits them:
/// by the number of copies of value `ci` added (none first), then likewise for the values above
/// it; each multiset of added cards gives exactly one entry.
pub open spec fn completion_scores(counts: Seq<u8>, rem: Seq<u8>, empty: int, ci: int, max: int) -> Seq<int>
    decreases max + 1 - ci, empty + 2,
{
    if empty <= 0 {
        seq![spec_score_line(counts)]
    } else if ci > max || ci < 0 || ci >= LINE_COUNT_SLOTS {
        Seq::empty()
    } else {
        completion_scores_upto(counts, rem, empty, ci, max, min_int(rem[ci] as int, empty) + 1)
    }
}

/// The entries of `completion_scores` that add fewer than `k` copies of value `ci`.
pub open spec fn completion_scores_upto(counts: Seq<u8>, rem: Seq<u8>, empty: int, ci: int, max: int, k: int) -> Seq<int>
    decreases max + 1 - ci, k,
{
    if k <= 0 || k > empty + 1 || ci > max || ci < 0 {
        Seq::empty()
    } else {
        completion_scores_upto(counts, rem, empty, ci, max, k - 1) + completion_scores(
            counts.update(ci, (counts[ci] + (k - 1)) as u8),
            rem.update(ci, (rem[ci] - (k - 1)) as u8),
            empty - (k - 1),
            ci + 1,
            max,
        )
    }
}

/// Scores as integers.
pub open spec fn score_ints(s: Seq<u16>) -> Seq<int> {
    s.map_values(|x: u16| x as int)
}

/// Copies of each card value that the opponent of `player` may still hold or draw: the deck's
/// `N + 1` copies of each value `0..=N`, less those on the board and those in `player`'s hand.
pub open spec fn spec_remaining<const N: usize>(g: GameState<N>, player: Player) -> Seq<u8> {
    Seq::new(
        LINE_COUNT_SLOTS as nat,
        |v: int|
            if v <= N {
                (N + 1 - g.on_board(v) - g.hand_of(player)@[v]) as u8
            } else {
                0u8
            },
    )
}

/// The scores that `player`'s line `i` can reach once its empty cells are filled from the
/// remaining cards (see `completions`).
pub open spec fn line_completions<const N: usize>(g: GameState<N>, player: Player, i: int) -> Set<int> {
    let counts = spec_line_counts(g.board.line_view(player, i));
    completions(counts, spec_remaining(g, player), N - seq_sum(counts), 0, N as int)
}

/// `r` is the maximum potential of `player`: the best score any of their lines can reach, or 0
/// when no line can be completed.
pub open spec fn is_max_potential<const N: usize>(g: GameState<N>, player: Player, r: int) -> bool {
    &&& 0 <= r
    &&& forall|i: int, x: int| 0 <= i < N && #[trigger] line_completions(g, player, i).contains(x) ==> x <= r
    &&& (r == 0 || exists|i: int| 0 <= i < N && #[trigger] line_completions(g, player, i).contains(r))
}

/// A state has one maximum potential per player.
pub proof fn lemma_max_potential_unique<const N: usize>(g: GameState<N>, player: Player, r1: int, r2: int)
    requires
        is_max_potential(g, player, r1),
        is_max_potential(g, player, r2),
    ensures
        r1 == r2,
{
    if r1 != 0 {
        let i = choose|i: int| 0 <= i < N && #[trigger] line_completions(g, player, i).contains(r1);
        assert(r1 <= r2);
    }
    if r2 != 0 {
        let i = choose|i: int| 0 <= i < N && #[trigger] line_completions(g, player, i).contains(r2);
        assert(r2 <= r1);
    }
}

/// The sadist's order on candidate moves: the opponent's potential after the move, then card
/// value, then row, then column.
pub open spec fn sadist_key_le(p1: int, m1: Move, p2: int, m2: Move) -> bool {
    ||| p1 < p2
    ||| p1 == p2 && m1.card.0 < m2.card.0
    ||| p1 == p2 && m1.card.0 == m2.card.0 && m1.pos.row < m2.pos.row
    ||| p1 == p2 && m1.card.0 == m2.card.0 && m1.pos.row == m2.pos.row && m1.pos.col <= m2.pos.col
}

/// `m` is the sadist's move: legal, and first in `sadist_key_le` order among the legal moves,
/// each keyed by the maximum potential it leaves the opponent.
pub open spec fn is_sadist_choice<const N: usize>(g: GameState<N>, m: Move) -> bool {
    &&& g.is_legal(m)
    &&& exists|p: int|
        #[trigger] is_max_potential(g.after(m), g.turn.other(), p) && forall|m2: Move, p2: int|
            #![trigger g.is_legal(m2), is_max_potential(g.after(m2), g.turn.other(), p2)]
            g.is_legal(m2) && is_max_potential(g.after(m2), g.turn.other(), p2) ==> sadist_key_le(p, m, p2, m2)
}

/// Sadist player: minimizes the opponent's maximum potential score.
#[derive(Clone, Copy, Debug, Default, PartialEq, Eq)]
pub struct Sadist {}

/// Recursively enumerate all multiset completions of a line and collect their scores.
///
/// Iterates over card values (not slots): for value `card_index`, place `0..=min(remaining, empty)`
/// copies and recurse on the next value; each distinct multiset of additions is visited once, and
/// its score appended ([`completion_scores`]). The counts are restored before returning.
pub fn complete_and_score(
    counts: &mut LineCounts,
    remaining: &mut LineCounts,
    scores: &mut Vec<u16>,
    empty_slots: usize,
    card_index: usize,
    max_card: usize,
)
    requires
        max_card < LINE_COUNT_SLOTS,
        card_index <= max_card + 1,
        forall|v: int| 0 <= v < LINE_COUNT_SLOTS ==> old(counts)@[v] + old(remaining)@[v] <= u8::MAX,
    ensures
        *final(counts) == *old(counts),
        *final(remaining) == *old(remaining),
        final(scores)@.len() >= old(scores)@.len(),
        final(scores)@.take(old(scores)@.len() as int) == old(scores)@,
        score_ints(final(scores)@) == score_ints(old(scores)@) + completion_scores(
            old(counts)@,
            old(remaining)@,
            empty_slots as int,
            card_index as int,
            max_card as int,
        ),
        forall|i: int|
            old(scores)@.len() <= i < final(scores)@.len() ==> completions(
                old(counts)@,
                old(remaining)@,
                empty_slots as int,
                card_index as int,
                max_card as int,
            ).contains(#[trigger] final(scores)@[i] as int),
        forall|x: int|
            #[trigger] completions(
                old(counts)@,
                old(remaining)@,
                empty_slots as int,
                card_index as int,
                max_card as int,
            ).contains(x) ==> exists|i: int|
                old(scores)@.len() <= i < final(scores)@.len() && #[trigger] final(scores)@[i] == x,
    decreases max_card + 1 - card_index,
{
    let ghost s0 = scores@;
    let ghost c0 = *counts;
    let ghost r0 = *remaining;
    if empty_slots == 0 {
        let sc = score_line(counts);
        scores.push(sc);
        proof {
            assert(scores@.take(s0.len() as int) =~= s0);
            assert(scores@[s0.len() as int] == sc);
            assert(score_ints(scores@) =~= score_ints(s0) + seq![spec_score_line(c0@)]);
        }
        return;
    }
    if card_index > max_card {
        proof {
            assert(scores@.take(s0.len() as int) =~= s0);
            assert(score_ints(scores@) =~= score_ints(s0) + Seq::<int>::empty());
        }
        return;
    }
    let available = remaining[card_index] as usize;
    let can_place = if available < empty_slots { available } else { empty_slots };
    let mut n: usize = 0;
    while n <= can_place
        invariant
            max_card < LINE_COUNT_SLOTS,
            card_index <= max_card,
            empty_slots > 0,
            can_place == min_int(r0@[card_index as int] as int, empty_slots as int),
            forall|v: int| 0 <= v < LINE_COUNT_SLOTS ==> c0@[v] + r0@[v] <= u8::MAX,
            n <= can_place + 1,
            counts@ == c0@.update(card_index as int, (c0@[card_index as int] + min_int(n as int, can_place as int)) as u8),
            remaining@ == r0@.update(card_index as int, (r0@[card_index as int] - min_int(n as int, can_place as int)) as u8),
            scores@.len() >= s0.len(),
            scores@.take(s0.len() as int) == s0,
            score_ints(scores@) == score_ints(s0) + completion_scores_upto(
                c0@,
                r0@,
                empty_slots as int,
                card_index as int,
                max_card as int,
                n as int,
            ),
            forall|i: int|
                s0.len() <= i < scores@.len() ==> completions_upto(
                    c0@,
                    r0@,
                    empty_slots as int,
                    card_index as int,
                    max_card as int,
                    n as int,
                ).contains(#[trigger] scores@[i] as int),
            forall|x: int|
                #[trigger] completions_upto(
                    c0@,
                    r0@,
                    empty_slots as int,
                    card_index as int,
                    max_card as int,
                    n as int,
                ).contains(x) ==> exists|i: int| s0.len() <= i < scores@.len() && #[trigger] scores@[i] == x,
        decreases can_place + 1 - n,
    {
        let ghost before = scores@;
        let ghost nc = c0@.update(card_index as int, (c0@[card_index as int] + n) as u8);
        let ghost nr = r0@.update(card_index as int, (r0@[card_index as int] - n) as u8);
        let ghost rest = completions(nc, nr, empty_slots - n, card_index + 1, max_card as int);
        proof {
            assert(counts@ == nc);
            assert(remaining@ == nr);
        }
        complete_and_score(counts, remaining, scores, empty_slots - n, card_index + 1, max_card);
        proof {
            let prev = completions_upto(c0@, r0@, empty_slots as int, card_index as int, max_card as int, n as int);
            let next = completions_upto(c0@, r0@, empty_slots as int, card_index as int, max_card as int, n + 1);
            assert(next == prev.union(rest));
            let prev_seq = completion_scores_upto(c0@, r0@, empty_slots as int, card_index as int, max_card as int, n as int);
            let rest_seq = completion_scores(nc, nr, empty_slots - n, card_index + 1, max_card as int);
            assert(completion_scores_upto(c0@, r0@, empty_slots as int, card_index as int, max_card as int, n + 1)
                == prev_seq + rest_seq);
            assert(score_ints(scores@) =~= score_ints(s0) + (prev_seq + rest_seq));
            assert forall|i: int| s0.len() <= i < scores@.len() implies next.contains(#[trigger] scores@[i] as int) by {
                if i < before.len() {
                    assert(scores@[i] == before[i]) by {
                        assert(scores@.take(before.len() as int)[i] == before[i]);
                    }
                }
            }
            assert forall|x: int| #[trigger] next.contains(x) implies exists|i: int|
                s0.len() <= i < scores@.len() && #[trigger] scores@[i] == x by {
                if prev.contains(x) {
                    let i = choose|i: int| s0.len() <= i < before.len() && #[trigger] before[i] == x;
                    assert(scores@.take(before.len() as int)[i] == before[i]);
                    assert(scores@[i] == x);
                } else {
                    assert(rest.contains(x));
                }
            }
            assert(scores@.take(s0.len() as int) =~= s0) by {
                assert forall|i: int| 0 <= i < s0.len() implies scores@[i] == s0[i] by {
                    assert(scores@.take(before.len() as int)[i] == before[i]);
                    assert(before.take(s0.len() as int)[i] == s0[i]);
                }
            }
        }
        if n < can_place {
            counts[card_index] = counts[card_index] + 1;
            remaining[card_index] = remaining[card_index] - 1;
            proof {
                assert(counts@ =~= c0@.update(card_index as int, (c0@[card_index as int] + min_int(n + 1, can_place as int)) as u8));
                assert(remaining@ =~= r0@.update(card_index as int, (r0@[card_index as int] - min_int(n + 1, can_place as int)) as u8));
            }
        } else {
            proof {
                assert(min_int(n + 1, can_place as int) == min_int(n as int, can_place as int));
            }
        }
        n += 1;
    }
    let placed = can_place as u8;
    counts[card_index] = counts[card_index] - placed;
    remaining[card_index] = remaining[card_index] + placed;
    proof {
        assert(counts@ =~= c0@);
        assert(remaining@ =~= r0@);
        assert(*counts == c0);
        assert(*remaining == r0);
        assert(completions(c0@, r0@, empty_slots as int, card_index as int, max_card as int)
            == completions_upto(c0@, r0@, empty_slots as int, card_index as int, max_card as int, n as int));
        assert(completion_scores(c0@, r0@, empty_slots as int, card_index as int, max_card as int)
            == completion_scores_upto(c0@, r0@, empty_slots as int, card_index as int, max_card as int, n as int));
    }
}
/// Count remaining copies of each card value available to the opponent of `player`.
/// Subtracts cards already on the board and cards in `player`'s own hand (which
/// the opponent cannot hold).
pub fn remaining_cards<const N: usize>(game: &GameState<N>, player: Player) -> (r: LineCounts)
    requires
        game.wf(),
    ensures
        r@ == spec_remaining(*game, player),
{
    broadcast use {vstd::seq_lib::group_to_multiset_ensures, vstd::multiset::group_multiset_axioms};

    let ghost cells = game.board@;
    proof {
        game.board.lemma_view_len();
    }
    let mut played = [0u8; LINE_COUNT_SLOTS];
    assert(played == vstd::array::spec_array_fill_for_copy_type::<u8, LINE_COUNT_SLOTS>(0u8));
    let mut row: usize = 0;
    while row < N
        invariant
            game.wf(),
            cells == game.board@,
            cells.len() == N * N,
            row <= N,
            forall|v: int| 0 <= v < LINE_COUNT_SLOTS ==> #[trigger] played@[v] == cells.take(row * N).to_multiset().count(v as u8),
        decreases N - row,
    {
        let mut col: usize = 0;
        while col < N
            invariant
                game.wf(),
                cells == game.board@,
                cells.len() == N * N,
                row < N,
                col <= N,
                forall|v: int| 0 <= v < LINE_COUNT_SLOTS ==> #[trigger] played@[v] == cells.take(row * N + col).to_multiset().count(v as u8),
            decreases N - col,
        {
            let cell = game.board.get(Pos { row: row as u8, col: col as u8 });
            let ghost k = row * N + col;
            proof {
                crate::board::lemma_flat_index(N as int, row as int, col as int, 0, 0);
                assert(cell == cells[k]);
                assert(cells.take(k + 1) =~= cells.take(k).push(cell));
                vstd::seq_lib::to_multiset_build(cells.take(k), cell);
                if cell != EMPTY {
                    assert(game.board.cell(row as int, col as int) <= N);
                    lemma_count_split(cells, k + 1, cell);
                    assert(game.on_board(cell as int) <= N + 1);
                }
            }
            if cell != EMPTY {
                played[cell as usize] = played[cell as usize] + 1;
            }
            col += 1;
            proof {
                assert forall|v: int| 0 <= v < LINE_COUNT_SLOTS implies #[trigger] played@[v] == cells.take(row * N + col).to_multiset().count(v as u8) by {
                    if v != cell as int {
                        assert(v as u8 != cell);
                    }
                }
            }
        }
        proof {
            assert(row * N + N == (row + 1) * N) by (nonlinear_arith);
        }
        row += 1;
    }
    proof {
        assert(cells.take(N * N) =~= cells);
    }
    let own_hand = match player {
        Player::A => game.hands[0],
        Player::B => game.hands[1],
    };
    let mut remaining = [0u8; LINE_COUNT_SLOTS];
    assert(remaining == vstd::array::spec_array_fill_for_copy_type::<u8, LINE_COUNT_SLOTS>(0u8));
    let mut v: usize = 0;
    while v <= N
        invariant
            game.wf(),
            cells == game.board@,
            v <= N + 1,
            own_hand == game.hand_of(player),
            forall|w: int| 0 <= w < LINE_COUNT_SLOTS ==> #[trigger] played@[w] == game.on_board(w),
            forall|w: int| 0 <= w < LINE_COUNT_SLOTS ==> #[trigger] remaining@[w] == if w < v {
                spec_remaining(*game, player)[w]
            } else {
                0u8
            },
        decreases N + 1 - v,
    {
        let in_hand = own_hand.count(CardValue(v as u8));
        proof {
            assert(game.on_board(v as int) + game.hands@[0]@[v as int] + game.hands@[1]@[v as int] <= N + 1);
        }
        remaining[v] = (N as u8 + 1) - played[v] - in_hand;
        v += 1;
    }
    proof {
        assert(remaining@ =~= spec_remaining(*game, player));
    }
    remaining
}

/// Maximum score the given player could achieve on their best line,
/// considering all possible completions with remaining cards.
pub fn score_max_potential<const N: usize>(game: &GameState<N>, player: Player) -> (r: u16)
    requires
        game.wf(),
    ensures
        is_max_potential(*game, player, r as int),
{
    let remaining = remaining_cards(game, player);
    let mut best: u16 = 0;
    let mut i: usize = 0;
    while i < N
        invariant
            game.wf(),
            i <= N,
            remaining@ == spec_remaining(*game, player),
            forall|k: int, x: int| 0 <= k < i && #[trigger] line_completions(*game, player, k).contains(x) ==> x <= best,
            best == 0 || exists|k: int| 0 <= k < i && #[trigger] line_completions(*game, player, k).contains(best as int),
        decreases N - i,
    {
        let line = game.board.line(player, i);
        proof {
            lemma_lines_countable(*game, player, i as int);
            lemma_line_counts_sum(line@);
        }
        proof {
            crate::scoring::lemma_short_line_counts_fit(line@);
        }
        let counts = line_counts(&line);
        let mut sum: usize = 0;
        let mut v: usize = 0;
        while v < LINE_COUNT_SLOTS
            invariant
                v <= LINE_COUNT_SLOTS,
                counts@.len() == LINE_COUNT_SLOTS,
                seq_sum(counts@) <= N,
                N <= MAX_BOARD_SIZE,
                sum == seq_sum(counts@.take(v as int)),
            decreases LINE_COUNT_SLOTS - v,
        {
            proof {
                assert(counts@.take(v + 1).drop_last() =~= counts@.take(v as int));
                lemma_seq_sum_prefix_le(counts@, v + 1);
            }
            sum = sum + counts[v] as usize;
            v += 1;
        }
        proof {
            assert(counts@.take(LINE_COUNT_SLOTS as int) =~= counts@);
        }
        let empty_slots = N - sum;
        let mut work_counts = counts;
        let mut work_remaining = remaining;
        let mut scores: Vec<u16> = Vec::new();
        proof {
            assert forall|w: int| 0 <= w < LINE_COUNT_SLOTS implies work_counts@[w] + work_remaining@[w] <= u8::MAX by {
                assert(counts@[w] <= line@.len());
            }
        }
        complete_and_score(&mut work_counts, &mut work_remaining, &mut scores, empty_slots, 0, N);
        let ghost here = line_completions(*game, player, i as int);
        proof {
            assert(here == completions(counts@, remaining@, empty_slots as int, 0, N as int));
        }
        let mut j: usize = 0;
        while j < scores.len()
            invariant
                game.wf(),
                i < N,
                j <= scores.len(),
                here == line_completions(*game, player, i as int),
                forall|a: int| 0 <= a < scores.len() ==> here.contains(#[trigger] scores@[a] as int),
                forall|k: int, x: int| 0 <= k < i && #[trigger] line_completions(*game, player, k).contains(x) ==> x <= best,
                forall|a: int| 0 <= a < j ==> #[trigger] scores@[a] <= best,
                best == 0 || here.contains(best as int) || exists|k: int|
                    0 <= k < i && #[trigger] line_completions(*game, player, k).contains(best as int),
            decreases scores.len() - j,
        {
            if scores[j] > best {
                best = scores[j];
            }
            j += 1;
        }
        proof {
            assert forall|k: int, x: int| 0 <= k < i + 1 && #[trigger] line_completions(*game, player, k).contains(x) implies x <= best by {
                if k == i {
                    let a = choose|a: int| 0 <= a < scores.len() && #[trigger] scores@[a] == x;
                    assert(scores@[a] <= best);
                }
            }
            if best != 0 && here.contains(best as int) {
                assert(line_completions(*game, player, i as int).contains(best as int));
            }
        }
        i += 1;
    }
    best
}
/// The sadist's move for the player to move: see [`is_sadist_choice`].
pub fn sadist_move<const N: usize>(game: &GameState<N>) -> (m: Move)
    requires
        game.wf(),
        game.has_legal_move(),
    ensures
        is_sadist_choice(*game, m),
{
    let opponent = game.turn.other();
    let moves = game.valid_moves();
    let mut best: Option<(Move, u16)> = None;
    let mut i: usize = 0;
    while i < moves.len()
        invariant
            game.wf(),
            opponent == game.turn.other(),
            forall|k: int| 0 <= k < moves.len() ==> game.is_legal(#[trigger] moves@[k]),
            i <= moves.len(),
            i > 0 ==> best is Some,
            match best {
                None => true,
                Some((bm, bp)) => {
                    &&& game.is_legal(bm)
                    &&& is_max_potential(game.after(bm), opponent, bp as int)
                    &&& forall|k: int, p2: int|
                        0 <= k < i && #[trigger] is_max_potential(game.after(moves@[k]), opponent, p2) ==> sadist_key_le(
                            bp as int,
                            bm,
                            p2,
                            moves@[k],
                        )
                },
            },
        decreases moves.len() - i,
    {
        let m = moves[i];
        let next = match game.clone_and_play(m) {
            Ok(n) => n,
            Err(_) => vstd::pervasive::unreached(),
        };
        let pot = score_max_potential(&next, opponent);
        let better = match best {
            None => true,
            Some((bm, bp)) => {
                pot < bp || (pot == bp && (m.card.0 < bm.card.0 || (m.card.0 == bm.card.0 && (m.pos.row
                    < bm.pos.row || (m.pos.row == bm.pos.row && m.pos.col < bm.pos.col)))))
            },
        };
        proof {
            assert forall|p2: int| #[trigger] is_max_potential(game.after(m), opponent, p2) implies p2 == pot by {
                lemma_max_potential_unique(game.after(m), opponent, p2, pot as int);
            }
        }
        if better {
            best = Some((m, pot));
        }
        i += 1;
    }
    proof {
        let m0 = choose|m0: Move| #[trigger] game.is_legal(m0);
        assert(moves@.contains(m0));
    }
    match best {
        Some((bm, bp)) => {
            proof {
                assert forall|m2: Move, p2: int|
                    #![trigger game.is_legal(m2), is_max_potential(game.after(m2), game.turn.other(), p2)]
                    game.is_legal(m2) && is_max_potential(game.after(m2), game.turn.other(), p2) implies sadist_key_le(
                        bp as int,
                        bm,
                        p2,
                        m2,
                    ) by {
                    assert(moves@.contains(m2));
                    let k = choose|k: int| 0 <= k < moves.len() && moves@[k] == m2;
                    assert(is_max_potential(game.after(moves@[k]), opponent, p2));
                }
                assert(is_max_potential(game.after(bm), game.turn.other(), bp as int));
            }
            bm
        },
        None => vstd::pervasive::unreached(),
    }
}

impl<const N: usize> Bot<N> for Sadist {
    /// The sadist's choices: see [`is_sadist_choice`].
    open spec fn chooses(&self, g: GameState<N>, m: Move) -> bool {
        is_sadist_choice(g, m)
    }

    /// The sadist's move: see [`is_sadist_choice`].
    fn choose_move(&mut self, game: &GameState<N>) -> (m: Move)
        ensures
            is_sadist_choice(*game, m),
    {
        sadist_move(game)
    }
}

} // verus!
