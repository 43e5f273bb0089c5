use vstd::prelude::*;

use crate::board::{Board, Cell, EMPTY, MAX_BOARD_SIZE};
use crate::cards::{lemma_seq_sum_update, lemma_seq_sum_zeros, seq_sum, CardValue};
use crate::game::Player;

verus! {

broadcast use vstd::array::group_array_axioms;

/// Number of per-value slots in a line count: values `0..=MAX_SUPPORTED_CARD_VALUE`.
pub const LINE_COUNT_SLOTS: usize = 16;

/// How many copies of each card value a line holds.
pub type LineCounts = [u8; LINE_COUNT_SLOTS];

/// Points of one card value `v` held `c` times in a line: 1 copy → `v`, 2 → `10·v`, 3+ → 100.
pub open spec fn card_points(v: int, c: int) -> int {
    if c == 0 {
        0
    } else if c == 1 {
        v
    } else if c == 2 {
        10 * v
    } else {
        100
    }
}

/// Score change when one more card of value `v` joins a line holding `k` copies of it.
pub open spec fn delta_points(v: int, k: int) -> int {
    if k == 0 {
        v
    } else if k == 1 {
        9 * v
    } else if k == 2 {
        100 - 10 * v
    } else {
        0
    }
}

/// Points of card values `0..k` of a line count.
pub open spec fn points_upto(counts: Seq<u8>, k: int) -> int
    decreases k,
{
    if k <= 0 {
        0
    } else {
        points_upto(counts, k - 1) + card_points(k - 1, counts[k - 1] as int)
    }
}

/// Score of a line with the given per-value counts.
pub open spec fn spec_score_line(counts: Seq<u8>) -> int {
    points_upto(counts, counts.len() as int)
}

/// The per-value counts of the cards in `line` (empty cells are skipped).
pub open spec fn spec_line_counts(line: Seq<Cell>) -> Seq<u8> {
    Seq::new(LINE_COUNT_SLOTS as nat, |v: int| line.to_multiset().count(v as u8) as u8)
}

/// Every cell of `line` is empty or holds a value that a line count can record.
pub open spec fn cells_countable(line: Seq<Cell>) -> bool {
    forall|i: int| 0 <= i < line.len() ==> #[trigger] line[i] == EMPTY || line[i] < LINE_COUNT_SLOTS
}

/// Score of line `i` of `player`.
pub open spec fn line_score<const N: usize>(board: Board<N>, player: Player, i: int) -> int {
    spec_score_line(spec_line_counts(board.line_view(player, i)))
}

/// `(s, i)` is the weakest line of `player`: line `i` scores `s`, no line scores less, and no earlier
/// line scores as little.
pub open spec fn is_weakest_line<const N: usize>(board: Board<N>, player: Player, s: int, i: int) -> bool {
    &&& 0 <= i < N
    &&& s == line_score(board, player, i)
    &&& forall|j: int| 0 <= j < N ==> line_score(board, player, j) >= s
    &&& forall|j: int| 0 <= j < i ==> line_score(board, player, j) > s
}

/// Every cell of the board is empty or holds a value that a line count can record.
pub open spec fn board_countable<const N: usize>(board: Board<N>) -> bool {
    forall|r: int, c: int|
        0 <= r < N && 0 <= c < N ==> #[trigger] board.cell(r, c) == EMPTY || board.cell(r, c)
            < LINE_COUNT_SLOTS
}

/// The points of the first `k` values lie between 0 and `150·k`.
pub proof fn lemma_points_bounds(counts: Seq<u8>, k: int)
    requires
        0 <= k <= LINE_COUNT_SLOTS,
    ensures
        0 <= points_upto(counts, k) <= 150 * k,
    decreases k,
{
    if k > 0 {
        lemma_points_bounds(counts, k - 1);
    }
}

/// Changing the count of one value changes the score by that value's difference of points.
pub proof fn lemma_points_update(counts: Seq<u8>, k: int, v: int, c: u8)
    requires
        0 <= v < counts.len(),
        0 <= k <= counts.len(),
    ensures
        points_upto(counts.update(v, c), k) == points_upto(counts, k) + if v < k {
            card_points(v, c as int) - card_points(v, counts[v] as int)
        } else {
            0
        },
    decreases k,
{
    if k > 0 {
        lemma_points_update(counts, k - 1, v, c);
    }
}

/// The counts of a line add up to at most its number of cells, and no count exceeds it.
pub proof fn lemma_line_counts_sum(line: Seq<Cell>)
    requires
        line.len() <= u8::MAX,
    ensures
        seq_sum(spec_line_counts(line)) <= line.len(),
        forall|v: int| 0 <= v < LINE_COUNT_SLOTS ==> #[trigger] spec_line_counts(line)[v] <= line.len(),
        forall|x: u8| #[trigger] line.to_multiset().count(x) <= line.len(),
    decreases line.len(),
{
    broadcast use {vstd::seq_lib::group_to_multiset_ensures, vstd::multiset::group_multiset_axioms};

    if line.len() == 0 {
        assert(spec_line_counts(line) =~= Seq::new(LINE_COUNT_SLOTS as nat, |v: int| 0u8));
        lemma_seq_sum_zeros(LINE_COUNT_SLOTS as nat);
    } else {
        let p = line.drop_last();
        let c = line.last();
        lemma_line_counts_sum(p);
        assert(line =~= p.push(c));
        vstd::seq_lib::to_multiset_build(p, c);
        let before = spec_line_counts(p);
        assert(forall|x: u8| #[trigger] line.to_multiset().count(x) <= p.to_multiset().count(x) + 1);
        if c < LINE_COUNT_SLOTS {
            assert(p.to_multiset().count(c) <= p.len());
            let after = before.update(c as int, (before[c as int] + 1) as u8);
            assert(spec_line_counts(line) =~= after) by {
                assert forall|v: int| 0 <= v < LINE_COUNT_SLOTS implies spec_line_counts(line)[v] == after[v] by {
                    if v != c as int {
                        assert(v as u8 != c);
                    }
                }
            }
            lemma_seq_sum_update(before, c as int, (before[c as int] + 1) as u8);
        } else {
            assert(spec_line_counts(line) =~= before) by {
                assert forall|v: int| 0 <= v < LINE_COUNT_SLOTS implies spec_line_counts(line)[v] == before[v] by {
                    assert(v as u8 != c);
                }
            }
        }
    }
}

/// No card value occurs in `line` more often than a count can hold.
pub open spec fn counts_fit(line: Seq<Cell>) -> bool {
    forall|v: Cell| v != EMPTY ==> #[trigger] line.to_multiset().count(v) <= u8::MAX
}

/// A line of at most 255 cells holds no value more than 255 times.
pub proof fn lemma_short_line_counts_fit(line: Seq<Cell>)
    requires
        line.len() <= u8::MAX,
    ensures
        counts_fit(line),
{
    assert forall|v: Cell| v != EMPTY implies #[trigger] line.to_multiset().count(v) <= u8::MAX by {
        crate::progress::lemma_count_le_len(line, v);
    }
}

/// Count the copies of each card value in `line`, skipping empty cells.
pub fn line_counts(line: &[Cell]) -> (r: LineCounts)
    requires
        counts_fit(line@),
        cells_countable(line@),
    ensures
        r@ == spec_line_counts(line@),
{
    broadcast use {vstd::seq_lib::group_to_multiset_ensures, vstd::multiset::group_multiset_axioms};

    let mut c: LineCounts = [0u8; LINE_COUNT_SLOTS];
    proof {
        assert(c == vstd::array::spec_array_fill_for_copy_type::<u8, LINE_COUNT_SLOTS>(0u8));

        assert(line@.take(0) =~= Seq::<Cell>::empty());
    }
    let mut i: usize = 0;
    while i < line.len()
        invariant
            counts_fit(line@),
            cells_countable(line@),
            i <= line@.len(),
            c@.len() == LINE_COUNT_SLOTS,
            forall|v: int| 0 <= v < LINE_COUNT_SLOTS ==> #[trigger] c@[v] == line@.take(i as int).to_multiset().count(v as u8),
        decreases line@.len() - i,
    {
        let cell = line[i];
        proof {
            assert(line@.take(i + 1) =~= line@.take(i as int).push(cell));
            vstd::seq_lib::to_multiset_build(line@.take(i as int), cell);
            vstd::seq_lib::to_multiset_len(line@.take(i as int));
        }
        if cell != EMPTY {
            proof {
                crate::cards::lemma_count_split(line@, i + 1, cell);
                assert(line@.to_multiset().count(cell) <= u8::MAX);
            }
            c[cell as usize] = c[cell as usize] + 1;
        }
        i += 1;
        proof {
            assert forall|v: int| 0 <= v < LINE_COUNT_SLOTS implies #[trigger] c@[v] == line@.take(i as int).to_multiset().count(v as u8) by {
                if v == cell as int {
                } else {
                    assert(v as u8 != cell);
                }
            }
        }
    }
    proof {
        assert(line@.take(line@.len() as int) =~= line@);
        assert(c@ =~= spec_line_counts(line@));
    }
    c
}

/// 1 copy → face value; 2 copies → 10×face; 3+ → 100 flat.
pub fn score_line(counts: &LineCounts) -> (r: u16)
    ensures
        r == spec_score_line(counts@),
{
    let mut s: u16 = 0;
    let mut v: usize = 0;
    while v < LINE_COUNT_SLOTS
        invariant
            v <= LINE_COUNT_SLOTS,
            counts@.len() == LINE_COUNT_SLOTS,
            s == points_upto(counts@, v as int),
        decreases LINE_COUNT_SLOTS - v,
    {
        proof {
            lemma_points_bounds(counts@, v as int);
        }
        let c = counts[v];
        let add: u16 = if c == 0 {
            0
        } else if c == 1 {
            v as u16
        } else if c == 2 {
            10 * v as u16
        } else {
            100
        };
        s = s + add;
        v += 1;
    }
    s
}

/// Analytic score delta when card `v` is added to a line with the given counts.
/// 0→1: +v; 1→2: +9v; 2→3: +(100−10v); 3+: 0.
pub fn score_delta(counts: &LineCounts, v: CardValue) -> (r: i16)
    requires
        v.0 < LINE_COUNT_SLOTS,
    ensures
        r == delta_points(v.0 as int, counts@[v.0 as int] as int),
        counts@[v.0 as int] < u8::MAX ==> r == spec_score_line(
            counts@.update(v.0 as int, (counts@[v.0 as int] + 1) as u8),
        ) - spec_score_line(counts@),
{
    proof {
        lemma_points_update(counts@, LINE_COUNT_SLOTS as int, v.0 as int, (counts@[v.0 as int] + 1) as u8);
    }
    let vv = v.0 as i16;
    match counts[v.0 as usize] {
        0 => vv,
        1 => 9 * vv,
        2 => 100 - 10 * vv,
        _ => 0,
    }
}

/// Final result: `(score_p0, idx_p0, score_p1, idx_p1)`, each the score and index of the
/// player's weakest line.
pub fn victoire<const N: usize>(board: &Board<N>) -> (r: (u16, usize, u16, usize))
    requires
        1 <= N <= MAX_BOARD_SIZE,
        board_countable(*board),
    ensures
        is_weakest_line(*board, Player::A, r.0 as int, r.1 as int),
        is_weakest_line(*board, Player::B, r.2 as int, r.3 as int),
{
    let (s0, i0) = player_score(board, Player::A);
    let (s1, i1) = player_score(board, Player::B);
    (s0, i0, s1, i1)
}

/// Score of line `i` of `player`.
pub fn score_of_line<const N: usize>(board: &Board<N>, player: Player, i: usize) -> (r: u16)
    requires
        N <= MAX_BOARD_SIZE,
        i < N,
        board_countable(*board),
    ensures
        r == line_score(*board, player, i as int),
{
    let line = board.line(player, i);
    proof {
        assert(cells_countable(line@)) by {
            assert forall|j: int| 0 <= j < line@.len() implies #[trigger] line@[j] == EMPTY || line@[j]
                < LINE_COUNT_SLOTS by {
                if player is B {
                    assert(board.cell(i as int, j) == EMPTY || board.cell(i as int, j) < LINE_COUNT_SLOTS);
                } else {
                    assert(board.cell(j, i as int) == EMPTY || board.cell(j, i as int) < LINE_COUNT_SLOTS);
                }
            }
        }
    }
    proof {
        crate::scoring::lemma_short_line_counts_fit(line@);
    }
    let counts = line_counts(&line);
    score_line(&counts)
}

/// Minimum score across all of a player's lines. Returns `(min_score, line_index)`, the first
/// line reaching the minimum.
pub fn player_score<const N: usize>(board: &Board<N>, player: Player) -> (r: (u16, usize))
    requires
        1 <= N <= MAX_BOARD_SIZE,
        board_countable(*board),
    ensures
        is_weakest_line(*board, player, r.0 as int, r.1 as int),
{
    let mut best = score_of_line(board, player, 0);
    let mut best_i: usize = 0;
    let mut i: usize = 1;
    while i < N
        invariant
            1 <= N <= MAX_BOARD_SIZE,
            board_countable(*board),
            1 <= i <= N,
            best_i < i,
            best == line_score(*board, player, best_i as int),
            forall|j: int| 0 <= j < i ==> line_score(*board, player, j) >= best,
            forall|j: int| 0 <= j < best_i ==> line_score(*board, player, j) > best,
        decreases N - i,
    {
        let s = score_of_line(board, player, i);
        if s < best {
            best = s;
            best_i = i;
        }
        i += 1;
    }
    (best, best_i)
}

} // verus!
