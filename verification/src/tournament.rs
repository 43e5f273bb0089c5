use vstd::prelude::*;

use crate::board::MAX_BOARD_SIZE;
use crate::game::{hand_size, spec_cards_per_player, GameConfig, GameState, Move, Player};
use crate::match_::{bots_chose, records, Match, MatchResult};
use crate::player::Bot;
use crate::progress::{balanced, empty_cells, lemma_start_balanced, legal_run, replay};
use crate::rng::{random_bool, random_u64, seeded_rng};
use crate::sorting::{rank_sorted, stable_sort_by_rank};
use crate::text::{chars_lt, str_less};

verus! {

/// The round-robin slots for `n_players` players: player `i` in slot `i`, and one empty slot more
/// when their number is odd, so that the number of slots is even.
pub open spec fn rr_schedule_of(n_players: int) -> Seq<Option<usize>> {
    Seq::new((n_players + n_players % 2) as nat, |i: int| if i < n_players { Some(i as usize) } else { None })
}

/// The number of players a schedule seats.
pub open spec fn rr_players(s: Seq<Option<usize>>) -> int {
    if s.len() > 0 && s.last() is None {
        s.len() - 1
    } else {
        s.len() as int
    }
}

/// `s` is the schedule of two players or more.
pub open spec fn rr_ready(s: Seq<Option<usize>>) -> bool {
    2 <= rr_players(s) && s.len() <= usize::MAX && s == rr_schedule_of(rr_players(s))
}

/// `x` brought back below `m` by one subtraction.
pub open spec fn wrap(x: int, m: int) -> int {
    if x >= m {
        x - m
    } else {
        x
    }
}

/// The rotation of the circle in round `r` of sweep `cycle`: `(cycle + r) mod (slots - 1)`.
pub open spec fn rr_phase(s: Seq<Option<usize>>, cycle: int, r: int) -> int {
    wrap(cycle % (s.len() - 1) + r, s.len() - 1)
}

/// The slot at place `k` of the rotating circle (all slots but the first) in round `r`.
pub open spec fn rr_slot(s: Seq<Option<usize>>, cycle: int, r: int, k: int) -> Option<usize> {
    s[1 + wrap(rr_phase(s, cycle, r) + k, s.len() - 1)]
}

/// Candidate pairing `j` of round `r`: the fixed first slot against the middle of the circle, or
/// place `j - 1` against place `slots - 1 - j`.
pub open spec fn rr_candidate(s: Seq<Option<usize>>, cycle: int, r: int, j: int) -> (Option<usize>, Option<usize>) {
    if j == 0 {
        (s[0], rr_slot(s, cycle, r, s.len() / 2 - 1))
    } else {
        (rr_slot(s, cycle, r, j - 1), rr_slot(s, cycle, r, s.len() - 1 - j))
    }
}

/// The game of candidate `j` of round `r`, when both its slots hold players; sides alternate with
/// the parity of `cycle + r + j`.
pub open spec fn rr_game(s: Seq<Option<usize>>, cycle: int, r: int, j: int) -> Option<(usize, usize)> {
    match rr_candidate(s, cycle, r, j) {
        (Some(x), Some(y)) => Some(
            if (cycle + r + j) % 2 == 0 {
                (x, y)
            } else {
                (y, x)
            },
        ),
        _ => None,
    }
}

/// The games of candidates `0..j` of round `r`, in order.
pub open spec fn round_games(s: Seq<Option<usize>>, cycle: int, r: int, j: int) -> Seq<(usize, usize)>
    decreases j,
{
    if j <= 0 {
        Seq::empty()
    } else {
        round_games(s, cycle, r, j - 1) + match rr_game(s, cycle, r, j - 1) {
            Some(g) => seq![g],
            None => Seq::empty(),
        }
    }
}

/// The games of rounds `0..r` of sweep `cycle`, in order.
pub open spec fn sweep_games(s: Seq<Option<usize>>, cycle: int, r: int) -> Seq<(usize, usize)>
    decreases r,
{
    if r <= 0 {
        Seq::empty()
    } else {
        sweep_games(s, cycle, r - 1) + round_games(s, cycle, r - 1, s.len() as int / 2)
    }
}

/// Game `g` is between `a` and `b`, either way round.
pub open spec fn is_between(g: (usize, usize), a: int, b: int) -> bool {
    (g.0 == a && g.1 == b) || (g.0 == b && g.1 == a)
}

/// How many of `games` are between `a` and `b`.
pub open spec fn pair_count(games: Seq<(usize, usize)>, a: int, b: int) -> nat
    decreases games.len(),
{
    if games.len() == 0 {
        0
    } else {
        pair_count(games.drop_last(), a, b) + if is_between(games.last(), a, b) {
            1nat
        } else {
            0nat
        }
    }
}

/// The round of a sweep in which players `a < b` meet.
pub open spec fn meeting_phase(s: Seq<Option<usize>>, a: int, b: int) -> int {
    let m = s.len() - 1;
    if a == 0 {
        wrap(b - 1 + m - (s.len() / 2 - 1), m)
    } else {
        let q = (a - 1) + (b - 1) + 1;
        if q % 2 == 0 {
            q / 2
        } else {
            wrap((q + m) / 2, m)
        }
    }
}

/// The round of sweep `cycle` in which players `a < b` meet.
pub open spec fn meeting_round(s: Seq<Option<usize>>, cycle: int, a: int, b: int) -> int {
    let m = s.len() - 1;
    wrap(meeting_phase(s, a, b) + m - cycle % m, m)
}

/// Place of player `a >= 1` on the circle when it is rotated by `phase`.
pub open spec fn circle_place(s: Seq<Option<usize>>, phase: int, a: int) -> int {
    let m = s.len() - 1;
    wrap((a - 1) + m - phase, m)
}

/// The candidate pairing in which players `a < b` meet.
pub open spec fn meeting_candidate(s: Seq<Option<usize>>, a: int, b: int) -> int {
    if a == 0 {
        0
    } else {
        let p = meeting_phase(s, a, b);
        let ka = circle_place(s, p, a);
        let kb = circle_place(s, p, b);
        (if ka < kb {
            ka
        } else {
            kb
        }) + 1
    }
}

/// Game `g` is between two different players of the `n_players`.
pub open spec fn is_proper_game(g: (usize, usize), n_players: int) -> bool {
    g.0 != g.1 && g.0 < n_players && g.1 < n_players
}

/// The slots of a ready schedule: player `i` in slot `i`, then an empty slot when odd.
proof fn lemma_slot_value(s: Seq<Option<usize>>, i: int)
    requires
        rr_ready(s),
        0 <= i < s.len(),
    ensures
        s[i] == if i < rr_players(s) {
            Some(i as usize)
        } else {
            None::<usize>
        },
        s.len() % 2 == 0,
        rr_players(s) <= s.len(),
{
}

/// Rounds and rotations correspond one to one.
proof fn lemma_meeting_round(s: Seq<Option<usize>>, cycle: int, r: int, a: int, b: int)
    requires
        rr_ready(s),
        0 <= cycle,
        0 <= r < s.len() - 1,
        0 <= a < b < rr_players(s),
    ensures
        0 <= meeting_phase(s, a, b) < s.len() - 1,
        0 <= meeting_round(s, cycle, a, b) < s.len() - 1,
        0 <= rr_phase(s, cycle, r) < s.len() - 1,
        (rr_phase(s, cycle, r) == meeting_phase(s, a, b)) <==> (r == meeting_round(s, cycle, a, b)),
{
    lemma_slot_value(s, 0);
    let m = s.len() - 1;
    assert(0 <= cycle % m < m);
}

/// An odd modulus halves uniquely: the rotation at which two circle players face each other.
proof fn lemma_halving(q: int, m: int, ph: int)
    requires
        m % 2 == 1,
        0 < m,
        0 <= ph < m,
        0 <= q < 2 * m,
        2 * ph == q || 2 * ph == q + m || 2 * ph == q - m,
    ensures
        ph == if q % 2 == 0 {
            q / 2
        } else {
            wrap((q + m) / 2, m)
        },
{
}

/// At the rotation where circle players `a < b` meet, their places face each other.
proof fn lemma_facing_places(s: Seq<Option<usize>>, a: int, b: int)
    requires
        rr_ready(s),
        0 < a < b < rr_players(s),
    ensures
        ({
            let ph = meeting_phase(s, a, b);
            let ka = circle_place(s, ph, a);
            let kb = circle_place(s, ph, b);
            &&& ka != kb
            &&& ka + kb == s.len() - 2
            &&& 0 <= ka < s.len() - 1
            &&& 0 <= kb < s.len() - 1
        }),
{
    lemma_slot_value(s, 0);
    let m = s.len() - 1;
    let q = (a - 1) + (b - 1) + 1;
    let ph = meeting_phase(s, a, b);
    if q % 2 == 0 {
        assert(2 * ph == q);
    } else {
        assert(2 * ph == q + m || 2 * ph == q - m);
    }
}

/// The fixed pairing of a round: player `0` against the middle of the circle.
proof fn lemma_fixed_pairing(s: Seq<Option<usize>>, cycle: int, r: int, a: int, b: int)
    requires
        rr_ready(s),
        0 <= cycle,
        0 <= r < s.len() - 1,
        0 <= a < b < rr_players(s),
    ensures
        (rr_game(s, cycle, r, 0) matches Some(g) && is_between(g, a, b)) <==> (a == 0 && rr_phase(s, cycle, r)
            == meeting_phase(s, a, b)),
        rr_game(s, cycle, r, 0) matches Some(g) ==> is_proper_game(g, rr_players(s)),
{
    let m = s.len() - 1;
    let pl = rr_players(s);
    let ph = rr_phase(s, cycle, r);
    lemma_meeting_round(s, cycle, r, a, b);
    let e = wrap(ph + s.len() / 2 - 1, m);
    lemma_slot_value(s, 0);
    lemma_slot_value(s, 1 + e);
    assert(rr_candidate(s, cycle, r, 0) == (s[0], s[1 + e]));
    if 1 + e < pl {
        let y = (1 + e) as usize;
        assert(rr_game(s, cycle, r, 0) == Some(if (cycle + r) % 2 == 0 { (0usize, y) } else { (y, 0usize) }));
    } else {
        assert(rr_game(s, cycle, r, 0) is None);
    }
}

/// A circle pairing of a round: places `j - 1` and `slots - 1 - j`.
proof fn lemma_circle_pairing(s: Seq<Option<usize>>, cycle: int, r: int, j: int, a: int, b: int)
    requires
        rr_ready(s),
        0 <= cycle,
        0 <= r < s.len() - 1,
        0 < j < s.len() / 2,
        0 <= a < b < rr_players(s),
    ensures
        (rr_game(s, cycle, r, j) matches Some(g) && is_between(g, a, b)) <==> (a > 0 && rr_phase(s, cycle, r)
            == meeting_phase(s, a, b) && j == meeting_candidate(s, a, b)),
        rr_game(s, cycle, r, j) matches Some(g) ==> is_proper_game(g, rr_players(s)),
{
    let m = s.len() - 1;
    let pl = rr_players(s);
    let ph = rr_phase(s, cycle, r);
    lemma_meeting_round(s, cycle, r, a, b);
    let e1 = wrap(ph + j - 1, m);
    let e2 = wrap(ph + m - j, m);
    lemma_slot_value(s, 1 + e1);
    lemma_slot_value(s, 1 + e2);
    assert(rr_candidate(s, cycle, r, j) == (s[1 + e1], s[1 + e2]));
    assert(e1 != e2);
    let between = (e1 == a - 1 && e2 == b - 1) || (e1 == b - 1 && e2 == a - 1);
    if 1 + e1 < pl && 1 + e2 < pl {
        let x = (1 + e1) as usize;
        let y = (1 + e2) as usize;
        assert(rr_game(s, cycle, r, j) == Some(if (cycle + r + j) % 2 == 0 { (x, y) } else { (y, x) }));
    } else {
        assert(rr_game(s, cycle, r, j) is None);
    }
    if a > 0 {
        let q = (a - 1) + (b - 1) + 1;
        if between {
            assert(2 * ph == q || 2 * ph == q + m || 2 * ph == q - m);
            lemma_halving(q, m, ph);
            let ka = circle_place(s, ph, a);
            let kb = circle_place(s, ph, b);
            lemma_facing_places(s, a, b);
            assert(j - 1 == ka || j - 1 == kb);
        }
        if ph == meeting_phase(s, a, b) && j == meeting_candidate(s, a, b) {
            lemma_facing_places(s, a, b);
            assert(between);
        }
    }
}

/// Candidate `j` of round `r` is a game between `a < b` exactly when it is the round and the
/// candidate in which they meet; and every game of a round pairs two different players.
proof fn lemma_game_between(s: Seq<Option<usize>>, cycle: int, r: int, j: int, a: int, b: int)
    requires
        rr_ready(s),
        0 <= cycle,
        0 <= r < s.len() - 1,
        0 <= j < s.len() / 2,
        0 <= a < b < rr_players(s),
    ensures
        (rr_game(s, cycle, r, j) matches Some(g) && is_between(g, a, b)) <==> (r == meeting_round(s, cycle, a, b) && j
            == meeting_candidate(s, a, b)),
        rr_game(s, cycle, r, j) matches Some(g) ==> is_proper_game(g, rr_players(s)),
        0 <= meeting_round(s, cycle, a, b) < s.len() - 1,
        0 <= meeting_candidate(s, a, b) < s.len() / 2,
{
    lemma_meeting_round(s, cycle, r, a, b);
    if a > 0 {
        lemma_facing_places(s, a, b);
    }
    if j == 0 {
        lemma_fixed_pairing(s, cycle, r, a, b);
    } else {
        lemma_circle_pairing(s, cycle, r, j, a, b);
    }
}

/// Joining two lists of games adds their counts of games between `a` and `b`.
proof fn lemma_pair_count_join(x: Seq<(usize, usize)>, y: Seq<(usize, usize)>, a: int, b: int)
    ensures
        pair_count(x + y, a, b) == pair_count(x, a, b) + pair_count(y, a, b),
    decreases y.len(),
{
    if y.len() == 0 {
        assert(x + y =~= x);
    } else {
        assert((x + y).drop_last() =~= x + y.drop_last());
        lemma_pair_count_join(x, y.drop_last(), a, b);
    }
}

/// Counting a round's games between `a < b`, and checking that they are proper.
proof fn lemma_round_count(s: Seq<Option<usize>>, cycle: int, r: int, jj: int, a: int, b: int)
    requires
        rr_ready(s),
        0 <= cycle,
        0 <= r < s.len() - 1,
        0 <= jj <= s.len() / 2,
        0 <= a < b < rr_players(s),
    ensures
        pair_count(round_games(s, cycle, r, jj), a, b) == if r == meeting_round(s, cycle, a, b) && meeting_candidate(s, a, b)
            < jj {
            1nat
        } else {
            0nat
        },
        forall|k: int|
            0 <= k < round_games(s, cycle, r, jj).len() ==> is_proper_game(
                #[trigger] round_games(s, cycle, r, jj)[k],
                rr_players(s),
            ),
    decreases jj,
{
    if jj > 0 {
        lemma_round_count(s, cycle, r, jj - 1, a, b);
        lemma_game_between(s, cycle, r, jj - 1, a, b);
        let prev = round_games(s, cycle, r, jj - 1);
        let tail = match rr_game(s, cycle, r, jj - 1) {
            Some(g) => seq![g],
            None => Seq::<(usize, usize)>::empty(),
        };
        lemma_pair_count_join(prev, tail, a, b);
        reveal_with_fuel(pair_count, 2);
        if let Some(g) = rr_game(s, cycle, r, jj - 1) {
            assert(tail.drop_last() =~= Seq::<(usize, usize)>::empty());
            assert forall|k: int|
                0 <= k < round_games(s, cycle, r, jj).len() implies is_proper_game(
                    #[trigger] round_games(s, cycle, r, jj)[k],
                    rr_players(s),
                ) by {
                if k < prev.len() {
                    assert(round_games(s, cycle, r, jj)[k] == prev[k]);
                }
            }
        } else {
            assert(round_games(s, cycle, r, jj) =~= prev);
        }
    }
}

/// Counting a sweep's games between `a < b`, and checking that they are proper.
proof fn lemma_sweep_count(s: Seq<Option<usize>>, cycle: int, rr: int, a: int, b: int)
    requires
        rr_ready(s),
        0 <= cycle,
        0 <= rr <= s.len() - 1,
        0 <= a < b < rr_players(s),
    ensures
        pair_count(sweep_games(s, cycle, rr), a, b) == if meeting_round(s, cycle, a, b) < rr {
            1nat
        } else {
            0nat
        },
        forall|k: int|
            0 <= k < sweep_games(s, cycle, rr).len() ==> is_proper_game(
                #[trigger] sweep_games(s, cycle, rr)[k],
                rr_players(s),
            ),
    decreases rr,
{
    if rr > 0 {
        lemma_sweep_count(s, cycle, rr - 1, a, b);
        lemma_round_count(s, cycle, rr - 1, s.len() as int / 2, a, b);
        lemma_game_between(s, cycle, 0, 0, a, b);
        let prev = sweep_games(s, cycle, rr - 1);
        let round = round_games(s, cycle, rr - 1, s.len() as int / 2);
        lemma_pair_count_join(prev, round, a, b);
        assert forall|k: int|
            0 <= k < sweep_games(s, cycle, rr).len() implies is_proper_game(
                #[trigger] sweep_games(s, cycle, rr)[k],
                rr_players(s),
            ) by {
            if k < prev.len() {
                assert(sweep_games(s, cycle, rr)[k] == prev[k]);
            } else {
                assert(sweep_games(s, cycle, rr)[k] == round[k - prev.len()]);
            }
        }
    }
}

/// One sweep of a round robin among `n_players >= 2` players pairs every two of them exactly
/// once, and never a player with itself.
pub proof fn lemma_round_robin_sweep(n_players: int, cycle: int)
    requires
        2 <= n_players < usize::MAX,
        0 <= cycle,
    ensures
        forall|a: int, b: int|
            0 <= a < b < n_players ==> #[trigger] pair_count(
                sweep_games(rr_schedule_of(n_players), cycle, rr_schedule_of(n_players).len() - 1),
                a,
                b,
            ) == 1,
        forall|k: int|
            0 <= k < sweep_games(rr_schedule_of(n_players), cycle, rr_schedule_of(n_players).len() - 1).len()
                ==> is_proper_game(
                #[trigger] sweep_games(rr_schedule_of(n_players), cycle, rr_schedule_of(n_players).len() - 1)[k],
                n_players,
            ),
{
    let s = rr_schedule_of(n_players);
    assert(rr_players(s) == n_players);
    assert(rr_ready(s));
    assert forall|a: int, b: int| 0 <= a < b < n_players implies #[trigger] pair_count(
        sweep_games(s, cycle, s.len() - 1),
        a,
        b,
    ) == 1 by {
        lemma_sweep_count(s, cycle, s.len() - 1, a, b);
    }
    lemma_sweep_count(s, cycle, s.len() - 1, 0, 1);
}

/// `x + y` brought back below `m`, for `x` and `y` below `m`.
fn wrap_add(x: usize, y: usize, m: usize) -> (r: usize)
    requires
        x < m,
        y < m,
    ensures
        r == wrap(x + y, m as int),
        r < m,
{
    if x >= m - y {
        x - (m - y)
    } else {
        x + y
    }
}

/// Round-robin tournament: each sweep, every player meets every other once, by the circle
/// method (the first slot stays, the others rotate one place per round).
#[derive(Clone, Debug)]
pub struct RoundRobin {
    pub sweeps: usize,
    pub schedule: Vec<Option<usize>>,
}

impl RoundRobin {
    /// The schedule's slots.
    pub open spec fn schedule(&self) -> Seq<Option<usize>> {
        self.schedule@
    }

    /// A round robin of `sweeps` sweeps, its schedule not yet set.
    pub fn new(sweeps: usize) -> (r: Self)
        ensures
            r.sweeps == sweeps,
            r.schedule() == Seq::<Option<usize>>::empty(),
    {
        RoundRobin { sweeps, schedule: Vec::new() }
    }

    /// Seat `n_players` players, adding an empty slot when their number is odd.
    pub fn init(&mut self, n_players: usize)
        requires
            2 <= n_players < usize::MAX,
        ensures
            final(self).sweeps == old(self).sweeps,
            final(self).schedule() == rr_schedule_of(n_players as int),
            rr_ready(final(self).schedule()),
    {
        let mut schedule: Vec<Option<usize>> = Vec::new();
        let mut i: usize = 0;
        while i < n_players
            invariant
                i <= n_players,
                schedule@ == Seq::new(i as nat, |k: int| Some(k as usize)),
            decreases n_players - i,
        {
            schedule.push(Some(i));
            proof {
                assert(schedule@ =~= Seq::new((i + 1) as nat, |k: int| Some(k as usize)));
            }
            i += 1;
        }
        if n_players % 2 == 1 {
            schedule.push(None);
        }
        self.schedule = schedule;
        proof {
            assert(self.schedule@ =~= rr_schedule_of(n_players as int));
        }
    }

    /// Number of sweeps.
    pub fn cycles(&self) -> (r: usize)
        ensures
            r == self.sweeps,
    {
        self.sweeps
    }

    /// The games of sweep `cycle` as `(first player, second player, seed)`: round by round, the
    /// fixed slot against the middle of the circle, then the circle's places paired from the
    /// outside in; pairings with the empty slot are skipped. Each game gets a fresh seed.
    pub fn pairs_for_cycle(&self, cycle: usize, rng: &mut rand::rngs::SmallRng) -> (r: Vec<(usize, usize, u64)>)
        requires
            rr_ready(self.schedule()),
        ensures
            r@.map_values(|g: (usize, usize, u64)| (g.0, g.1)) == sweep_games(
                self.schedule(),
                cycle as int,
                self.schedule().len() - 1,
            ),
    {
        let ghost s = self.schedule@;
        let n = self.schedule.len();
        let rounds = n - 1;
        let half = n / 2;
        let sweep_offset = cycle % rounds;
        let fixed = self.schedule[0];
        let mut pairs: Vec<(usize, usize, u64)> = Vec::new();
        let mut round: usize = 0;
        while round < rounds
            invariant
                s == self.schedule@,
                2 <= n,
                n == s.len(),
                rounds == n - 1,
                half == n / 2,
                sweep_offset == cycle % rounds,
                fixed == s[0],
                round <= rounds,
                pairs@.map_values(|g: (usize, usize, u64)| (g.0, g.1)) == sweep_games(s, cycle as int, round as int),
            decreases rounds - round,
        {
            let phase = wrap_add(sweep_offset, round, rounds);
            let ghost before = pairs@.map_values(|g: (usize, usize, u64)| (g.0, g.1));
            let mut j: usize = 0;
            while j < half
                invariant
                    s == self.schedule@,
                    2 <= n,
                    n == s.len(),
                    rounds == n - 1,
                    half == n / 2,
                    round < rounds,
                    phase == rr_phase(s, cycle as int, round as int),
                    fixed == s[0],
                    j <= half,
                    before == sweep_games(s, cycle as int, round as int),
                    pairs@.map_values(|g: (usize, usize, u64)| (g.0, g.1)) == before + round_games(
                        s,
                        cycle as int,
                        round as int,
                        j as int,
                    ),
                decreases half - j,
            {
                let (x, y) = if j == 0 {
                    let e = wrap_add(phase, half - 1, rounds);
                    (fixed, self.schedule[1 + e])
                } else {
                    let e1 = wrap_add(phase, j - 1, rounds);
                    let e2 = wrap_add(phase, rounds - j, rounds);
                    (self.schedule[1 + e1], self.schedule[1 + e2])
                };
                proof {
                    assert((x, y) == rr_candidate(s, cycle as int, round as int, j as int));
                }
                let ghost mid = pairs@;
                if let (Some(a), Some(b)) = (x, y) {
                    let seed = random_u64(rng);
                    let straight = (cycle % 2 + round % 2 + j % 2) % 2 == 0;
                    proof {
                        assert(straight == ((cycle + round + j) % 2 == 0));
                    }
                    let game = if straight {
                        (a, b, seed)
                    } else {
                        (b, a, seed)
                    };
                    pairs.push(game);
                    proof {
                        assert(pairs@.map_values(|g: (usize, usize, u64)| (g.0, g.1)) =~= mid.map_values(
                            |g: (usize, usize, u64)| (g.0, g.1),
                        ).push((game.0, game.1)));
                    }
                }
                proof {
                    assert(pairs@.map_values(|g: (usize, usize, u64)| (g.0, g.1)) =~= before + round_games(
                        s,
                        cycle as int,
                        round as int,
                        j + 1,
                    ));
                }
                j += 1;
            }
            proof {
                assert(pairs@.map_values(|g: (usize, usize, u64)| (g.0, g.1)) =~= sweep_games(
                    s,
                    cycle as int,
                    round + 1,
                ));
            }
            round += 1;
        }
        pairs
    }
}

/// Play one game between `p1` (player `A`, columns) and `p2` (player `B`, rows) on a fresh deal
/// drawn from `seed`, to the end: every move is one the bot of the player to move may pick.
pub fn play_game<const N: usize, P1: Bot<N>, P2: Bot<N>>(
    p1_id: String,
    p2_id: String,
    seed: u64,
    config: GameConfig,
    p1: P1,
    p2: P2,
) -> (r: MatchResult)
    requires
        3 <= N <= MAX_BOARD_SIZE,
        N % 2 == 1,
        config.size == N,
    ensures
        exists|start: GameState<N>, moves: Seq<Move>|
            {
                &&& start.wf()
                &&& start.turn == crate::game::Player::A
                &&& start.config == config
                &&& balanced(start)
                &&& legal_run(start, moves)
                &&& bots_chose(p1, p2, start, moves, 0)
                &&& moves.len() == N * N - 1
                &&& replay(start, moves).board.full()
                &&& #[trigger] records(r, p1_id@, p2_id@, replay(start, moves).board, moves)
            },
{
    let mut rng = seeded_rng(seed);
    proof {
        assert(2 * spec_cards_per_player(N as int) == N * N - 1) by {
            assert(N == 1 || N == 3 || N == 5 || N == 7 || N == 9 || N == 11 || N == 13 || N == 15);
        }
        assert(N * N <= (N + 1) * (N + 1)) by (nonlinear_arith);
    }
    let game = GameState::<N>::new(config, &mut rng);
    proof {
        lemma_start_balanced(game);
        assert(N * N - 1 > 0) by (nonlinear_arith)
            requires
                3 <= N,
        ;
    }
    let m = Match::new(game, p1, p2, p1_id, p2_id);
    proof {
        if game.board.full() {
            crate::progress::lemma_full_no_empty(game.board);
        }
    }
    m.run()
}

/// `2^k`.
pub open spec fn two_pow(k: nat) -> nat
    decreases k,
{
    if k == 0 {
        1
    } else {
        2 * two_pow((k - 1) as nat)
    }
}

/// `k` is the base-2 logarithm of `n >= 1`, rounded up: the least `k` with `2^k >= n`.
pub open spec fn is_ceil_log2(n: int, k: int) -> bool {
    0 <= k && two_pow(k as nat) >= n && (k == 0 || two_pow((k - 1) as nat) < n)
}

/// The base-2 logarithm of `n`, rounded up (the number of rounds of a knockout bracket).
pub fn ceil_log2(n: usize) -> (r: usize)
    requires
        n >= 1,
    ensures
        is_ceil_log2(n as int, r as int),
{
    let mut k: usize = 0;
    let mut p: u128 = 1;
    while p < n as u128
        invariant
            n >= 1,
            k <= 64,
            p == two_pow(k as nat),
            k == 0 || two_pow((k - 1) as nat) < n,
            p <= 2 * (n as u128),
        decreases 64 - k,
    {
        proof {
            assert(k < 64) by {
                if k == 64 {
                    lemma_two_pow_64();
                }
            }
        }
        p = p * 2;
        k += 1;
    }
    k
}

/// `2^64` is more than any `usize`.
proof fn lemma_two_pow_64()
    ensures
        two_pow(64) > usize::MAX,
{
    reveal_with_fuel(two_pow, 65);
}

/// The first player advances: a higher score, or on equal scores the smaller id.
pub open spec fn first_advances(r: MatchResult) -> bool {
    r.p1_score > r.p2_score || (r.p1_score == r.p2_score && chars_lt(r.p1_id@, r.p2_id@))
}

/// Whether the first player of a finished game advances in a knockout bracket (see
/// [`first_advances`]).
pub fn first_player_advances(result: &MatchResult) -> (r: bool)
    ensures
        r == first_advances(*result),
{
    if result.p1_score > result.p2_score {
        true
    } else if result.p1_score < result.p2_score {
        false
    } else {
        str_less(result.p1_id.as_str(), result.p2_id.as_str())
    }
}

/// The players `0..n` in order.
pub open spec fn players_upto(n: int) -> Seq<usize> {
    Seq::new(n as nat, |i: int| i as usize)
}

/// The players `0..n`.
fn all_players(n: usize) -> (r: Vec<usize>)
    ensures
        r@ == players_upto(n as int),
{
    let mut v: Vec<usize> = Vec::new();
    let mut i: usize = 0;
    while i < n
        invariant
            i <= n,
            v@ == Seq::new(i as nat, |k: int| k as usize),
        decreases n - i,
    {
        v.push(i);
        proof {
            assert(v@ =~= Seq::new((i + 1) as nat, |k: int| k as usize));
        }
        i += 1;
    }
    v
}

/// Single-elimination brackets, repeated: players are paired with their neighbours in rating
/// order, winners advance, until one is left. Players are numbered `0..n`; `rank[p]` orders them by
/// rating (higher rank, higher rating).
#[derive(Clone, Debug)]
pub struct Elimination {
    pub brackets: usize,
    pub max_inner_rounds: usize,
    pub n: usize,
    /// Survivors of the current bracket round, in rating order.
    pub active: Vec<usize>,
    /// Winners so far of this round, and the player with a bye.
    pub next_active: Vec<usize>,
    /// Bracket index.
    pub current_bracket: usize,
}

/// The game pairing of a knockout round: neighbours `2i` and `2i + 1` of `active`, sides swapped
/// when `parity` is odd.
pub open spec fn knockout_pair(active: Seq<usize>, parity: int, i: int) -> (usize, usize) {
    if parity % 2 == 0 {
        (active[2 * i], active[2 * i + 1])
    } else {
        (active[2 * i + 1], active[2 * i])
    }
}

impl Elimination {
    /// `brackets` brackets, nothing set up yet.
    pub fn new(brackets: usize) -> (r: Self)
        ensures
            r.brackets == brackets,
            r.max_inner_rounds == 0,
            r.n == 0,
            r.active@ == Seq::<usize>::empty(),
            r.next_active@ == Seq::<usize>::empty(),
            r.current_bracket == 0,
    {
        Elimination {
            brackets,
            max_inner_rounds: 0,
            n: 0,
            active: Vec::new(),
            next_active: Vec::new(),
            current_bracket: 0,
        }
    }

    /// Start a bracket: every player active, in ascending rating order.
    pub fn reset_bracket(&mut self, rank: &Vec<u128>)
        requires
            old(self).n <= rank.len(),
        ensures
            final(self).active@ == rank_sorted(players_upto(old(self).n as int), rank@),
            final(self).next_active@ == Seq::<usize>::empty(),
            final(self).brackets == old(self).brackets,
            final(self).max_inner_rounds == old(self).max_inner_rounds,
            final(self).n == old(self).n,
            final(self).current_bracket == old(self).current_bracket,
    {
        let players = all_players(self.n);
        self.active = stable_sort_by_rank(&players, rank);
        self.next_active = Vec::new();
    }

    /// Set up for `n >= 2` players: the number of rounds a bracket can take, and the first
    /// bracket.
    pub fn init(&mut self, n: usize, rank: &Vec<u128>)
        requires
            n >= 2,
            n <= rank.len(),
        ensures
            final(self).n == n,
            is_ceil_log2(n as int, final(self).max_inner_rounds as int),
            final(self).current_bracket == 0,
            final(self).brackets == old(self).brackets,
            final(self).active@ == rank_sorted(players_upto(n as int), rank@),
            final(self).next_active@ == Seq::<usize>::empty(),
    {
        self.n = n;
        self.max_inner_rounds = ceil_log2(n);
        self.current_bracket = 0;
        self.reset_bracket(rank);
    }

    /// Number of cycles: a round slot for every possible round of every bracket.
    pub fn cycles(&self) -> (r: usize)
        requires
            self.brackets * self.max_inner_rounds <= usize::MAX,
        ensures
            r == self.brackets * self.max_inner_rounds,
    {
        self.brackets * self.max_inner_rounds
    }

    /// The games of `cycle`: none once the bracket is down to one player; otherwise neighbours
    /// in `active` are paired, and with an odd number the last player gets a bye (it advances).
    pub fn pairs_for_cycle(&mut self, cycle: usize, rng: &mut rand::rngs::SmallRng) -> (r: Vec<(usize, usize, u64)>)
        requires
            old(self).max_inner_rounds > 0,
        ensures
            final(self).brackets == old(self).brackets,
            final(self).max_inner_rounds == old(self).max_inner_rounds,
            final(self).n == old(self).n,
            final(self).current_bracket == old(self).current_bracket,
            final(self).active@ == old(self).active@,
            old(self).active.len() <= 1 ==> r@.len() == 0 && final(self).next_active@ == old(self).next_active@,
            old(self).active.len() > 1 ==> {
                let a = old(self).active@;
                let parity = old(self).current_bracket + cycle % old(self).max_inner_rounds;
                &&& final(self).next_active@ == if a.len() % 2 == 1 {
                    seq![a.last()]
                } else {
                    Seq::<usize>::empty()
                }
                &&& r@.len() == a.len() / 2
                &&& forall|i: int|
                    0 <= i < r@.len() ==> ((#[trigger] r@[i]).0, r@[i].1) == knockout_pair(a, parity, i)
            },
    {
        if self.active.len() <= 1 {
            return Vec::new();
        }
        let inner_round = cycle % self.max_inner_rounds;
        self.next_active = Vec::new();
        if self.active.len() % 2 == 1 {
            let last = self.active[self.active.len() - 1];
            self.next_active.push(last);
        }
        let ghost a = self.active@;
        let mut pairs: Vec<(usize, usize, u64)> = Vec::new();
        let straight = (self.current_bracket % 2 + inner_round % 2) % 2 == 0;
        let mut i: usize = 0;
        while i + 1 < self.active.len()
            invariant
                a == self.active@,
                i % 2 == 0,
                i <= self.active.len(),
                pairs@.len() == i / 2,
                straight == ((self.current_bracket + inner_round) % 2 == 0),
                forall|k: int|
                    0 <= k < pairs@.len() ==> ((#[trigger] pairs@[k]).0, pairs@[k].1) == knockout_pair(
                        a,
                        self.current_bracket + inner_round,
                        k,
                    ),
            decreases self.active.len() - i,
        {
            let seed = random_u64(rng);
            let game = if straight {
                (self.active[i], self.active[i + 1], seed)
            } else {
                (self.active[i + 1], self.active[i], seed)
            };
            proof {
                assert(2 * (i / 2) == i);
            }
            pairs.push(game);
            i += 2;
        }
        proof {
            assert(pairs@.len() == a.len() / 2);
        }
        pairs
    }

    /// Record a finished game between `p1` and `p2`: the player who advances (see
    /// [`first_advances`]) joins the next round.
    pub fn apply_result(&mut self, p1: usize, p2: usize, result: &MatchResult)
        ensures
            final(self).next_active@ == old(self).next_active@.push(
                if first_advances(*result) {
                    p1
                } else {
                    p2
                },
            ),
            final(self).active@ == old(self).active@,
            final(self).brackets == old(self).brackets,
            final(self).max_inner_rounds == old(self).max_inner_rounds,
            final(self).n == old(self).n,
            final(self).current_bracket == old(self).current_bracket,
    {
        let winner = if first_player_advances(result) {
            p1
        } else {
            p2
        };
        self.next_active.push(winner);
    }

    /// Close `cycle`: the round's winners become the active players, in rating order; a bracket
    /// down to one player ends at its last round slot, and the next bracket (if any) starts.
    pub fn end_cycle(&mut self, cycle: usize, rank: &Vec<u128>)
        requires
            old(self).max_inner_rounds > 0,
            old(self).n <= rank.len(),
            forall|k: int| 0 <= k < old(self).next_active.len() ==> (#[trigger] old(self).next_active@[k]) < rank.len(),
            old(self).current_bracket < usize::MAX,
        ensures
            final(self).brackets == old(self).brackets,
            final(self).max_inner_rounds == old(self).max_inner_rounds,
            final(self).n == old(self).n,
            ({
                let last_slot = cycle % old(self).max_inner_rounds == old(self).max_inner_rounds - 1;
                let done = if old(self).active.len() <= 1 {
                    last_slot
                } else {
                    old(self).next_active.len() == 1 && last_slot
                };
                let restart = done && old(self).current_bracket + 1 < old(self).brackets;
                &&& final(self).current_bracket == old(self).current_bracket + if done {
                    1int
                } else {
                    0int
                }
                &&& restart ==> final(self).active@ == rank_sorted(players_upto(old(self).n as int), rank@)
                    && final(self).next_active@ == Seq::<usize>::empty()
                &&& !restart && old(self).active.len() > 1 ==> final(self).active@ == rank_sorted(
                    old(self).next_active@,
                    rank@,
                ) && final(self).next_active@ == Seq::<usize>::empty()
                &&& !restart && old(self).active.len() <= 1 ==> final(self).active@ == old(self).active@
                    && final(self).next_active@ == old(self).next_active@
            }),
    {
        let inner_round = cycle % self.max_inner_rounds;
        if self.active.len() <= 1 {
            if inner_round == self.max_inner_rounds - 1 {
                self.current_bracket += 1;
                if self.current_bracket < self.brackets {
                    self.reset_bracket(rank);
                }
            }
            return;
        }
        self.active = stable_sort_by_rank(&self.next_active, rank);
        self.next_active = Vec::new();
        if self.active.len() == 1 {
            if inner_round == self.max_inner_rounds - 1 {
                self.current_bracket += 1;
                if self.current_bracket < self.brackets {
                    self.reset_bracket(rank);
                }
            }
        }
    }
}

/// The players of `pairs`, each pair's two in turn.
pub open spec fn pair_players(pairs: Seq<(usize, usize)>) -> Seq<usize>
    decreases pairs.len(),
{
    if pairs.len() == 0 {
        Seq::empty()
    } else {
        pair_players(pairs.drop_last()) + seq![pairs.last().0, pairs.last().1]
    }
}

/// Adding a pair adds its two players.
proof fn lemma_pair_players_push(pairs: Seq<(usize, usize)>, g: (usize, usize))
    ensures
        pair_players(pairs.push(g)) == pair_players(pairs) + seq![g.0, g.1],
{
    assert(pairs.push(g).drop_last() =~= pairs);
}

/// A sequence whose multiset is that of a sequence without duplicates has none either.
proof fn lemma_same_multiset_no_duplicates(a: Seq<usize>, b: Seq<usize>)
    requires
        a.to_multiset() == b.to_multiset(),
        b.no_duplicates(),
    ensures
        a.no_duplicates(),
{
    b.lemma_multiset_has_no_duplicates();
    a.lemma_multiset_has_no_duplicates_conv();
}

/// The keys of the Swiss pairing order: score descending, then rating (`rank`) descending.
pub open spec fn fide_keys(scores: Seq<u32>, rank: Seq<u64>) -> Seq<u128> {
    Seq::new(
        scores.len(),
        |p: int| ((u32::MAX - scores[p]) * 0x1_0000_0000_0000_0000 + (u64::MAX - rank[p])) as u128,
    )
}

/// The end of the run of players with score `s` in `order`, from place `j` on.
pub open spec fn score_run_end(order: Seq<usize>, scores: Seq<u32>, s: u32, j: int) -> int
    decreases order.len() - j,
{
    if j >= order.len() || scores[order[j] as int] != s {
        j
    } else {
        score_run_end(order, scores, s, j + 1)
    }
}

/// A run that starts on a player of its score ends after that player.
pub proof fn lemma_score_run_end(order: Seq<usize>, scores: Seq<u32>, s: u32, j: int)
    ensures
        score_run_end(order, scores, s, j) >= j,
        j < order.len() ==> score_run_end(order, scores, s, j) <= order.len(),
        j < order.len() && scores[order[j] as int] == s ==> score_run_end(order, scores, s, j) > j,
    decreases order.len() - j,
{
    if j < order.len() && scores[order[j] as int] == s {
        lemma_score_run_end(order, scores, s, j + 1);
    }
}

/// The top half of `g` against its bottom half: `(g[j], g[len/2 + j])`.
pub open spec fn halves_pairs(g: Seq<usize>) -> Seq<(usize, usize)> {
    Seq::new(g.len() / 2, |j: int| (g[j], g[g.len() / 2 + j]))
}

/// The group that starts at place `i` of `order`, after `carried`: the carried player, then the
/// run of players with the score of `order[i]`, sorted by `desc`.
pub open spec fn fide_group(order: Seq<usize>, scores: Seq<u32>, desc: Seq<u128>, i: int, carried: Seq<usize>) -> Seq<usize> {
    rank_sorted(carried + order.subrange(i, score_run_end(order, scores, scores[order[i] as int], i)), desc)
}

/// A group without its last player when it is odd.
pub open spec fn even_part(g: Seq<usize>) -> Seq<usize> {
    if g.len() % 2 == 1 {
        g.drop_last()
    } else {
        g
    }
}

/// The last player of an odd group, carried down to the next group.
pub open spec fn odd_out(g: Seq<usize>) -> Seq<usize> {
    if g.len() % 2 == 1 {
        seq![g.last()]
    } else {
        Seq::empty()
    }
}

/// The Swiss pairs from place `i` of the pairing order `order` on, `carried` dropped down from
/// the group above: each group's top half plays its bottom half ([`halves_pairs`]).
pub open spec fn fide_from(order: Seq<usize>, scores: Seq<u32>, desc: Seq<u128>, i: int, carried: Seq<usize>) -> Seq<
    (usize, usize),
>
    decreases order.len() - i,
{
    if i < 0 || i >= order.len() {
        Seq::empty()
    } else {
        let e = score_run_end(order, scores, scores[order[i] as int], i);
        let g = fide_group(order, scores, desc, i, carried);
        proof {
            lemma_score_run_end(order, scores, scores[order[i] as int], i);
        }
        halves_pairs(even_part(g)) + fide_from(order, scores, desc, e, odd_out(g))
    }
}

/// The Swiss pairs by score: players `0..n` in pairing order ([`fide_keys`]), paired group by
/// group ([`fide_from`]) with ties of rating kept in player order.
pub open spec fn fide_pairs(scores: Seq<u32>, rank: Seq<u64>) -> Seq<(usize, usize)> {
    fide_from(
        rank_sorted(players_upto(scores.len() as int), fide_keys(scores, rank)),
        scores,
        descending_keys(rank),
        0,
        Seq::empty(),
    )
}

/// Pair players within score groups, as FIDE Swiss does ([`fide_pairs`]): players in order of
/// score, then rating (both descending); each group of equal score, with the player carried down
/// from the group above first, is ordered by rating (descending) and its top half plays its bottom
/// half; an odd group carries its last player down to the next group. Players are numbered `0..n`
/// by position in `scores`; `rank[p]` orders them by rating.
///
/// Every player plays at most once and never against itself, and all are paired but one when
/// their number is odd.
pub fn fide_pair_by_score(scores: &Vec<u32>, rank: &Vec<u64>) -> (r: Vec<(usize, usize)>)
    requires
        scores.len() == rank.len(),
    ensures
        r@ == fide_pairs(scores@, rank@),
        r@.len() == scores.len() / 2,
        pair_players(r@).no_duplicates(),
        forall|k: int| 0 <= k < pair_players(r@).len() ==> (#[trigger] pair_players(r@)[k]) < scores.len(),
{
    broadcast use {vstd::seq_lib::group_to_multiset_ensures, vstd::multiset::group_multiset_axioms};

    let n = scores.len();
    let mut keys: Vec<u128> = Vec::new();
    let mut desc: Vec<u128> = Vec::new();
    let mut p: usize = 0;
    while p < n
        invariant
            n == scores.len(),
            n == rank.len(),
            p <= n,
            keys@ == fide_keys(scores@, rank@).take(p as int),
            desc@ == descending_keys(rank@).take(p as int),
        decreases n - p,
    {
        let by_rating = (u64::MAX - rank[p]) as u128;
        let by_score = (u32::MAX - scores[p]) as u128;
        keys.push(by_score * 0x1_0000_0000_0000_0000u128 + by_rating);
        desc.push(by_rating);
        proof {
            assert(keys@ =~= fide_keys(scores@, rank@).take(p + 1));
            assert(desc@ =~= descending_keys(rank@).take(p + 1));
        }
        p += 1;
    }
    proof {
        assert(keys@ =~= fide_keys(scores@, rank@));
        assert(desc@ =~= descending_keys(rank@));
    }
    let everyone = all_players(n);
    let players = stable_sort_by_rank(&everyone, &keys);
    proof {
        assert(everyone@.no_duplicates());
        lemma_same_multiset_no_duplicates(players@, everyone@);
        assert forall|k: int| 0 <= k < players.len() implies (#[trigger] players@[k]) < n by {
            assert(players@.to_multiset().contains(players@[k]));
            assert(everyone@.contains(players@[k]));
        }
    }
    let ghost order = players@;
    let ghost ds = desc@;
    let mut pairs: Vec<(usize, usize)> = Vec::new();
    let mut unpaired: Vec<usize> = Vec::new();
    let mut i: usize = 0;
    proof {
        assert(pairs@ + fide_from(order, scores@, ds, 0, unpaired@) =~= fide_pairs(scores@, rank@));
    }
    while i < n
        invariant
            n == scores.len(),
            n == players.len(),
            order == players@,
            ds == desc@,
            keys.len() == n,
            desc.len() == n,
            players@.no_duplicates(),
            forall|k: int| 0 <= k < players.len() ==> (#[trigger] players@[k]) < n,
            i <= n,
            unpaired.len() <= 1,
            forall|k: int| 0 <= k < unpaired.len() ==> (#[trigger] unpaired@[k]) < n,
            (pair_players(pairs@) + unpaired@).to_multiset() == players@.take(i as int).to_multiset(),
            pairs@ + fide_from(order, scores@, ds, i as int, unpaired@) == fide_pairs(scores@, rank@),
        decreases n - i,
    {
        let group_score = scores[players[i]];
        let ghost i0 = i;
        let ghost carried = unpaired@;
        let ghost pairs0 = pairs@;
        let mut group = unpaired;
        unpaired = Vec::new();
        while i < n && scores[players[i]] == group_score
            invariant
                n == scores.len(),
                n == players.len(),
                order == players@,
                forall|k: int| 0 <= k < players.len() ==> (#[trigger] players@[k]) < n,
                i0 <= i <= n,
                i0 < n,
                group_score == scores@[players@[i0 as int] as int],
                group@ == carried + players@.subrange(i0 as int, i as int),
                forall|k: int| 0 <= k < carried.len() ==> (#[trigger] carried[k]) < n,
                score_run_end(order, scores@, group_score, i0 as int) == score_run_end(order, scores@, group_score, i as int),
            decreases n - i,
        {
            group.push(players[i]);
            proof {
                assert(players@.subrange(i0 as int, i + 1) =~= players@.subrange(i0 as int, i as int).push(players@[i as int]));
            }
            i += 1;
        }
        proof {
            assert(i > i0);
            assert(score_run_end(order, scores@, group_score, i as int) == i);
            assert(players@.take(i as int) =~= players@.take(i0 as int) + players@.subrange(i0 as int, i as int));
            vstd::seq_lib::lemma_multiset_commutative(players@.take(i0 as int), players@.subrange(i0 as int, i as int));
            vstd::seq_lib::lemma_multiset_commutative(pair_players(pairs@), carried);
            vstd::seq_lib::lemma_multiset_commutative(carried, players@.subrange(i0 as int, i as int));
        }
        proof {
            assert forall|k: int| 0 <= k < group.len() implies (#[trigger] group@[k]) < desc.len() by {
                if k < carried.len() {
                    assert(group@[k] == carried[k]);
                } else {
                    assert(group@[k] == players@[i0 + k - carried.len()]);
                }
            }
        }
        let mut sorted = stable_sort_by_rank(&group, &desc);
        let ghost whole = sorted@;
        proof {
            assert(whole == fide_group(order, scores@, ds, i0 as int, carried));
        }
        if sorted.len() % 2 == 1 {
            let last = sorted.pop().unwrap();
            proof {
                assert(whole[whole.len() - 1] == last);
                assert(whole.contains(last));
                vstd::seq_lib::to_multiset_contains(whole, last);
                vstd::seq_lib::to_multiset_contains(group@, last);
                assert(group@.contains(last));
            }
            unpaired.push(last);
        }
        proof {
            assert(whole =~= sorted@ + unpaired@);
            vstd::seq_lib::lemma_multiset_commutative(sorted@, unpaired@);
            assert(sorted@ =~= even_part(whole));
            assert(unpaired@ =~= odd_out(whole));
        }
        let mid = sorted.len() / 2;
        let ghost before = pair_players(pairs@);
        let mut j: usize = 0;
        while j < mid
            invariant
                mid == sorted.len() / 2,
                j <= mid,
                pair_players(pairs@) == before + interleaved(sorted@, mid as int, j as int),
                pairs@ == pairs0 + halves_pairs(sorted@).take(j as int),
            decreases mid - j,
        {
            let g = (sorted[j], sorted[mid + j]);
            let ghost prev = pairs@;
            pairs.push(g);
            proof {
                lemma_pair_players_push(prev, g);
                assert(pair_players(pairs@) =~= before + interleaved(sorted@, mid as int, j + 1));
                assert(pairs@ =~= pairs0 + halves_pairs(sorted@).take(j + 1));
            }
            j += 1;
        }
        proof {
            assert(halves_pairs(sorted@).take(mid as int) =~= halves_pairs(sorted@));
            assert(fide_from(order, scores@, ds, i0 as int, carried) == halves_pairs(even_part(whole)) + fide_from(
                order,
                scores@,
                ds,
                i as int,
                odd_out(whole),
            ));
            assert(pairs@ + fide_from(order, scores@, ds, i as int, unpaired@) =~= pairs0 + fide_from(
                order,
                scores@,
                ds,
                i0 as int,
                carried,
            ));
            assert(sorted@ =~= sorted@.take(mid as int) + sorted@.subrange(mid as int, mid + mid));
            vstd::seq_lib::lemma_multiset_commutative(sorted@.take(mid as int), sorted@.subrange(mid as int, mid + mid));
            lemma_interleaved_multiset(sorted@, mid as int, mid as int);
            let inter = interleaved(sorted@, mid as int, mid as int);
            let sub = players@.subrange(i0 as int, i as int);
            vstd::seq_lib::lemma_multiset_commutative(before, inter);
            vstd::seq_lib::lemma_multiset_commutative(pair_players(pairs@), unpaired@);
            vstd::seq_lib::lemma_multiset_commutative(before, carried);
            vstd::seq_lib::lemma_multiset_commutative(carried, sub);
            vstd::seq_lib::lemma_multiset_commutative(players@.take(i0 as int), sub);
            assert(inter.to_multiset() =~= sorted@.to_multiset());
            assert(whole.to_multiset() =~= sorted@.to_multiset().add(unpaired@.to_multiset()));
            assert(whole.to_multiset() =~= carried.to_multiset().add(sub.to_multiset()));
            assert(before.to_multiset().add(carried.to_multiset()) =~= players@.take(i0 as int).to_multiset());
            assert(pair_players(pairs@) == before + inter);
            assert(pair_players(pairs@).to_multiset() =~= before.to_multiset().add(inter.to_multiset()));
            assert((pair_players(pairs@) + unpaired@).to_multiset() =~= before.to_multiset().add(whole.to_multiset()));
            assert(players@.take(i as int).to_multiset() =~= players@.take(i0 as int).to_multiset().add(sub.to_multiset()));
            assert((pair_players(pairs@) + unpaired@).to_multiset() =~= players@.take(i as int).to_multiset());
        }
    }
    proof {
        assert(pairs@ =~= pairs@ + fide_from(order, scores@, ds, i as int, unpaired@));
        assert(players@.take(n as int) =~= players@);
        lemma_same_multiset_no_duplicates(pair_players(pairs@) + unpaired@, players@);
        assert forall|k: int| 0 <= k < pair_players(pairs@).len() implies (#[trigger] pair_players(pairs@)[k]) < n by {
            let x = pair_players(pairs@)[k];
            assert((pair_players(pairs@) + unpaired@)[k] == x);
            assert((pair_players(pairs@) + unpaired@).to_multiset().contains(x));
            assert(players@.contains(x));
        }
        assert forall|a: int, b: int| 0 <= a < b < pair_players(pairs@).len() implies pair_players(pairs@)[a]
            != pair_players(pairs@)[b] by {
            assert((pair_players(pairs@) + unpaired@)[a] == pair_players(pairs@)[a]);
            assert((pair_players(pairs@) + unpaired@)[b] == pair_players(pairs@)[b]);
        }
        lemma_pair_players_len(pairs@);
        vstd::seq_lib::to_multiset_len(pair_players(pairs@) + unpaired@);
        vstd::seq_lib::to_multiset_len(players@);
        assert((pair_players(pairs@) + unpaired@).len() == n);
    }
    pairs
}

/// The first `j` entries of the top half `s[..mid]` interleaved with those of the bottom half
/// `s[mid..]`.
pub open spec fn interleaved(s: Seq<usize>, mid: int, j: int) -> Seq<usize>
    decreases j,
{
    if j <= 0 {
        Seq::empty()
    } else {
        interleaved(s, mid, j - 1) + seq![s[j - 1], s[mid + j - 1]]
    }
}

/// Interleaving the halves keeps their entries.
proof fn lemma_interleaved_multiset(s: Seq<usize>, mid: int, j: int)
    requires
        0 <= j <= mid,
        mid + j <= s.len(),
    ensures
        interleaved(s, mid, j).to_multiset() == s.take(j).to_multiset().add(s.subrange(mid, mid + j).to_multiset()),
    decreases j,
{
    broadcast use {vstd::seq_lib::group_to_multiset_ensures, vstd::multiset::group_multiset_axioms};

    if j == 0 {
        assert(s.take(0) =~= Seq::<usize>::empty());
        assert(s.subrange(mid, mid) =~= Seq::<usize>::empty());
        assert(interleaved(s, mid, 0).to_multiset() =~= s.take(j).to_multiset().add(s.subrange(mid, mid + j).to_multiset()));
    } else {
        lemma_interleaved_multiset(s, mid, j - 1);
        let prev = interleaved(s, mid, j - 1);
        let two = seq![s[j - 1], s[mid + j - 1]];
        vstd::seq_lib::lemma_multiset_commutative(prev, two);
        assert(two =~= seq![s[j - 1]].push(s[mid + j - 1]));
        assert(seq![s[j - 1]] =~= Seq::<usize>::empty().push(s[j - 1]));
        assert(s.take(j) =~= s.take(j - 1).push(s[j - 1]));
        assert(s.subrange(mid, mid + j) =~= s.subrange(mid, mid + j - 1).push(s[mid + j - 1]));
        assert(interleaved(s, mid, j).to_multiset() =~= s.take(j).to_multiset().add(s.subrange(mid, mid + j).to_multiset()));
    }
}

/// FIDE Swiss tournament: brackets of `ceil(log2 n)` rounds, one game per pairing; scores count
/// wins within the bracket. Players are numbered `0..n`; `rank[p]` orders them by rating.
#[derive(Clone, Debug)]
pub struct Swiss {
    pub brackets: usize,
    pub rounds_per_bracket: usize,
    /// Wins of each player in the current bracket.
    pub scores: Vec<u32>,
}

/// The first-round pairing of a Swiss bracket: in descending rating order `order`, rank `i` plays
/// rank `n/2 + i`.
pub open spec fn first_round_pair(order: Seq<usize>, i: int) -> (usize, usize) {
    (order[i], order[order.len() / 2 + i])
}

/// Descending rating keys: a higher rating, a smaller key.
pub open spec fn descending_keys(rank: Seq<u64>) -> Seq<u128> {
    Seq::new(rank.len(), |p: int| (u64::MAX - rank[p]) as u128)
}

impl Swiss {
    /// `brackets` brackets, nothing set up yet.
    pub fn new(brackets: usize) -> (r: Self)
        ensures
            r.brackets == brackets,
            r.rounds_per_bracket == 0,
            r.scores@ == Seq::<u32>::empty(),
    {
        Swiss { brackets, rounds_per_bracket: 0, scores: Vec::new() }
    }

    /// Set up for `n >= 2` players: `ceil(log2 n)` rounds per bracket.
    pub fn init(&mut self, n: usize)
        requires
            n >= 2,
        ensures
            is_ceil_log2(n as int, final(self).rounds_per_bracket as int),
            final(self).brackets == old(self).brackets,
            final(self).scores == old(self).scores,
    {
        self.rounds_per_bracket = ceil_log2(n);
    }

    /// Number of cycles: every round of every bracket.
    pub fn cycles(&self) -> (r: usize)
        requires
            self.brackets * self.rounds_per_bracket <= usize::MAX,
        ensures
            r == self.brackets * self.rounds_per_bracket,
    {
        self.brackets * self.rounds_per_bracket
    }

    /// The games of `cycle` as `(first player, second player, seed)`. A bracket's first round
    /// resets the scores and pairs by rating (rank `i` against rank `n/2 + i`); later rounds pair
    /// by score ([`fide_pairs`]). Sides alternate with the parity of bracket, round and
    /// pair index.
    pub fn pairs_for_cycle(&mut self, cycle: usize, rank: &Vec<u64>, rng: &mut rand::rngs::SmallRng) -> (r: Vec<(usize, usize, u64)>)
        requires
            old(self).rounds_per_bracket > 0,
            cycle % old(self).rounds_per_bracket != 0 ==> old(self).scores.len() == rank.len(),
        ensures
            final(self).brackets == old(self).brackets,
            final(self).rounds_per_bracket == old(self).rounds_per_bracket,
            final(self).scores.len() == rank.len(),
            cycle % old(self).rounds_per_bracket == 0 ==> {
                &&& final(self).scores@ == Seq::new(rank.len() as nat, |p: int| 0u32)
                &&& r@.len() == rank.len() / 2
                &&& forall|i: int|
                    0 <= i < r@.len() ==> {
                        let g = first_round_pair(rank_sorted(players_upto(rank.len() as int), descending_keys(rank@)), i);
                        let straight = (cycle / old(self).rounds_per_bracket + cycle % old(self).rounds_per_bracket + i) % 2 == 0;
                        ((#[trigger] r@[i]).0, r@[i].1) == if straight {
                            g
                        } else {
                            (g.1, g.0)
                        }
                    }
            },
            cycle % old(self).rounds_per_bracket != 0 ==> {
                &&& final(self).scores == old(self).scores
                &&& r@.len() == fide_pairs(old(self).scores@, rank@).len()
                &&& forall|i: int|
                    0 <= i < r@.len() ==> {
                        let g = fide_pairs(old(self).scores@, rank@)[i];
                        let straight = (cycle / old(self).rounds_per_bracket + cycle % old(self).rounds_per_bracket + i) % 2 == 0;
                        ((#[trigger] r@[i]).0, r@[i].1) == if straight {
                            g
                        } else {
                            (g.1, g.0)
                        }
                    }
                &&& r@.len() == rank.len() / 2
                &&& pair_players(r@.map_values(|g: (usize, usize, u64)| (g.0, g.1))).no_duplicates()
                &&& forall|k: int|
                    0 <= k < r@.len() ==> (#[trigger] r@[k]).0 < rank.len() && r@[k].1 < rank.len()
            },
    {
        let n = rank.len();
        let swiss_round = cycle % self.rounds_per_bracket;
        let bracket = cycle / self.rounds_per_bracket;
        let mut pairs: Vec<(usize, usize)> = Vec::new();
        let ghost mut order_seen: Seq<usize> = Seq::empty();
        if swiss_round == 0 {
            let mut zeros: Vec<u32> = Vec::new();
            let mut desc: Vec<u128> = Vec::new();
            let mut p: usize = 0;
            while p < n
                invariant
                    n == rank.len(),
                    p <= n,
                    zeros@ == Seq::new(p as nat, |q: int| 0u32),
                    desc@ == descending_keys(rank@).take(p as int),
                decreases n - p,
            {
                zeros.push(0);
                desc.push((u64::MAX - rank[p]) as u128);
                proof {
                    assert(zeros@ =~= Seq::new((p + 1) as nat, |q: int| 0u32));
                    assert(desc@ =~= descending_keys(rank@).take(p + 1));
                }
                p += 1;
            }
            proof {
                assert(desc@ =~= descending_keys(rank@));
            }
            self.scores = zeros;
            let everyone = all_players(n);
            let order = stable_sort_by_rank(&everyone, &desc);
            proof {
                order_seen = order@;
            }
            let n_pairs = n / 2;
            let mut i: usize = 0;
            while i < n_pairs
                invariant
                    n == rank.len(),
                    n_pairs == n / 2,
                    order@.len() == n,
                    order_seen == order@,
                    i <= n_pairs,
                    pairs@.len() == i,
                    forall|k: int| 0 <= k < i ==> #[trigger] pairs@[k] == first_round_pair(order@, k),
                decreases n_pairs - i,
            {
                pairs.push((order[i], order[n / 2 + i]));
                i += 1;
            }
        } else {
            pairs = fide_pair_by_score(&self.scores, rank);
        }
        let ghost plain = pairs@;
        let mut out: Vec<(usize, usize, u64)> = Vec::new();
        let mut k: usize = 0;
        while k < pairs.len()
            invariant
                plain == pairs@,
                k <= pairs.len(),
                out@.len() == k,
                forall|q: int|
                    0 <= q < k ==> {
                        let straight = (bracket + swiss_round + q) % 2 == 0;
                        ((#[trigger] out@[q]).0, out@[q].1) == if straight {
                            plain[q]
                        } else {
                            (plain[q].1, plain[q].0)
                        }
                    },
            decreases pairs.len() - k,
        {
            let (a, b) = pairs[k];
            let seed = random_u64(rng);
            let straight = (bracket % 2 + swiss_round % 2 + k % 2) % 2 == 0;
            let game = if straight {
                (a, b, seed)
            } else {
                (b, a, seed)
            };
            out.push(game);
            k += 1;
        }
        proof {
            if swiss_round != 0 {
                let swapped = out@.map_values(|g: (usize, usize, u64)| (g.0, g.1));
                assert forall|q: int| 0 <= q < swapped.len() implies #[trigger] swapped[q] == plain[q] || swapped[q] == (
                plain[q].1, plain[q].0) by {
                    assert(swapped[q] == (out@[q].0, out@[q].1));
                }
                lemma_pair_players_oriented(plain, swapped);
                assert forall|q: int| 0 <= q < out@.len() implies (#[trigger] out@[q]).0 < rank.len() && out@[q].1
                    < rank.len() by {
                    lemma_pair_players_index(plain, q);
                    assert(pair_players(plain)[2 * q] < rank.len());
                    assert(pair_players(plain)[2 * q + 1] < rank.len());
                }
            } else {
                assert(order_seen == rank_sorted(players_upto(rank.len() as int), descending_keys(rank@)));
            }
        }
        out
    }

    /// Record a finished game: the winner gains a point (a draw gives none).
    pub fn apply_result(&mut self, p1: usize, p2: usize, result: &MatchResult)
        requires
            p1 < old(self).scores.len(),
            p2 < old(self).scores.len(),
            old(self).scores@[p1 as int] < u32::MAX,
            old(self).scores@[p2 as int] < u32::MAX,
        ensures
            final(self).brackets == old(self).brackets,
            final(self).rounds_per_bracket == old(self).rounds_per_bracket,
            final(self).scores@ == if result.p1_score > result.p2_score {
                old(self).scores@.update(p1 as int, (old(self).scores@[p1 as int] + 1) as u32)
            } else if result.p1_score < result.p2_score {
                old(self).scores@.update(p2 as int, (old(self).scores@[p2 as int] + 1) as u32)
            } else {
                old(self).scores@
            },
    {
        if result.p1_score > result.p2_score {
            let s = self.scores[p1];
            self.scores.set(p1, s + 1);
        } else if result.p1_score < result.p2_score {
            let s = self.scores[p2];
            self.scores.set(p2, s + 1);
        }
    }
}

/// Swapping the sides of some pairs keeps the set of players, so pairs that share no player still
/// share none.
proof fn lemma_pair_players_oriented(plain: Seq<(usize, usize)>, oriented: Seq<(usize, usize)>)
    requires
        plain.len() == oriented.len(),
        pair_players(plain).no_duplicates(),
        forall|q: int|
            0 <= q < oriented.len() ==> #[trigger] oriented[q] == plain[q] || oriented[q] == (plain[q].1, plain[q].0),
    ensures
        pair_players(oriented).no_duplicates(),
        pair_players(oriented).to_multiset() == pair_players(plain).to_multiset(),
    decreases plain.len(),
{
    broadcast use {vstd::seq_lib::group_to_multiset_ensures, vstd::multiset::group_multiset_axioms};

    if plain.len() > 0 {
        let p0 = plain.drop_last();
        let o0 = oriented.drop_last();
        assert(pair_players(plain) == pair_players(p0) + seq![plain.last().0, plain.last().1]);
        assert(pair_players(p0).no_duplicates()) by {
            assert forall|a: int, b: int| 0 <= a < b < pair_players(p0).len() implies pair_players(p0)[a] != pair_players(p0)[b] by {
                assert(pair_players(plain)[a] == pair_players(p0)[a]);
                assert(pair_players(plain)[b] == pair_players(p0)[b]);
            }
        }
        lemma_pair_players_oriented(p0, o0);
        let lp = seq![plain.last().0, plain.last().1];
        let lo = seq![oriented.last().0, oriented.last().1];
        vstd::seq_lib::lemma_multiset_commutative(pair_players(p0), lp);
        vstd::seq_lib::lemma_multiset_commutative(pair_players(o0), lo);
        assert(lp =~= seq![plain.last().0].push(plain.last().1));
        assert(lo =~= seq![oriented.last().0].push(oriented.last().1));
        assert(seq![plain.last().0] =~= Seq::<usize>::empty().push(plain.last().0));
        assert(seq![oriented.last().0] =~= Seq::<usize>::empty().push(oriented.last().0));
        assert(lp.to_multiset() =~= lo.to_multiset());
        assert(pair_players(oriented).to_multiset() =~= pair_players(plain).to_multiset());
        lemma_same_multiset_no_duplicates(pair_players(oriented), pair_players(plain));
    }
}

/// Two players per pair.
proof fn lemma_pair_players_len(pairs: Seq<(usize, usize)>)
    ensures
        pair_players(pairs).len() == 2 * pairs.len(),
    decreases pairs.len(),
{
    if pairs.len() > 0 {
        lemma_pair_players_len(pairs.drop_last());
    }
}

/// The two players of pair `q` stand at places `2q` and `2q + 1`.
proof fn lemma_pair_players_index(pairs: Seq<(usize, usize)>, q: int)
    requires
        0 <= q < pairs.len(),
    ensures
        pair_players(pairs).len() == 2 * pairs.len(),
        pair_players(pairs)[2 * q] == pairs[q].0,
        pair_players(pairs)[2 * q + 1] == pairs[q].1,
    decreases pairs.len(),
{
    lemma_pair_players_len(pairs);
    lemma_pair_players_len(pairs.drop_last());
    if q < pairs.len() - 1 {
        lemma_pair_players_index(pairs.drop_last(), q);
    }
}

/// The rating neighbour of the player at place `a` among `n` players in rating order: the one above
/// when `up`, else the one below; the weakest always meets the one above, the strongest the one
/// below.
pub open spec fn neighbour_place(a: int, n: int, up: bool) -> int {
    if a == 0 {
        1
    } else if a == n - 1 {
        n - 2
    } else if up {
        a + 1
    } else {
        a - 1
    }
}

/// `a / b` rounded up.
pub open spec fn div_ceil(a: int, b: int) -> int {
    if a % b == 0 {
        a / b
    } else {
        a / b + 1
    }
}

/// Rating-based tournament: each cycle one player and a rating neighbour play `threads` games in a
/// row, sides alternating. Who is drawn first is weighted by rating, which the caller does.
#[derive(Clone, Copy, Debug, PartialEq, Eq, Structural)]
pub struct RatingBased {
    pub target_rounds: usize,
    pub threads: usize,
}

impl RatingBased {
    /// `target_rounds` games in all, `threads` per cycle.
    pub fn new(target_rounds: usize, threads: usize) -> (r: Self)
        ensures
            r == (RatingBased { target_rounds, threads }),
    {
        RatingBased { target_rounds, threads }
    }

    /// Number of cycles: enough cycles of `threads` games for `target_rounds` games.
    pub fn cycles(&self) -> (r: usize)
        requires
            self.threads > 0,
        ensures
            r == div_ceil(self.target_rounds as int, self.threads as int),
    {
        let q = self.target_rounds / self.threads;
        if self.target_rounds % self.threads == 0 {
            q
        } else {
            proof {
                let t = self.target_rounds as int;
                let d = self.threads as int;
                assert(q * d + t % d == t && t % d > 0 && d >= 1 ==> q < t) by (nonlinear_arith)
                    requires
                        q == t / d,
                        d >= 1,
                        t >= 0,
                ;
                assert(q * d + t % d == t) by (nonlinear_arith)
                    requires
                        q == t / d,
                        d >= 1,
                ;
            }
            q + 1
        }
    }

    /// The opponent of the player at place `a` among `n >= 2` players in ascending rating order
    /// ([`neighbour_place`]); between the two ends a coin flip from `rng` chooses up or down.
    pub fn neighbour(a: usize, n: usize, rng: &mut rand::rngs::SmallRng) -> (r: usize)
        requires
            2 <= n,
            a < n,
        ensures
            r == neighbour_place(a as int, n as int, true) || r == neighbour_place(a as int, n as int, false),
            a == 0 || a == n - 1 ==> r == neighbour_place(a as int, n as int, true),
            r < n,
            r != a,
    {
        if a == 0 {
            1
        } else if a == n - 1 {
            n - 2
        } else if random_bool(rng) {
            a + 1
        } else {
            a - 1
        }
    }

    /// The games of `cycle` between `a` and `b`: `threads` games, game `i` with `a` first when
    /// `cycle + i` is even, each with a seed from `rng`.
    pub fn pairs_for_cycle(&self, cycle: usize, a: usize, b: usize, rng: &mut rand::rngs::SmallRng) -> (r: Vec<
        (usize, usize, u64),
    >)
        ensures
            r@.len() == self.threads,
            forall|i: int|
                0 <= i < r@.len() ==> ((#[trigger] r@[i]).0, r@[i].1) == if (cycle + i) % 2 == 0 {
                    (a, b)
                } else {
                    (b, a)
                },
    {
        let mut games: Vec<(usize, usize, u64)> = Vec::new();
        let mut i: usize = 0;
        while i < self.threads
            invariant
                i <= self.threads,
                games@.len() == i,
                forall|k: int|
                    0 <= k < i ==> ((#[trigger] games@[k]).0, games@[k].1) == if (cycle + k) % 2 == 0 {
                        (a, b)
                    } else {
                        (b, a)
                    },
            decreases self.threads - i,
        {
            let seed = random_u64(rng);
            let game = if (cycle % 2 + i % 2) % 2 == 0 {
                (a, b, seed)
            } else {
                (b, a, seed)
            };
            games.push(game);
            i += 1;
        }
        games
    }
}

/// The players left after a knockout round of `m`: one per game, plus the bye when `m` is odd.
pub open spec fn knockout_survivors(m: int) -> int {
    m / 2 + m % 2
}

/// The players left of `n` after `k` knockout rounds.
pub open spec fn survivors_after(n: int, k: nat) -> int
    decreases k,
{
    if k == 0 {
        n
    } else {
        knockout_survivors(survivors_after(n, (k - 1) as nat))
    }
}

/// After `k` rounds, `n` players are down to `n / 2^k` rounded up.
proof fn lemma_survivors_after(n: int, k: nat)
    requires
        n >= 1,
    ensures
        survivors_after(n, k) == (n + two_pow(k) - 1) / (two_pow(k) as int),
        two_pow(k) >= 1,
    decreases k,
{
    if k > 0 {
        lemma_survivors_after(n, (k - 1) as nat);
        let p = two_pow((k - 1) as nat) as int;
        let m = survivors_after(n, (k - 1) as nat);
        assert(m == (n + p - 1) / p);
        assert(two_pow(k) == 2 * p);
        assert(m / 2 + m % 2 == (n + 2 * p - 1) / (2 * p)) by (nonlinear_arith)
            requires
                p >= 1,
                n >= 1,
                m == (n + p - 1) / p,
        {
            let q = (n + p - 1) / p;
            let r = (n + p - 1) % p;
            assert(n + p - 1 == q * p + r && 0 <= r < p);
            let a = q / 2;
            let b = q % 2;
            assert(q == 2 * a + b && 0 <= b < 2);
            assert(n + 2 * p - 1 == (2 * a + b) * p + r + p);
            if b == 0 {
                assert(n + 2 * p - 1 == a * (2 * p) + (r + p));
                assert(0 <= r + p < 2 * p);
                assert((n + 2 * p - 1) / (2 * p) == a);
            } else {
                assert(n + 2 * p - 1 == (a + 1) * (2 * p) + r);
                assert((n + 2 * p - 1) / (2 * p) == a + 1);
            }
        }
        assert(survivors_after(n, k) == m / 2 + m % 2);
        assert(two_pow(k) as int == 2 * p);
    } else {
        assert(two_pow(0) == 1);
    }
}

/// A knockout bracket of `n >= 1` players is down to one player after `ceil(log2 n)` rounds (the
/// number of round slots each bracket gets), each round leaving one player per game plus the bye.
pub proof fn lemma_bracket_rounds_suffice(n: int, k: int)
    requires
        n >= 1,
        is_ceil_log2(n, k),
    ensures
        survivors_after(n, k as nat) == 1,
{
    lemma_survivors_after(n, k as nat);
    let p = two_pow(k as nat) as int;
    assert((n + p - 1) / p == 1) by (nonlinear_arith)
        requires
            p >= n,
            n >= 1,
    {
        assert(p <= n + p - 1 < 2 * p);
    }
}

/// A knockout round of the players `active` (at least two) leaves `knockout_survivors` of them:
/// the bye of an odd round followed by one winner per game, sorted again by rating.
pub proof fn lemma_knockout_round(active: Seq<usize>, winners: Seq<usize>, rank: Seq<u128>)
    requires
        active.len() >= 2,
        winners.len() == active.len() / 2,
    ensures
        rank_sorted(
            (if active.len() % 2 == 1 {
                seq![active.last()]
            } else {
                Seq::<usize>::empty()
            }) + winners,
            rank,
        ).len() == knockout_survivors(active.len() as int),
{
    let bye = if active.len() % 2 == 1 {
        seq![active.last()]
    } else {
        Seq::<usize>::empty()
    };
    crate::sorting::lemma_rank_sorted_len(bye + winners, rank);
}

} // verus!
