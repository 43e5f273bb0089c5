use vstd::prelude::*;

use crate::board::MAX_BOARD_SIZE;
use crate::rng::shuffle_cards;

verus! {

broadcast use vstd::array::group_array_axioms;

/// Largest card value a line count can record (`MAX_BOARD_SIZE`).
pub const MAX_SUPPORTED_CARD_VALUE: usize = 15;

/// Number of per-value slots a hand reserves: values `0..=MAX_BOARD_SIZE`.
pub const HAND_SLOTS: usize = 16;

/// A card's face value.
#[derive(Clone, Copy, Debug, PartialEq, Eq, PartialOrd, Ord, Structural)]
pub struct CardValue(pub u8);

/// Per-value card counts of a hand on an `N`×`N` board: card values run `0..=N`.
#[derive(Clone, Copy, Debug, PartialEq, Eq)]
pub struct Hand<const N: usize> {
    counts: [u8; HAND_SLOTS],
}

impl<const N: usize> View for Hand<N> {
    type V = Seq<u8>;

    /// The count of each card value `0..=N`.
    closed spec fn view(&self) -> Seq<u8> {
        self.counts@.subrange(0, N + 1)
    }
}

/// Sum of a sequence of counts.
pub open spec fn seq_sum(s: Seq<u8>) -> int
    decreases s.len(),
{
    if s.len() == 0 {
        0
    } else {
        seq_sum(s.drop_last()) + s.last()
    }
}

/// Number of copies of card `c` in a full deck for an `n`×`n` board: `n + 1` of each value `0..=n`.
pub open spec fn full_deck_count(n: int, c: CardValue) -> nat {
    if c.0 <= n {
        (n + 1) as nat
    } else {
        0
    }
}

impl<const N: usize> Hand<N> {
    /// A hand records `N + 1` counts.
    pub proof fn lemma_view_len(self)
        requires
            N <= MAX_BOARD_SIZE,
        ensures
            self@.len() == N + 1,
    {
    }

    /// This hand with the count of value `v` set to `c`.
    pub closed spec fn with_count(self, v: int, c: u8) -> Hand<N> {
        Hand { counts: vstd::array::spec_array_update(self.counts, v, c) }
    }

    /// Setting a count updates the view at that value.
    pub proof fn lemma_with_count(self, v: int, c: u8)
        requires
            N <= MAX_BOARD_SIZE,
            0 <= v <= N,
        ensures
            self.with_count(v, c)@ == self@.update(v, c),
    {
        assert(self.with_count(v, c)@ =~= self@.update(v, c));
    }

    /// Putting a card into a hand and taking it out again gives back the same hand.
    pub proof fn lemma_put_then_take(self, v: int)
        requires
            N <= MAX_BOARD_SIZE,
            0 <= v <= N,
            self@[v] < u8::MAX,
        ensures
            ({
                let put = self.with_count(v, (self@[v] + 1) as u8);
                put@[v] == self@[v] + 1 && put.with_count(v, (put@[v] - 1) as u8) == self
            }),
    {
        let put = self.with_count(v, (self@[v] + 1) as u8);
        self.lemma_with_count(v, (self@[v] + 1) as u8);
        assert(put.with_count(v, (put@[v] - 1) as u8).counts =~= self.counts);
    }

    /// No card at all.
    pub open spec fn spec_is_empty(self) -> bool {
        forall|v: int| 0 <= v < self@.len() ==> #[trigger] self@[v] == 0
    }

    /// Card values held, in increasing order.
    pub open spec fn holds(self, v: int) -> bool {
        0 <= v <= N && self@[v] > 0
    }

    /// Number of copies of `v` in hand.
    pub fn count(&self, v: CardValue) -> (r: u8)
        requires
            N <= MAX_BOARD_SIZE,
            v.0 <= N,
        ensures
            r == self@[v.0 as int],
    {
        self.counts[v.0 as usize]
    }

    /// Remove one copy of `v`. The card must be in hand.
    pub fn take(&mut self, v: CardValue)
        requires
            N <= MAX_BOARD_SIZE,
            v.0 <= N,
            old(self)@[v.0 as int] > 0,
        ensures
            *final(self) == old(self).with_count(v.0 as int, (old(self)@[v.0 as int] - 1) as u8),
            final(self)@ == old(self)@.update(v.0 as int, (old(self)@[v.0 as int] - 1) as u8),
    {
        let c = self.counts[v.0 as usize];
        // a card that is not in hand cannot be taken: this stops with a panic
        self.counts[v.0 as usize] = c.checked_sub(1).unwrap();
        proof {
            assert(self.counts =~= old(self).with_count(v.0 as int, (old(self)@[v.0 as int] - 1) as u8).counts);
            assert(self@ =~= old(self)@.update(v.0 as int, (old(self)@[v.0 as int] - 1) as u8));
        }
    }

    /// Add one copy of `v`.
    pub fn put(&mut self, v: CardValue)
        requires
            N <= MAX_BOARD_SIZE,
            v.0 <= N,
            old(self)@[v.0 as int] < u8::MAX,
        ensures
            *final(self) == old(self).with_count(v.0 as int, (old(self)@[v.0 as int] + 1) as u8),
            final(self)@ == old(self)@.update(v.0 as int, (old(self)@[v.0 as int] + 1) as u8),
    {
        let c = self.counts[v.0 as usize];
        self.counts[v.0 as usize] = c + 1;
        proof {
            assert(self.counts =~= old(self).with_count(v.0 as int, (old(self)@[v.0 as int] + 1) as u8).counts);
            assert(self@ =~= old(self)@.update(v.0 as int, (old(self)@[v.0 as int] + 1) as u8));
        }
    }

    /// The card values held (count > 0), each once, in increasing order.
    pub fn iter_playable(&self) -> (r: Vec<CardValue>)
        requires
            N <= MAX_BOARD_SIZE,
        ensures
            forall|i: int| 0 <= i < r.len() ==> self.holds(#[trigger] r@[i].0 as int),
            forall|v: int| #[trigger] self.holds(v) ==> r@.contains(CardValue(v as u8)),
            forall|i: int, j: int| 0 <= i < j < r.len() ==> (#[trigger] r@[i]).0 < (#[trigger] r@[j]).0,
    {
        let mut out: Vec<CardValue> = Vec::new();
        let mut v: usize = 0;
        while v <= N
            invariant
                N <= MAX_BOARD_SIZE,
                v <= N + 1,
                forall|i: int| 0 <= i < out.len() ==> self.holds(#[trigger] out@[i].0 as int),
                forall|i: int| 0 <= i < out.len() ==> (#[trigger] out@[i]).0 < v,
                forall|w: int| #[trigger] self.holds(w) && w < v ==> out@.contains(CardValue(w as u8)),
                forall|i: int, j: int| 0 <= i < j < out.len() ==> (#[trigger] out@[i]).0 < (#[trigger] out@[j]).0,
            decreases N + 1 - v,
        {
            let ghost before = out@;
            if self.counts[v] > 0 {
                out.push(CardValue(v as u8));
                proof {
                    assert forall|w: int| #[trigger] self.holds(w) && w < v + 1 implies out@.contains(
                        CardValue(w as u8),
                    ) by {
                        if w == v {
                            assert(out@[out.len() - 1] == CardValue(w as u8));
                        } else {
                            let k = choose|k: int| 0 <= k < before.len() && before[k] == CardValue(w as u8);
                            assert(out@[k] == before[k]);
                        }
                    }
                }
            }
            v += 1;
        }
        out
    }

    /// No card at all.
    pub fn is_empty(&self) -> (r: bool)
        requires
            N <= MAX_BOARD_SIZE,
        ensures
            r == self.spec_is_empty(),
    {
        proof {
            self.lemma_view_len();
        }
        let mut v: usize = 0;
        while v <= N
            invariant
                N <= MAX_BOARD_SIZE,
                v <= N + 1,
                forall|w: int| 0 <= w < v ==> #[trigger] self@[w] == 0,
            decreases N + 1 - v,
        {
            if self.counts[v] != 0 {
                assert(self@[v as int] != 0);
                return false;
            }
            v += 1;
        }
        true
    }

    /// Total number of cards. The total must fit in a `u8`.
    pub fn total(&self) -> (r: u8)
        requires
            N <= MAX_BOARD_SIZE,
            seq_sum(self@) <= u8::MAX,
        ensures
            r == seq_sum(self@),
    {
        let mut s: u8 = 0;
        let mut v: usize = 0;
        while v <= N
            invariant
                N <= MAX_BOARD_SIZE,
                v <= N + 1,
                self@.len() == N + 1,
                seq_sum(self@) <= u8::MAX,
                s == seq_sum(self@.take(v as int)),
            decreases N + 1 - v,
        {
            proof {
                assert(self@.take(v + 1).drop_last() =~= self@.take(v as int));
                lemma_seq_sum_prefix_le(self@, v + 1);
            }
            s = s + self.counts[v];
            v += 1;
        }
        assert(self@.take(N + 1) =~= self@);
        s
    }

    /// The counts as a vector indexed by card value.
    pub fn to_counts_vec(&self) -> (r: Vec<u8>)
        requires
            N <= MAX_BOARD_SIZE,
        ensures
            r@ == self@,
    {
        let mut out: Vec<u8> = Vec::new();
        let mut v: usize = 0;
        while v <= N
            invariant
                N <= MAX_BOARD_SIZE,
                v <= N + 1,
                out@ == self@.take(v as int),
            decreases N + 1 - v,
        {
            out.push(self.counts[v]);
            v += 1;
            assert(out@ =~= self@.take(v as int));
        }
        assert(self@.take(N + 1) =~= self@);
        out
    }
}

/// Replacing one count changes the sum by the difference.
pub proof fn lemma_seq_sum_update(s: Seq<u8>, i: int, x: u8)
    requires
        0 <= i < s.len(),
    ensures
        seq_sum(s.update(i, x)) == seq_sum(s) - s[i] + x,
    decreases s.len(),
{
    if i < s.len() - 1 {
        assert(s.update(i, x).drop_last() =~= s.drop_last().update(i, x));
        lemma_seq_sum_update(s.drop_last(), i, x);
    } else {
        assert(s.update(i, x).drop_last() =~= s.drop_last());
    }
}

/// A sequence of zeros sums to zero.
pub proof fn lemma_seq_sum_zeros(n: nat)
    ensures
        seq_sum(Seq::new(n, |v: int| 0u8)) == 0,
    decreases n,
{
    if n > 0 {
        assert(Seq::new(n, |v: int| 0u8).drop_last() =~= Seq::new((n - 1) as nat, |v: int| 0u8));
        lemma_seq_sum_zeros((n - 1) as nat);
    }
}

/// Splitting a sequence splits the count of every element.
pub proof fn lemma_count_split<A>(s: Seq<A>, k: int, a: A)
    requires
        0 <= k <= s.len(),
    ensures
        s.to_multiset().count(a) == s.take(k).to_multiset().count(a) + s.skip(k).to_multiset().count(a),
{
    broadcast use vstd::multiset::group_multiset_axioms;

    assert(s =~= s.take(k) + s.skip(k));
    vstd::seq_lib::lemma_multiset_commutative(s.take(k), s.skip(k));
}

/// A prefix of a sequence of counts sums to no more than the whole.
pub proof fn lemma_seq_sum_prefix_le(s: Seq<u8>, k: int)
    requires
        0 <= k <= s.len(),
    ensures
        seq_sum(s.take(k)) <= seq_sum(s),
    decreases s.len(),
{
    if k < s.len() {
        assert(s.drop_last().take(k) =~= s.take(k));
        lemma_seq_sum_prefix_le(s.drop_last(), k);
    } else {
        assert(s.take(k) =~= s);
    }
}

impl<const N: usize> Default for Hand<N> {
    /// An empty hand.
    fn default() -> (h: Self)
        ensures
            N <= MAX_BOARD_SIZE ==> h@ == Seq::new((N + 1) as nat, |v: int| 0u8),
    {
        let h = Hand { counts: [0u8; HAND_SLOTS] };
        proof {
            if N <= MAX_BOARD_SIZE {
                assert(h@ =~= Seq::new((N + 1) as nat, |v: int| 0u8));
            }
        }
        h
    }
}

/// The cards `0..=n`, each `n + 1` times, in increasing order of value.
fn ordered_deck(n: usize) -> (r: Vec<CardValue>)
    requires
        n <= MAX_BOARD_SIZE,
    ensures
        r@.len() == (n + 1) * (n + 1),
        forall|c: CardValue| #[trigger] r@.to_multiset().count(c) == full_deck_count(n as int, c),
{
    broadcast use {vstd::seq_lib::group_to_multiset_ensures, vstd::multiset::group_multiset_axioms};

    let mut deck: Vec<CardValue> = Vec::new();
    let mut v: usize = 0;
    while v <= n
        invariant
            n <= MAX_BOARD_SIZE,
            v <= n + 1,
            deck@.len() == v * (n + 1),
            forall|c: CardValue|
                #[trigger] deck@.to_multiset().count(c) == if c.0 < v {
                    (n + 1) as nat
                } else {
                    0
                },
        decreases n + 1 - v,
    {
        let mut k: usize = 0;
        while k <= n
            invariant
                n <= MAX_BOARD_SIZE,
                v <= n,
                k <= n + 1,
                deck@.len() == v * (n + 1) + k,
                forall|c: CardValue|
                    #[trigger] deck@.to_multiset().count(c) == if c.0 < v {
                        (n + 1) as nat
                    } else if c.0 == v {
                        k as nat
                    } else {
                        0
                    },
            decreases n + 1 - k,
        {
            let ghost before = deck@;
            deck.push(CardValue(v as u8));
            proof {
                assert(deck@ == before.push(CardValue(v as u8)));
                vstd::seq_lib::to_multiset_build(before, CardValue(v as u8));
                assert forall|c: CardValue|
                    #[trigger] deck@.to_multiset().count(c) == if c.0 < v {
                        (n + 1) as nat
                    } else if c.0 == v {
                        (k + 1) as nat
                    } else {
                        0
                    } by {
                    if c == CardValue(v as u8) {
                        assert(c.0 == v);
                    } else {
                        assert(c.0 != v);
                    }
                }
            }
            k += 1;
        }
        proof {
            assert(v * (n + 1) + (n + 1) == (v + 1) * (n + 1)) by (nonlinear_arith);
        }
        v += 1;
    }
    deck
}

/// Build a deck for an `n`×`n` board: values `0..=n`, each appearing `n + 1` times, shuffled.
/// Total deck size: `(n + 1)²`. For 5×5: values 0-5, 6 copies each = 36 cards.
pub fn new_deck(n: usize, rng: &mut rand::rngs::SmallRng) -> (r: Vec<CardValue>)
    requires
        n <= MAX_BOARD_SIZE,
    ensures
        r@.len() == (n + 1) * (n + 1),
        forall|c: CardValue| #[trigger] r@.to_multiset().count(c) == full_deck_count(n as int, c),
{
    let mut deck = ordered_deck(n);
    shuffle_cards(&mut deck, rng);
    deck
}

/// Deal `n` cards from the top (end) of `deck` into a fresh hand.
pub fn deal<const N: usize>(deck: &mut Vec<CardValue>, n: u8) -> (h: Hand<N>)
    requires
        N <= MAX_BOARD_SIZE,
        n <= old(deck)@.len(),
        forall|i: int| old(deck)@.len() - n <= i < old(deck)@.len() ==> (#[trigger] old(deck)@[i]).0 <= N,
    ensures
        final(deck)@ == old(deck)@.take(old(deck)@.len() - n),
        forall|v: int|
            0 <= v <= N ==> #[trigger] h@[v] == old(deck)@.skip(old(deck)@.len() - n).to_multiset().count(
                CardValue(v as u8),
            ),
        seq_sum(h@) == n,
{
    broadcast use {vstd::seq_lib::group_to_multiset_ensures, vstd::multiset::group_multiset_axioms};

    let ghost d0 = deck@;
    let ghost len0 = deck@.len();
    let mut hand: Hand<N> = Hand::default();
    proof {
        lemma_seq_sum_zeros((N + 1) as nat);
    }
    let mut i: u8 = 0;
    while i < n
        invariant
            N <= MAX_BOARD_SIZE,
            i <= n,
            n <= len0,
            len0 == d0.len(),
            forall|j: int| len0 - n <= j < len0 ==> (#[trigger] d0[j]).0 <= N,
            deck@ == d0.take(len0 - i),
            hand@.len() == N + 1,
            forall|v: int|
                0 <= v <= N ==> #[trigger] hand@[v] == d0.skip(len0 - i).to_multiset().count(CardValue(v as u8)),
            forall|v: int| 0 <= v <= N ==> #[trigger] hand@[v] <= i,
            seq_sum(hand@) == i,
        decreases n - i,
    {
        let card = deck.pop().unwrap();
        proof {
            lemma_seq_sum_update(hand@, card.0 as int, (hand@[card.0 as int] + 1) as u8);
        }
        proof {
            let k = len0 - i - 1;
            assert(card == d0[k]);
            assert(d0.skip(k) =~= d0.skip(k + 1).insert(0, d0[k]));
            vstd::seq_lib::to_multiset_insert(d0.skip(k + 1), 0, d0[k]);
            assert(d0.skip(k).to_multiset() =~= d0.skip(k + 1).to_multiset().insert(d0[k]));
        }
        hand.put(card);
        i += 1;
        proof {
            assert(deck@ =~= d0.take(len0 - i));
        }
    }
    hand
}

} // verus!
