use vstd::prelude::*;

use crate::algos::sadist::{completion_scores, completion_scores_upto, min_int};
use crate::scoring::{spec_score_line, LINE_COUNT_SLOTS};

verus! {

/// No card added: a zero for each count slot.
pub open spec fn no_additions() -> Seq<int> {
    Seq::new(LINE_COUNT_SLOTS as nat, |v: int| 0int)
}

/// `a[lo] + … + a[hi - 1]`.
pub open spec fn range_sum(a: Seq<int>, lo: int, hi: int) -> int
    decreases hi - lo,
{
    if hi <= lo {
        0
    } else {
        range_sum(a, lo, hi - 1) + a[hi - 1]
    }
}

/// `a` is a way to fill `empty` slots of a line: `a[v]` copies of value `v` are added, at most
/// `rem[v]` of each value `v` in `ci..=max` and none of any other value, `empty` in all.
pub open spec fn is_fill(a: Seq<int>, rem: Seq<u8>, empty: int, ci: int, max: int) -> bool {
    &&& a.len() == LINE_COUNT_SLOTS
    &&& forall|v: int|
        0 <= v < LINE_COUNT_SLOTS ==> #[trigger] a[v] >= 0 && (if ci <= v <= max {
            a[v] <= rem[v]
        } else {
            a[v] == 0
        })
    &&& range_sum(a, ci, max + 1) == empty
}

/// The ways to fill `empty` slots (see [`is_fill`]) in the order the sadist visits them: by the
/// number of copies of value `ci` (none first), then likewise for the values above it.
pub open spec fn fills(rem: Seq<u8>, empty: int, ci: int, max: int) -> Seq<Seq<int>>
    decreases max + 1 - ci, empty + 2,
{
    if empty <= 0 {
        seq![no_additions()]
    } else if ci > max || ci < 0 || ci >= LINE_COUNT_SLOTS {
        Seq::empty()
    } else {
        fills_upto(rem, empty, ci, max, min_int(rem[ci] as int, empty) + 1)
    }
}

/// The entries of `fills` that add fewer than `k` copies of value `ci`.
pub open spec fn fills_upto(rem: Seq<u8>, empty: int, ci: int, max: int, k: int) -> Seq<Seq<int>>
    decreases max + 1 - ci, k,
{
    if k <= 0 || k > empty + 1 || ci > max || ci < 0 {
        Seq::empty()
    } else {
        fills_upto(rem, empty, ci, max, k - 1) + fills(
            rem.update(ci, (rem[ci] - (k - 1)) as u8),
            empty - (k - 1),
            ci + 1,
            max,
        ).map_values(|b: Seq<int>| b.update(ci, k - 1))
    }
}

/// The line counts `counts` with the additions `a`.
pub open spec fn plus(counts: Seq<u8>, a: Seq<int>) -> Seq<u8> {
    Seq::new(counts.len(), |v: int| (counts[v] + a[v]) as u8)
}

/// Splitting off the first term of a range sum.
proof fn lemma_range_sum_first(a: Seq<int>, lo: int, hi: int)
    requires
        lo < hi,
    ensures
        range_sum(a, lo, hi) == a[lo] + range_sum(a, lo + 1, hi),
    decreases hi - lo,
{
    if lo + 1 < hi {
        lemma_range_sum_first(a, lo, hi - 1);
    } else {
        assert(range_sum(a, lo, lo) == 0);
        assert(range_sum(a, lo + 1, hi) == 0);
    }
}

/// Range sums only see the range.
proof fn lemma_range_sum_same(a: Seq<int>, b: Seq<int>, lo: int, hi: int)
    requires
        forall|v: int| lo <= v < hi ==> a[v] == b[v],
    ensures
        range_sum(a, lo, hi) == range_sum(b, lo, hi),
    decreases hi - lo,
{
    if lo < hi {
        lemma_range_sum_same(a, b, lo, hi - 1);
    }
}

/// A sum of non-negative terms bounds each term.
proof fn lemma_range_sum_bounds(a: Seq<int>, lo: int, hi: int)
    requires
        forall|v: int| lo <= v < hi ==> a[v] >= 0,
    ensures
        range_sum(a, lo, hi) >= 0,
        forall|v: int| lo <= v < hi ==> a[v] <= range_sum(a, lo, hi),
    decreases hi - lo,
{
    if lo < hi {
        lemma_range_sum_bounds(a, lo, hi - 1);
    }
}

/// A range of zeros sums to zero.
proof fn lemma_range_sum_zero(a: Seq<int>, lo: int, hi: int)
    requires
        forall|v: int| lo <= v < hi ==> a[v] == 0,
    ensures
        range_sum(a, lo, hi) == 0,
    decreases hi - lo,
{
    if lo < hi {
        lemma_range_sum_zero(a, lo, hi - 1);
    }
}

/// Every entry of `fills` is a way to fill the slots.
proof fn lemma_fills_sound(rem: Seq<u8>, e: int, ci: int, max: int)
    requires
        rem.len() == LINE_COUNT_SLOTS,
        0 <= ci,
        max < LINE_COUNT_SLOTS,
        e >= 0,
    ensures
        forall|i: int| 0 <= i < fills(rem, e, ci, max).len() ==> is_fill(#[trigger] fills(rem, e, ci, max)[i], rem, e, ci, max),
    decreases max + 1 - ci, e + 2,
{
    if e <= 0 {
        lemma_range_sum_zero(no_additions(), ci, max + 1);
        assert(is_fill(no_additions(), rem, e, ci, max));
        assert(fills(rem, e, ci, max) == seq![no_additions()]);
    } else if ci > max || ci >= LINE_COUNT_SLOTS {
    } else {
        lemma_upto_sound(rem, e, ci, max, min_int(rem[ci] as int, e) + 1);
        assert(fills(rem, e, ci, max) == fills_upto(rem, e, ci, max, min_int(rem[ci] as int, e) + 1));
    }
}

/// Every entry of `fills_upto` is a way to fill the slots, adding fewer than `k` copies of `ci`.
proof fn lemma_upto_sound(rem: Seq<u8>, e: int, ci: int, max: int, k: int)
    requires
        rem.len() == LINE_COUNT_SLOTS,
        0 <= ci <= max,
        max < LINE_COUNT_SLOTS,
        e > 0,
        k <= min_int(rem[ci] as int, e) + 1,
    ensures
        forall|i: int|
            0 <= i < fills_upto(rem, e, ci, max, k).len() ==> is_fill(#[trigger] fills_upto(rem, e, ci, max, k)[i], rem, e, ci, max)
                && fills_upto(rem, e, ci, max, k)[i][ci] < k,
    decreases max + 1 - ci, k,
{
    if k <= 0 || k > e + 1 {
    } else {
        lemma_upto_sound(rem, e, ci, max, k - 1);
        let rem2 = rem.update(ci, (rem[ci] - (k - 1)) as u8);
        let e2 = e - (k - 1);
        lemma_fills_sound(rem2, e2, ci + 1, max);
        let left = fills_upto(rem, e, ci, max, k - 1);
        let f = fills(rem2, e2, ci + 1, max);
        let all = fills_upto(rem, e, ci, max, k);
        assert(all == left + f.map_values(|b: Seq<int>| b.update(ci, k - 1)));
        assert forall|i: int| 0 <= i < all.len() implies is_fill(#[trigger] all[i], rem, e, ci, max) && all[i][ci] < k by {
            if i < left.len() {
                assert(all[i] == left[i]);
            } else {
                let b = f[i - left.len()];
                assert(is_fill(b, rem2, e2, ci + 1, max));
                let a = b.update(ci, k - 1);
                assert(all[i] == a);
                assert forall|v: int| 0 <= v < LINE_COUNT_SLOTS implies #[trigger] a[v] >= 0 && (if ci <= v <= max {
                    a[v] <= rem[v]
                } else {
                    a[v] == 0
                }) by {
                    if v != ci {
                        assert(a[v] == b[v]);
                        assert(rem2[v] == rem[v]);
                    }
                }
                lemma_range_sum_first(a, ci, max + 1);
                lemma_range_sum_same(a, b, ci + 1, max + 1);
            }
        }
    }
}

/// `fills_upto` only grows with `k`.
proof fn lemma_upto_grows(rem: Seq<u8>, e: int, ci: int, max: int, k: int, big: int, x: Seq<int>)
    requires
        0 <= ci <= max,
        k <= big <= e + 1,
        fills_upto(rem, e, ci, max, k).contains(x),
    ensures
        fills_upto(rem, e, ci, max, big).contains(x),
    decreases big - k,
{
    if k < big {
        lemma_upto_grows(rem, e, ci, max, k, big - 1, x);
        let left = fills_upto(rem, e, ci, max, big - 1);
        let all = fills_upto(rem, e, ci, max, big);
        let i = choose|i: int| 0 <= i < left.len() && left[i] == x;
        assert(big > 0);
        assert(all[i] == left[i]);
    }
}

/// Every way to fill the slots is an entry of `fills`.
proof fn lemma_fills_complete(rem: Seq<u8>, e: int, ci: int, max: int, a: Seq<int>)
    requires
        rem.len() == LINE_COUNT_SLOTS,
        0 <= ci <= max + 1,
        max < LINE_COUNT_SLOTS,
        e >= 0,
        is_fill(a, rem, e, ci, max),
    ensures
        fills(rem, e, ci, max).contains(a),
    decreases max + 1 - ci,
{
    if e <= 0 {
        lemma_range_sum_bounds(a, ci, max + 1);
        assert forall|v: int| 0 <= v < a.len() implies a[v] == no_additions()[v] by {
            assert(a[v] >= 0);
        }
        assert(a =~= no_additions());
        assert(fills(rem, e, ci, max) == seq![no_additions()]);
        assert(fills(rem, e, ci, max)[0] == a);
    } else if ci > max {
        assert(range_sum(a, ci, max + 1) == 0);
    } else {
        let j = a[ci];
        assert(0 <= j <= rem[ci]);
        lemma_range_sum_first(a, ci, max + 1);
        assert forall|v: int| ci + 1 <= v < max + 1 implies a[v] >= 0 by {
            assert(a[v] >= 0);
        }
        lemma_range_sum_bounds(a, ci + 1, max + 1);
        let rem2 = rem.update(ci, (rem[ci] - j) as u8);
        let e2 = e - j;
        let b = a.update(ci, 0);
        lemma_range_sum_same(b, a, ci + 1, max + 1);
        assert forall|v: int| 0 <= v < LINE_COUNT_SLOTS implies #[trigger] b[v] >= 0 && (if ci + 1 <= v <= max {
            b[v] <= rem2[v]
        } else {
            b[v] == 0
        }) by {
            if v != ci {
                assert(b[v] == a[v]);
                assert(rem2[v] == rem[v]);
            }
        }
        assert(is_fill(b, rem2, e2, ci + 1, max));
        lemma_fills_complete(rem2, e2, ci + 1, max, b);
        let f = fills(rem2, e2, ci + 1, max);
        let idx = choose|idx: int| 0 <= idx < f.len() && f[idx] == b;
        assert(b.update(ci, j) =~= a);
        let big = min_int(rem[ci] as int, e) + 1;
        let left = fills_upto(rem, e, ci, max, j);
        let here = fills_upto(rem, e, ci, max, j + 1);
        assert(here == left + f.map_values(|c: Seq<int>| c.update(ci, j)));
        assert(here[left.len() + idx] == a);
        lemma_upto_grows(rem, e, ci, max, j + 1, big, a);
        assert(fills(rem, e, ci, max) == fills_upto(rem, e, ci, max, big));
    }
}

/// No way to fill the slots is listed twice by `fills`.
proof fn lemma_fills_distinct(rem: Seq<u8>, e: int, ci: int, max: int)
    requires
        rem.len() == LINE_COUNT_SLOTS,
        0 <= ci,
        max < LINE_COUNT_SLOTS,
        e >= 0,
    ensures
        fills(rem, e, ci, max).no_duplicates(),
    decreases max + 1 - ci, e + 2,
{
    if e <= 0 {
        assert(fills(rem, e, ci, max) == seq![no_additions()]);
    } else if ci > max || ci >= LINE_COUNT_SLOTS {
    } else {
        lemma_upto_distinct(rem, e, ci, max, min_int(rem[ci] as int, e) + 1);
        assert(fills(rem, e, ci, max) == fills_upto(rem, e, ci, max, min_int(rem[ci] as int, e) + 1));
    }
}

/// No way to fill the slots is listed twice by `fills_upto`.
proof fn lemma_upto_distinct(rem: Seq<u8>, e: int, ci: int, max: int, k: int)
    requires
        rem.len() == LINE_COUNT_SLOTS,
        0 <= ci <= max,
        max < LINE_COUNT_SLOTS,
        e > 0,
        k <= min_int(rem[ci] as int, e) + 1,
    ensures
        fills_upto(rem, e, ci, max, k).no_duplicates(),
    decreases max + 1 - ci, k,
{
    if k <= 0 || k > e + 1 {
    } else {
        lemma_upto_distinct(rem, e, ci, max, k - 1);
        lemma_upto_sound(rem, e, ci, max, k - 1);
        let rem2 = rem.update(ci, (rem[ci] - (k - 1)) as u8);
        let e2 = e - (k - 1);
        lemma_fills_distinct(rem2, e2, ci + 1, max);
        lemma_fills_sound(rem2, e2, ci + 1, max);
        let left = fills_upto(rem, e, ci, max, k - 1);
        let f = fills(rem2, e2, ci + 1, max);
        let all = fills_upto(rem, e, ci, max, k);
        assert(all == left + f.map_values(|b: Seq<int>| b.update(ci, k - 1)));
        assert forall|x: int, y: int| 0 <= x < all.len() && 0 <= y < all.len() && x != y implies all[x] != all[y] by {
            if x < left.len() && y < left.len() {
                assert(all[x] == left[x] && all[y] == left[y]);
            } else if x >= left.len() && y >= left.len() {
                let bx = f[x - left.len()];
                let by = f[y - left.len()];
                assert(is_fill(bx, rem2, e2, ci + 1, max));
                assert(is_fill(by, rem2, e2, ci + 1, max));
                assert(all[x] == bx.update(ci, k - 1));
                assert(all[y] == by.update(ci, k - 1));
                if all[x] == all[y] {
                    assert forall|v: int| 0 <= v < bx.len() implies bx[v] == by[v] by {
                        if v != ci {
                            assert(bx[v] == all[x][v]);
                            assert(by[v] == all[y][v]);
                        } else {
                            assert(bx[ci] == 0);
                            assert(by[ci] == 0);
                        }
                    }
                    assert(bx =~= by);
                }
            } else if x < left.len() {
                assert(all[x] == left[x]);
                assert(left[x][ci] < k - 1);
                assert(all[y] == f[y - left.len()].update(ci, k - 1));
            } else {
                assert(all[y] == left[y]);
                assert(left[y][ci] < k - 1);
                assert(all[x] == f[x - left.len()].update(ci, k - 1));
            }
        }
    }
}

/// The scores of the ways to fill the slots of a line with counts `counts`, in `fills` order.
pub open spec fn fill_scores(counts: Seq<u8>, fs: Seq<Seq<int>>) -> Seq<int> {
    fs.map_values(|a: Seq<int>| spec_score_line(plus(counts, a)))
}

/// The counts a line may hold with what may still come fit in a byte.
pub open spec fn counts_room(counts: Seq<u8>, rem: Seq<u8>) -> bool {
    &&& counts.len() == LINE_COUNT_SLOTS
    &&& rem.len() == LINE_COUNT_SLOTS
    &&& forall|v: int| 0 <= v < LINE_COUNT_SLOTS ==> #[trigger] counts[v] + rem[v] <= u8::MAX
}

/// `completion_scores` scores the entries of `fills` in order.
proof fn lemma_scores_of_fills(counts: Seq<u8>, rem: Seq<u8>, e: int, ci: int, max: int)
    requires
        counts_room(counts, rem),
        0 <= ci,
        max < LINE_COUNT_SLOTS,
        e >= 0,
    ensures
        completion_scores(counts, rem, e, ci, max) == fill_scores(counts, fills(rem, e, ci, max)),
    decreases max + 1 - ci, e + 2,
{
    if e <= 0 {
        assert(plus(counts, no_additions()) =~= counts);
        assert(fills(rem, e, ci, max) == seq![no_additions()]);
        assert(fill_scores(counts, fills(rem, e, ci, max)) =~= seq![spec_score_line(counts)]);
    } else if ci > max || ci >= LINE_COUNT_SLOTS {
        assert(fill_scores(counts, fills(rem, e, ci, max)) =~= Seq::<int>::empty());
    } else {
        let big = min_int(rem[ci] as int, e) + 1;
        lemma_upto_scores(counts, rem, e, ci, max, big);
        assert(fills(rem, e, ci, max) == fills_upto(rem, e, ci, max, big));
        assert(completion_scores(counts, rem, e, ci, max) == completion_scores_upto(counts, rem, e, ci, max, big));
    }
}

/// `completion_scores_upto` scores the entries of `fills_upto` in order.
proof fn lemma_upto_scores(counts: Seq<u8>, rem: Seq<u8>, e: int, ci: int, max: int, k: int)
    requires
        counts_room(counts, rem),
        0 <= ci <= max,
        max < LINE_COUNT_SLOTS,
        e > 0,
        k <= min_int(rem[ci] as int, e) + 1,
    ensures
        completion_scores_upto(counts, rem, e, ci, max, k) == fill_scores(counts, fills_upto(rem, e, ci, max, k)),
    decreases max + 1 - ci, k,
{
    if k <= 0 || k > e + 1 {
        assert(fill_scores(counts, fills_upto(rem, e, ci, max, k)) =~= Seq::<int>::empty());
    } else {
        lemma_upto_scores(counts, rem, e, ci, max, k - 1);
        let counts2 = counts.update(ci, (counts[ci] + (k - 1)) as u8);
        let rem2 = rem.update(ci, (rem[ci] - (k - 1)) as u8);
        let e2 = e - (k - 1);
        assert(counts_room(counts2, rem2)) by {
            assert forall|v: int| 0 <= v < LINE_COUNT_SLOTS implies #[trigger] counts2[v] + rem2[v] <= u8::MAX by {
                assert(counts[v] + rem[v] <= u8::MAX);
            }
        }
        lemma_scores_of_fills(counts2, rem2, e2, ci + 1, max);
        lemma_fills_sound(rem2, e2, ci + 1, max);
        let left = fills_upto(rem, e, ci, max, k - 1);
        let f = fills(rem2, e2, ci + 1, max);
        let m = f.map_values(|b: Seq<int>| b.update(ci, k - 1));
        assert(fills_upto(rem, e, ci, max, k) == left + m);
        assert(fill_scores(counts, m) =~= fill_scores(counts2, f)) by {
            assert forall|i: int| 0 <= i < f.len() implies #[trigger] fill_scores(counts, m)[i] == fill_scores(counts2, f)[i] by {
                let b = f[i];
                assert(is_fill(b, rem2, e2, ci + 1, max));
                assert(m[i] == b.update(ci, k - 1));
                assert(plus(counts, b.update(ci, k - 1)) =~= plus(counts2, b)) by {
                    assert(b[ci] == 0);
                    assert(counts[ci] + rem[ci] <= u8::MAX);
                }
            }
        }
        assert(fill_scores(counts, left + m) =~= fill_scores(counts, left) + fill_scores(counts, m));
    }
}

/// The scores that `complete_and_score` appends ([`completion_scores`]) are one per way to fill
/// the `empty` slots of the line: the scores of `fills` in order, where `fills` lists every way
/// to fill them ([`is_fill`]: at most `rem[v]` copies of each value `v` in `ci..=max`) exactly
/// once.
pub proof fn lemma_one_score_per_fill(counts: Seq<u8>, rem: Seq<u8>, empty: int, ci: int, max: int)
    requires
        counts_room(counts, rem),
        0 <= ci <= max + 1,
        max < LINE_COUNT_SLOTS,
        empty >= 0,
    ensures
        completion_scores(counts, rem, empty, ci, max) == fill_scores(counts, fills(rem, empty, ci, max)),
        fills(rem, empty, ci, max).no_duplicates(),
        forall|a: Seq<int>| #[trigger] fills(rem, empty, ci, max).contains(a) <==> is_fill(a, rem, empty, ci, max),
{
    lemma_scores_of_fills(counts, rem, empty, ci, max);
    lemma_fills_distinct(rem, empty, ci, max);
    lemma_fills_sound(rem, empty, ci, max);
    assert forall|a: Seq<int>| #[trigger] fills(rem, empty, ci, max).contains(a) <==> is_fill(a, rem, empty, ci, max) by {
        if is_fill(a, rem, empty, ci, max) {
            lemma_fills_complete(rem, empty, ci, max, a);
        }
    }
}

} // verus!
