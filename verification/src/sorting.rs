use vstd::prelude::*;
use vstd::relations::sorted_by;

verus! {

/// Ascending order on `u16`.
pub open spec fn u16_leq() -> spec_fn(u16, u16) -> bool {
    |a: u16, b: u16| a <= b
}

/// `slice::sort` on line scores. Claimed: the result is sorted ascending and is a permutation of
/// the input.
#[verifier::external_body]
pub(crate) fn sort_scores(v: &mut Vec<u16>)
    ensures
        sorted_by(final(v)@, u16_leq()),
        final(v)@.to_multiset() == old(v)@.to_multiset(),
{
    v.sort();
}

/// Lexicographic order on sequences, as Rust compares slices: the first differing element decides,
/// and a proper prefix comes first.
pub open spec fn lex_lt(a: Seq<u16>, b: Seq<u16>) -> bool
    decreases a.len(),
{
    if a.len() == 0 {
        b.len() > 0
    } else if b.len() == 0 {
        false
    } else if a[0] != b[0] {
        a[0] < b[0]
    } else {
        lex_lt(a.drop_first(), b.drop_first())
    }
}

/// Lexicographic order is total: exactly one of `a < b`, `a == b`, `b < a` holds.
pub proof fn lemma_lex_trichotomy(a: Seq<u16>, b: Seq<u16>)
    ensures
        lex_lt(a, b) || a == b || lex_lt(b, a),
        !(lex_lt(a, b) && lex_lt(b, a)),
        !(lex_lt(a, b) && a == b),
    decreases a.len(),
{
    if a.len() > 0 && b.len() > 0 && a[0] == b[0] {
        lemma_lex_trichotomy(a.drop_first(), b.drop_first());
        if a.drop_first() == b.drop_first() {
            assert forall|i: int| 0 <= i < a.len() implies a[i] == b[i] by {
                if i > 0 {
                    assert(a[i] == a.drop_first()[i - 1]);
                    assert(b[i] == b.drop_first()[i - 1]);
                }
            }
            assert(a =~= b);
        }
    } else if a.len() == 0 && b.len() == 0 {
        assert(a =~= b);
    }
}

/// Lexicographic order is transitive.
pub proof fn lemma_lex_transitive(a: Seq<u16>, b: Seq<u16>, c: Seq<u16>)
    requires
        lex_lt(a, b),
        lex_lt(b, c),
    ensures
        lex_lt(a, c),
    decreases a.len(),
{
    if a.len() > 0 && b.len() > 0 && c.len() > 0 && a[0] == b[0] && b[0] == c[0] {
        lemma_lex_transitive(a.drop_first(), b.drop_first(), c.drop_first());
    }
}

/// `a < b` in lexicographic order.
pub fn lex_less(a: &Vec<u16>, b: &Vec<u16>) -> (r: bool)
    ensures
        r == lex_lt(a@, b@),
{
    let mut i: usize = 0;
    assert(a@.skip(0) =~= a@);
    assert(b@.skip(0) =~= b@);
    while i < a.len() && i < b.len()
        invariant
            i <= a.len(),
            i <= b.len(),
            lex_lt(a@, b@) == lex_lt(a@.skip(i as int), b@.skip(i as int)),
        decreases a.len() - i,
    {
        if a[i] != b[i] {
            return a[i] < b[i];
        }
        assert(a@.skip(i as int).drop_first() =~= a@.skip(i + 1));
        assert(b@.skip(i as int).drop_first() =~= b@.skip(i + 1));
        i += 1;
    }
    a.len() < b.len()
}

/// Element-wise equality of two score vectors.
pub fn scores_equal(a: &Vec<u16>, b: &Vec<u16>) -> (r: bool)
    ensures
        r == (a@ == b@),
{
    if a.len() != b.len() {
        return false;
    }
    let mut i: usize = 0;
    while i < a.len()
        invariant
            a.len() == b.len(),
            i <= a.len(),
            forall|k: int| 0 <= k < i ==> a@[k] == b@[k],
        decreases a.len() - i,
    {
        if a[i] != b[i] {
            return false;
        }
        i += 1;
    }
    assert(a@ =~= b@);
    true
}

/// Entry `p1` of `s` comes before entry `p2` when ordered by `rank` of the entries, ties kept in
/// their order in `s`.
pub open spec fn rank_before(s: Seq<usize>, rank: Seq<u128>, p1: int, p2: int) -> bool {
    rank[s[p1] as int] < rank[s[p2] as int] || (rank[s[p1] as int] == rank[s[p2] as int] && p1 < p2)
}

/// `r` is `s` sorted by `rank` of its entries, stably: `r[k] == s[perm[k]]` where `perm` lists
/// positions of `s`, as many as `s` has, strictly in `rank_before` order (so each position once).
pub open spec fn is_stable_rank_sort(s: Seq<usize>, rank: Seq<u128>, r: Seq<usize>) -> bool {
    exists|perm: Seq<int>| #[trigger] is_rank_sort_witness(s, rank, r, perm)
}

/// `perm` shows that `r` is `s` stably sorted by `rank` (see [`is_stable_rank_sort`]).
pub open spec fn is_rank_sort_witness(s: Seq<usize>, rank: Seq<u128>, r: Seq<usize>, perm: Seq<int>) -> bool {
    &&& r.len() == s.len()
    &&& perm.len() == s.len()
    &&& forall|k: int| 0 <= k < r.len() ==> 0 <= #[trigger] perm[k] < s.len() && r[k] == s[perm[k]]
    &&& forall|k1: int, k2: int| 0 <= k1 < k2 < r.len() ==> rank_before(s, rank, #[trigger] perm[k1], #[trigger] perm[k2])
}

/// The first place from `j` on where `out` holds an entry ranked above `key` (or the end).
pub open spec fn first_above(out: Seq<usize>, rank: Seq<u128>, key: u128, j: int) -> int
    decreases out.len() - j,
{
    if j >= out.len() || rank[out[j] as int] > key {
        j
    } else {
        first_above(out, rank, key, j + 1)
    }
}

/// `s` sorted by `rank` of its entries by insertion: each entry in turn goes before the first
/// entry ranked above it. This is the stable sort of [`is_stable_rank_sort`], as a function.
pub open spec fn rank_sorted(s: Seq<usize>, rank: Seq<u128>) -> Seq<usize>
    decreases s.len(),
{
    if s.len() == 0 {
        Seq::empty()
    } else {
        let prev = rank_sorted(s.drop_last(), rank);
        prev.insert(first_above(prev, rank, rank[s.last() as int], 0), s.last())
    }
}

/// Sorting keeps the number of entries.
pub proof fn lemma_rank_sorted_len(s: Seq<usize>, rank: Seq<u128>)
    ensures
        rank_sorted(s, rank).len() == s.len(),
    decreases s.len(),
{
    if s.len() > 0 {
        lemma_rank_sorted_len(s.drop_last(), rank);
        lemma_first_above_bounds(rank_sorted(s.drop_last(), rank), rank, rank[s.last() as int], 0);
    }
}

/// The insertion place lies within the sequence, or at its end.
proof fn lemma_first_above_bounds(out: Seq<usize>, rank: Seq<u128>, key: u128, j: int)
    requires
        0 <= j,
    ensures
        j <= first_above(out, rank, key, j),
        j <= out.len() ==> first_above(out, rank, key, j) <= out.len(),
    decreases out.len() - j,
{
    if j < out.len() && rank[out[j] as int] <= key {
        lemma_first_above_bounds(out, rank, key, j + 1);
    }
}

/// Sort `v` by `rank` of its entries, ascending, keeping equal ranks in their order.
pub fn stable_sort_by_rank(v: &Vec<usize>, rank: &Vec<u128>) -> (r: Vec<usize>)
    requires
        forall|k: int| 0 <= k < v.len() ==> (#[trigger] v@[k]) < rank.len(),
    ensures
        is_stable_rank_sort(v@, rank@, r@),
        r@ == rank_sorted(v@, rank@),
        r@.len() == v@.len(),
        r@.to_multiset() == v@.to_multiset(),
{
    broadcast use {vstd::seq_lib::group_to_multiset_ensures, vstd::multiset::group_multiset_axioms};

    let mut out: Vec<usize> = Vec::new();
    let ghost mut perm: Seq<int> = Seq::empty();
    let mut i: usize = 0;
    while i < v.len()
        invariant
            forall|k: int| 0 <= k < v.len() ==> (#[trigger] v@[k]) < rank.len(),
            i <= v.len(),
            out@.len() == i,
            perm.len() == i,
            forall|k: int| 0 <= k < i ==> 0 <= #[trigger] perm[k] < i && out@[k] == v@[perm[k]],
            forall|k: int| 0 <= k < i ==> (#[trigger] out@[k]) < rank.len(),
            out@.to_multiset() == v@.take(i as int).to_multiset(),
            out@ == rank_sorted(v@.take(i as int), rank@),
            forall|k1: int, k2: int| 0 <= k1 < k2 < i ==> rank_before(v@, rank@, #[trigger] perm[k1], #[trigger] perm[k2]),
        decreases v.len() - i,
    {
        let x = v[i];
        let key = rank[x];
        let mut p: usize = 0;
        while p < out.len() && rank[out[p]] <= key
            invariant
                forall|k: int| 0 <= k < v.len() ==> (#[trigger] v@[k]) < rank.len(),
                i < v.len(),
                x == v@[i as int],
                key == rank@[x as int],
                out@.len() == i,
                perm.len() == i,
                forall|k: int| 0 <= k < i ==> 0 <= #[trigger] perm[k] < i && out@[k] == v@[perm[k]],
                forall|k: int| 0 <= k < i ==> (#[trigger] out@[k]) < rank.len(),
                p <= out.len(),
                forall|k: int| 0 <= k < p ==> rank@[#[trigger] out@[k] as int] <= key,
                first_above(out@, rank@, key, 0) == first_above(out@, rank@, key, p as int),
            decreases out.len() - p,
        {
            p += 1;
        }
        let ghost old_out = out@;
        let ghost old_perm = perm;
        proof {
            if p < out.len() {
                assert(rank@[out@[p as int] as int] > key);
            }
        }
        out.insert(p, x);
        proof {
            vstd::seq_lib::to_multiset_insert(old_out, p as int, x);
            assert(v@.take(i + 1) =~= v@.take(i as int).push(x));
            assert(v@.take(i + 1).drop_last() =~= v@.take(i as int));
            assert(first_above(old_out, rank@, key, 0) == p);
            vstd::seq_lib::to_multiset_build(v@.take(i as int), x);
            perm = old_perm.insert(p as int, i as int);
            assert forall|k: int| 0 <= k < i + 1 implies 0 <= #[trigger] perm[k] < i + 1 && out@[k] == v@[perm[k]] by {
                if k < p {
                    assert(perm[k] == old_perm[k]);
                } else if k > p {
                    assert(perm[k] == old_perm[k - 1]);
                }
            }
            assert forall|k1: int, k2: int| 0 <= k1 < k2 < i + 1 implies rank_before(
                v@,
                rank@,
                #[trigger] perm[k1],
                #[trigger] perm[k2],
            ) by {
                if k1 < p && k2 < p {
                    assert(rank_before(v@, rank@, old_perm[k1], old_perm[k2]));
                } else if k1 < p && k2 == p {
                    assert(rank@[old_out[k1] as int] <= key);
                } else if k1 < p && k2 > p {
                    assert(rank_before(v@, rank@, old_perm[k1], old_perm[k2 - 1]));
                } else if k1 == p {
                    assert(rank_before(v@, rank@, old_perm[p as int], old_perm[k2 - 1]) || k2 - 1 == p);
                    if k2 - 1 > p {
                        assert(rank_before(v@, rank@, old_perm[p as int], old_perm[k2 - 1]));
                    }
                } else {
                    assert(rank_before(v@, rank@, old_perm[k1 - 1], old_perm[k2 - 1]));
                }
            }
        }
        i += 1;
    }
    proof {
        assert(is_rank_sort_witness(v@, rank@, out@, perm));
        assert(v@.take(v.len() as int) =~= v@);
    }
    out
}

} // verus!
