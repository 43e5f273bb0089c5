use vstd::prelude::*;

use fuzzy_matcher::skim::SkimMatcherV2;
use fuzzy_matcher::FuzzyMatcher;

use crate::algos::kind::{default_kinds, parsed_kind, InnerKind, InnerSpec, KindSpec, PlayerKind};
use crate::algos::{validate_manual_name, SearchKind};
use crate::player::{valid_manual_name, ManualPlayer};
use crate::roster::{default_id_list, default_ids, holds, kind_views, views};
use crate::algos::sadist::min_int;
use crate::sorting::{is_rank_sort_witness, rank_sorted, stable_sort_by_rank};

verus! {

/// `c` with an ASCII capital letter made small.
pub open spec fn ascii_lower(c: char) -> char {
    if 'A' <= c <= 'Z' {
        ((c as int) + 32) as char
    } else {
        c
    }
}

/// `s` holds an ASCII capital letter.
pub open spec fn has_ascii_upper(s: Seq<char>) -> bool {
    exists|i: int| 0 <= i < s.len() && 'A' <= #[trigger] s[i] <= 'Z'
}

/// `c` and `p` are the same character, ignoring ASCII case unless `sensitive`.
pub open spec fn same_char(c: char, p: char, sensitive: bool) -> bool {
    if sensitive {
        c == p
    } else {
        ascii_lower(c) == ascii_lower(p)
    }
}

/// The characters of `pattern` occur in `choice` in their order.
pub open spec fn in_order(choice: Seq<char>, pattern: Seq<char>, sensitive: bool) -> bool
    decreases choice.len(),
{
    if pattern.len() == 0 {
        true
    } else if choice.len() == 0 {
        false
    } else if same_char(choice[0], pattern[0], sensitive) {
        in_order(choice.drop_first(), pattern.drop_first(), sensitive)
    } else {
        in_order(choice.drop_first(), pattern, sensitive)
    }
}

/// `pattern` fuzzily matches `choice`: its characters occur there in order, compared exactly
/// when the pattern holds an ASCII capital letter and ignoring ASCII case otherwise.
pub open spec fn fuzzy_matches(choice: Seq<char>, pattern: Seq<char>) -> bool {
    in_order(choice, pattern, has_ascii_upper(pattern))
}

/// The score that the default skim matcher gives `choice` for `pattern`, `None` when it does not
/// match.
pub uninterp spec fn skim_score(choice: Seq<char>, pattern: Seq<char>) -> Option<i64>;

/// `FuzzyMatcher::fuzzy_match` of `SkimMatcherV2::default()`. Claimed: the result depends on the
/// two strings alone ([`skim_score`]); an empty pattern scores 0; there is a score exactly when
/// the pattern [`fuzzy_matches`] the choice. How large a score is goes unstated.
#[verifier::external_body]
fn fuzzy_score(choice: &str, pattern: &str) -> (r: Option<i64>)
    ensures
        r == skim_score(choice@, pattern@),
        pattern@.len() == 0 ==> r == Some(0i64),
        r is Some <==> fuzzy_matches(choice@, pattern@),
{
    SkimMatcherV2::default().fuzzy_match(choice, pattern)
}

/// The labels of some candidates.
pub open spec fn labels<T>(c: Seq<(String, T)>) -> Seq<Seq<char>> {
    c.map_values(|e: (String, T)| e.0@)
}

/// The positions of the labels that `query` scores, in order.
pub open spec fn matching_positions(labels: Seq<Seq<char>>, query: Seq<char>) -> Seq<usize>
    decreases labels.len(),
{
    if labels.len() == 0 {
        Seq::empty()
    } else {
        let before = matching_positions(labels.drop_last(), query);
        if skim_score(labels.last(), query) is Some {
            before.push((labels.len() - 1) as usize)
        } else {
            before
        }
    }
}

/// Sort keys putting higher scores first.
pub open spec fn score_keys(labels: Seq<Seq<char>>, query: Seq<char>) -> Seq<u128> {
    Seq::new(
        labels.len(),
        |i: int|
            match skim_score(labels[i], query) {
                Some(s) => (i64::MAX - s) as u128,
                None => 0u128,
            },
    )
}

/// The positions the search lists for a non-empty `query`: the labels it scores, best score
/// first, equal scores in list order.
pub open spec fn fuzzy_order(labels: Seq<Seq<char>>, query: Seq<char>) -> Seq<usize> {
    rank_sorted(matching_positions(labels, query), score_keys(labels, query))
}

/// The candidates the search lists for `query`: all of them, in order, for an empty query; else
/// those whose label the query fuzzily matches, best score first ([`fuzzy_order`]). The entries
/// are clones of the candidates.
pub fn filter_candidates<T: Clone>(candidates: &[(String, T)], query: &str) -> (r: Vec<(String, T)>)
    ensures
        query@.len() == 0 ==> r@.len() == candidates@.len() && forall|k: int|
            0 <= k < r@.len() ==> (#[trigger] r@[k]).0@ == candidates@[k].0@ && cloned(candidates@[k].1, r@[k].1),
        query@.len() > 0 ==> {
            let order = fuzzy_order(labels(candidates@), query@);
            &&& r@.len() == order.len()
            &&& forall|k: int|
                0 <= k < r@.len() ==> order[k] < candidates@.len() && (#[trigger] r@[k]).0@
                    == candidates@[order[k] as int].0@ && cloned(candidates@[order[k] as int].1, r@[k].1)
        },
{
    let ghost ls = labels(candidates@);
    if query.unicode_len() == 0 {
        let mut out: Vec<(String, T)> = Vec::new();
        let mut i: usize = 0;
        while i < candidates.len()
            invariant
                i <= candidates@.len(),
                out@.len() == i,
                forall|k: int|
                    0 <= k < i ==> (#[trigger] out@[k]).0@ == candidates@[k].0@ && cloned(candidates@[k].1, out@[k].1),
            decreases candidates@.len() - i,
        {
            let label = candidates[i].0.clone();
            let kind = candidates[i].1.clone();
            out.push((label, kind));
            i += 1;
        }
        return out;
    }
    let n = candidates.len();
    let mut keys: Vec<u128> = Vec::new();
    let mut found: Vec<usize> = Vec::new();
    let mut i: usize = 0;
    while i < n
        invariant
            n == candidates@.len(),
            ls == labels(candidates@),
            i <= n,
            keys@ == score_keys(ls, query@).take(i as int),
            found@ == matching_positions(ls.take(i as int), query@),
            forall|k: int| 0 <= k < found@.len() ==> (#[trigger] found@[k]) < i,
        decreases n - i,
    {
        let score = fuzzy_score(candidates[i].0.as_str(), query);
        proof {
            assert(ls[i as int] == candidates@[i as int].0@);
            assert(ls.take(i + 1).drop_last() =~= ls.take(i as int));
            assert(ls.take(i + 1).last() == ls[i as int]);
        }
        match score {
            Some(s) => {
                keys.push((i64::MAX as i128 - s as i128) as u128);
                found.push(i);
            },
            None => {
                keys.push(0);
            },
        }
        proof {
            assert(keys@ =~= score_keys(ls, query@).take(i + 1));
        }
        i += 1;
    }
    proof {
        assert(ls.take(n as int) =~= ls);
        assert(keys@ =~= score_keys(ls, query@));
    }
    let order = stable_sort_by_rank(&found, &keys);
    proof {
        let perm = choose|perm: Seq<int>| is_rank_sort_witness(found@, keys@, order@, perm);
        assert forall|k: int| 0 <= k < order@.len() implies (#[trigger] order@[k]) < n by {
            assert(order@[k] == found@[perm[k]]);
        }
    }
    let mut out: Vec<(String, T)> = Vec::new();
    let mut j: usize = 0;
    while j < order.len()
        invariant
            n == candidates@.len(),
            j <= order@.len(),
            out@.len() == j,
            forall|k: int| 0 <= k < order@.len() ==> (#[trigger] order@[k]) < n,
            forall|k: int|
                0 <= k < j ==> (#[trigger] out@[k]).0@ == candidates@[order@[k] as int].0@ && cloned(
                    candidates@[order@[k] as int].1,
                    out@[k].1,
                ),
        decreases order@.len() - j,
    {
        let p = order[j];
        let label = candidates[p].0.clone();
        let kind = candidates[p].1.clone();
        out.push((label, kind));
        j += 1;
    }
    out
}

/// The player a rated id stands for in the menu: its parsed spec, else a manual player of that
/// name when the id is a valid name, else none.
pub open spec fn rated_kind(id: Seq<char>) -> Option<KindSpec> {
    match parsed_kind(id) {
        Ok(k) => Some(k),
        Err(_) => if valid_manual_name(id) {
            Some(KindSpec { inner: InnerSpec::Manual(id), sims: None, sizes: None, hide: None })
        } else {
            None
        },
    }
}

/// The players of the rated ids that are not default ids, skipping those [`rated_kind`]
/// refuses, in order.
pub open spec fn rated_kinds(ids: Seq<Seq<char>>) -> Seq<KindSpec>
    decreases ids.len(),
{
    if ids.len() == 0 {
        Seq::empty()
    } else {
        let before = rated_kinds(ids.drop_last());
        if default_ids().contains(ids.last()) {
            before
        } else {
            match rated_kind(ids.last()) {
                Some(k) => before.push(k),
                None => before,
            }
        }
    }
}

/// The players the menu's search offers: the defaults, then the players of the ids with a stored
/// rating (`rated`) that are not defaults ([`rated_kinds`]).
pub fn candidate_kinds(rated: &Vec<String>) -> (r: Vec<PlayerKind>)
    ensures
        kind_views(r@) == default_kinds() + rated_kinds(views(rated@)),
{
    let ghost ids = views(rated@);
    let mut out = PlayerKind::defaults();
    proof {
        assert(kind_views(out@) =~= default_kinds());
    }
    let default_list = default_id_list();
    let mut i: usize = 0;
    while i < rated.len()
        invariant
            ids == views(rated@),
            views(default_list@) == default_ids(),
            i <= rated.len(),
            kind_views(out@) == default_kinds() + rated_kinds(ids.take(i as int)),
        decreases rated.len() - i,
    {
        let key = rated[i].as_str();
        proof {
            assert(ids[i as int] == key@);
            assert(ids.take(i + 1).drop_last() =~= ids.take(i as int));
            assert(ids.take(i + 1).last() == key@);
        }
        let ghost before = out@;
        if !holds(&default_list, key) {
            match PlayerKind::parse(key) {
                Ok(k) => {
                    out.push(k);
                    proof {
                        assert(rated_kind(key@) == Some(k@));
                        assert(kind_views(out@) =~= kind_views(before).push(k@));
                    }
                },
                Err(_) => {
                    if validate_manual_name(key).is_ok() {
                        let m = PlayerKind {
                            inner: InnerKind::ManualPlayer(ManualPlayer { name: key.to_string() }),
                            sims: None,
                            constrain_sizes: None,
                            constrain_hide: None,
                        };
                        out.push(m);
                        proof {
                            assert(valid_manual_name(key@));
                            assert(kind_views(out@) =~= kind_views(before).push(m@));
                        }
                    } else {
                        assert(!valid_manual_name(key@));
                    }
                },
            }
        }
        proof {
            assert(kind_views(out@) =~= default_kinds() + rated_kinds(ids.take(i + 1)));
        }
        i += 1;
    }
    proof {
        assert(ids.take(rated.len() as int) =~= ids);
    }
    out
}

/// The highlighted row of the search list after the arrow keys, for `count` matches (an empty
/// list still shows one row): Down moves one row down but not past the last row, then Up moves one
/// row up but not above the first.
pub open spec fn spec_step_highlight(highlighted: int, count: int, down: bool, up: bool) -> int {
    let rows = if count == 0 {
        1
    } else {
        count
    };
    let after_down = if down {
        min_int(highlighted + 1, rows - 1)
    } else {
        highlighted
    };
    if up {
        if after_down == 0 {
            0
        } else {
            after_down - 1
        }
    } else {
        after_down
    }
}

/// Move the highlighted row for the arrow keys pressed ([`spec_step_highlight`]).
pub fn step_highlight(highlighted: usize, count: usize, down: bool, up: bool) -> (r: usize)
    requires
        down ==> highlighted < usize::MAX,
    ensures
        r == spec_step_highlight(highlighted as int, count as int, down, up),
{
    let rows = if count == 0 {
        1
    } else {
        count
    };
    let mut h = highlighted;
    if down {
        h = if h + 1 < rows - 1 {
            h + 1
        } else {
            rows - 1
        };
    }
    if up {
        h = if h == 0 {
            0
        } else {
            h - 1
        };
    }
    h
}

} // verus!
