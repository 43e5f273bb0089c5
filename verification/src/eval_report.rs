use vstd::prelude::*;
use vstd::string::*;

use crate::text::{concat, is_digit, parse_u32, parsed_u32};

verus! {

/// `needle` occurs in `s` at index `i`.
pub open spec fn occurs_at(s: Seq<char>, needle: Seq<char>, i: int) -> bool {
    0 <= i && i + needle.len() <= s.len() && s.subrange(i, i + needle.len()) == needle
}

/// `i` is the first index where `needle` occurs in `s`.
pub open spec fn is_first_occurrence(s: Seq<char>, needle: Seq<char>, i: int) -> bool {
    occurs_at(s, needle, i) && forall|j: int| 0 <= j < i ==> !#[trigger] occurs_at(s, needle, j)
}

/// `i` is the last index where `needle` occurs in `s`.
pub open spec fn is_last_occurrence(s: Seq<char>, needle: Seq<char>, i: int) -> bool {
    occurs_at(s, needle, i) && forall|j: int| i < j ==> !#[trigger] occurs_at(s, needle, j)
}

/// Where `needle` first occurs in `s`, if it does.
pub open spec fn first_occurrence(s: Seq<char>, needle: Seq<char>) -> Option<int> {
    if exists|i: int| #[trigger] is_first_occurrence(s, needle, i) {
        Some(choose|i: int| #[trigger] is_first_occurrence(s, needle, i))
    } else {
        None
    }
}

/// Where `needle` last occurs in `s`, if it does.
pub open spec fn last_occurrence(s: Seq<char>, needle: Seq<char>) -> Option<int> {
    if exists|i: int| #[trigger] is_last_occurrence(s, needle, i) {
        Some(choose|i: int| #[trigger] is_last_occurrence(s, needle, i))
    } else {
        None
    }
}

/// The ASCII digits at the start of `s`.
pub open spec fn leading_digits(s: Seq<char>) -> Seq<char>
    decreases s.len(),
{
    if s.len() > 0 && is_digit(s[0]) {
        seq![s[0]] + leading_digits(s.skip(1))
    } else {
        Seq::empty()
    }
}

/// The text that introduces the value of `key` in a JSON object: `"key":`.
pub open spec fn key_needle(key: Seq<char>) -> Seq<char> {
    "\""@ + key + "\":"@
}

/// The number right after the first `"key":` of `s`, if any and if it fits a `u32`.
pub open spec fn spec_extract_u32(s: Seq<char>, key: Seq<char>) -> Option<u32> {
    match first_occurrence(s, key_needle(key)) {
        None => None,
        Some(p) => parsed_u32(leading_digits(s.skip(p + key_needle(key).len()))),
    }
}

/// The text that marks the object of player `id`: `"id":"<id>"`.
pub open spec fn id_needle(id: Seq<char>) -> Seq<char> {
    "\"id\":\""@ + id + "\""@
}

/// Wins and games of player `id` in a tournament report: the object holding the last
/// `"id":"<id>"` starts at the last `{` before it (or at the id itself), and its `"wins"` and
/// `"games"` are read from there on.
pub open spec fn spec_parse_eval_json(json: Seq<char>, id: Seq<char>) -> Option<(u32, u32)> {
    match last_occurrence(json, id_needle(id)) {
        None => None,
        Some(p) => {
            let start = match last_occurrence(json.take(p), seq!['{']) {
                Some(q) => q,
                None => p,
            };
            let chunk = json.skip(start);
            match (spec_extract_u32(chunk, "wins"@), spec_extract_u32(chunk, "games"@)) {
                (Some(w), Some(g)) => Some((w, g)),
                _ => None,
            }
        },
    }
}

/// The characters of `s`.
fn chars_of(s: &str) -> (r: Vec<char>)
    ensures
        r@ == s@,
{
    let len = s.unicode_len();
    let mut out: Vec<char> = Vec::new();
    let mut i: usize = 0;
    while i < len
        invariant
            len == s@.len(),
            i <= len,
            out@ == s@.take(i as int),
        decreases len - i,
    {
        out.push(s.get_char(i));
        proof {
            assert(out@ =~= s@.take(i + 1));
        }
        i += 1;
    }
    proof {
        assert(out@ =~= s@);
    }
    out
}

/// Whether `needle` occurs in `s` at `i`.
fn occurs_at_index(s: &Vec<char>, needle: &Vec<char>, i: usize) -> (r: bool)
    ensures
        r == occurs_at(s@, needle@, i as int),
{
    if i > s.len() || needle.len() > s.len() - i {
        return false;
    }
    let mut k: usize = 0;
    while k < needle.len()
        invariant
            i + needle.len() <= s.len(),
            k <= needle.len(),
            forall|j: int| 0 <= j < k ==> s@[i + j] == needle@[j],
        decreases needle.len() - k,
    {
        if s[i + k] != needle[k] {
            proof {
                assert(s@.subrange(i as int, i + needle.len())[k as int] != needle@[k as int]);
            }
            return false;
        }
        k += 1;
    }
    proof {
        assert(s@.subrange(i as int, i + needle.len()) =~= needle@);
    }
    true
}

/// The first index where `needle` occurs in `s`.
fn find_first(s: &Vec<char>, needle: &Vec<char>) -> (r: Option<usize>)
    ensures
        r matches Some(p) ==> is_first_occurrence(s@, needle@, p as int),
        r is None ==> forall|j: int| !#[trigger] occurs_at(s@, needle@, j),
{
    if needle.len() > s.len() {
        return None;
    }
    let last = s.len() - needle.len();
    let mut i: usize = 0;
    loop
        invariant
            i <= last,
            last + needle.len() == s.len(),
            forall|j: int| 0 <= j < i ==> !#[trigger] occurs_at(s@, needle@, j),
        decreases last - i,
    {
        if occurs_at_index(s, needle, i) {
            return Some(i);
        }
        if i == last {
            return None;
        }
        i += 1;
    }
}

/// The last index where `needle` occurs in `s`.
fn find_last(s: &Vec<char>, needle: &Vec<char>) -> (r: Option<usize>)
    ensures
        r matches Some(p) ==> is_last_occurrence(s@, needle@, p as int),
        r is None ==> forall|j: int| !#[trigger] occurs_at(s@, needle@, j),
{
    if needle.len() > s.len() {
        return None;
    }
    let mut i: usize = s.len() - needle.len();
    loop
        invariant
            i + needle.len() <= s.len(),
            forall|j: int| i < j ==> !#[trigger] occurs_at(s@, needle@, j),
        decreases i,
    {
        if occurs_at_index(s, needle, i) {
            return Some(i);
        }
        if i == 0 {
            return None;
        }
        i -= 1;
    }
}

/// A search result in terms of the specification's choice of occurrence.
proof fn lemma_first_found(s: Seq<char>, needle: Seq<char>, r: Option<usize>)
    requires
        r matches Some(p) ==> is_first_occurrence(s, needle, p as int),
        r is None ==> forall|j: int| !#[trigger] occurs_at(s, needle, j),
    ensures
        first_occurrence(s, needle) == match r {
            Some(p) => Some(p as int),
            None => None::<int>,
        },
{
    if let Some(p) = r {
        let q = choose|i: int| #[trigger] is_first_occurrence(s, needle, i);
        if q < p {
            assert(occurs_at(s, needle, q));
        }
        if p < q {
            assert(occurs_at(s, needle, p as int));
        }
    }
}

/// A search result in terms of the specification's choice of occurrence.
proof fn lemma_last_found(s: Seq<char>, needle: Seq<char>, r: Option<usize>)
    requires
        r matches Some(p) ==> is_last_occurrence(s, needle, p as int),
        r is None ==> forall|j: int| !#[trigger] occurs_at(s, needle, j),
    ensures
        last_occurrence(s, needle) == match r {
            Some(p) => Some(p as int),
            None => None::<int>,
        },
{
    if let Some(p) = r {
        let q = choose|i: int| #[trigger] is_last_occurrence(s, needle, i);
        if q < p {
            assert(occurs_at(s, needle, p as int));
        }
        if p < q {
            assert(occurs_at(s, needle, q));
        }
    }
}

/// The end of the run of ASCII digits of `s` that starts at `from`.
fn digits_end(s: &Vec<char>, from: usize) -> (r: usize)
    requires
        from <= s.len(),
    ensures
        from <= r <= s.len(),
        s@.subrange(from as int, r as int) == leading_digits(s@.skip(from as int)),
    decreases s.len() - from,
{
    if from < s.len() && '0' <= s[from] && s[from] <= '9' {
        let r = digits_end(s, from + 1);
        proof {
            assert(s@.skip(from as int).skip(1) =~= s@.skip(from + 1));
            assert(s@.subrange(from as int, r as int) =~= seq![s@[from as int]] + s@.subrange(from + 1, r as int));
        }
        r
    } else {
        proof {
            assert(s@.subrange(from as int, from as int) =~= Seq::<char>::empty());
        }
        from
    }
}

/// The number right after the first `"key":` of `s` (see [`spec_extract_u32`]).
pub fn extract_u32(s: &str, key: &str) -> (r: Option<u32>)
    ensures
        r == spec_extract_u32(s@, key@),
{
    let chars = chars_of(s);
    let head = concat("\"", key);
    let needle_text = concat(head.as_str(), "\":");
    let needle = chars_of(needle_text.as_str());
    let found = find_first(&chars, &needle);
    proof {
        lemma_first_found(s@, key_needle(key@), found);
    }
    let p = match found {
        None => return None,
        Some(p) => p,
    };
    proof {
        assert(occurs_at(chars@, needle@, p as int));
        assert(p + needle@.len() <= chars.len());
    }
    let start = p + needle.len();
    let end = digits_end(&chars, start);
    let digits = s.substring_char(start, end);
    proof {
        assert(digits@ == leading_digits(s@.skip(start as int)));
    }
    parse_u32(digits)
}

/// Wins and games of player `id` in the JSON report of a tournament, e.g.
/// `[{"id":"rollout","wins":10,"games":32},...]` (see [`spec_parse_eval_json`]).
pub fn parse_eval_json(json: &str, id: &str) -> (r: Option<(u32, u32)>)
    ensures
        r == spec_parse_eval_json(json@, id@),
{
    let chars = chars_of(json);
    let head = concat("\"id\":\"", id);
    let needle_text = concat(head.as_str(), "\"");
    let needle = chars_of(needle_text.as_str());
    let found = find_last(&chars, &needle);
    proof {
        lemma_last_found(json@, id_needle(id@), found);
    }
    let id_pos = match found {
        None => return None,
        Some(p) => p,
    };
    let before = json.substring_char(0, id_pos);
    let before_chars = chars_of(before);
    let brace = vec!['{'];
    let open = find_last(&before_chars, &brace);
    proof {
        assert(before@ =~= json@.take(id_pos as int));
        assert(brace@ =~= seq!['{']);
        lemma_last_found(json@.take(id_pos as int), seq!['{'], open);
    }
    let obj_start = match open {
        Some(q) => q,
        None => id_pos,
    };
    let chunk = json.substring_char(obj_start, chars.len());
    proof {
        assert(chunk@ =~= json@.skip(obj_start as int));
        reveal_strlit("wins");
        reveal_strlit("games");
    }
    let wins = match extract_u32(chunk, "wins") {
        None => return None,
        Some(w) => w,
    };
    let games = match extract_u32(chunk, "games") {
        None => return None,
        Some(g) => g,
    };
    Some((wins, games))
}

} // verus!
