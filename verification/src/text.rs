use vstd::prelude::*;
use vstd::string::*;

verus! {

/// `c` is an ASCII decimal digit.
pub open spec fn is_digit(c: char) -> bool {
    '0' <= c <= '9'
}

/// Value of a sequence of ASCII decimal digits.
pub open spec fn digits_value(s: Seq<char>) -> int
    decreases s.len(),
{
    if s.len() == 0 {
        0
    } else {
        digits_value(s.drop_last()) * 10 + (s.last() as int - '0' as int)
    }
}

/// `s` spells an unsigned decimal number: an optional `+`, then at least one ASCII digit.
pub open spec fn is_unsigned_decimal(s: Seq<char>) -> bool {
    let body = if s.len() > 0 && s[0] == '+' {
        s.skip(1)
    } else {
        s
    };
    body.len() > 0 && forall|i: int| 0 <= i < body.len() ==> is_digit(#[trigger] body[i])
}

/// The value spelled by an unsigned decimal number (see [`is_unsigned_decimal`]).
pub open spec fn unsigned_decimal_value(s: Seq<char>) -> int {
    if s.len() > 0 && s[0] == '+' {
        digits_value(s.skip(1))
    } else {
        digits_value(s)
    }
}

/// The decimal digits of `n`, most significant first, without leading zeros (`"0"` for zero).
pub open spec fn decimal(n: nat) -> Seq<char>
    decreases n,
{
    if n < 10 {
        seq![(('0' as int) + n) as char]
    } else {
        decimal(n / 10).push((('0' as int) + n % 10) as char)
    }
}

/// A number has at least one digit.
pub proof fn lemma_decimal_nonempty(n: nat)
    ensures
        decimal(n).len() > 0,
    decreases n,
{
    if n >= 10 {
        lemma_decimal_nonempty(n / 10);
    }
}

/// The `u8` that `s` spells as an unsigned decimal number, if it spells one that fits.
pub open spec fn parsed_u8(s: Seq<char>) -> Option<u8> {
    if is_unsigned_decimal(s) && unsigned_decimal_value(s) <= u8::MAX {
        Some(unsigned_decimal_value(s) as u8)
    } else {
        None
    }
}

/// The `u32` that `s` spells as an unsigned decimal number, if it spells one that fits.
pub open spec fn parsed_u32(s: Seq<char>) -> Option<u32> {
    if is_unsigned_decimal(s) && unsigned_decimal_value(s) <= u32::MAX {
        Some(unsigned_decimal_value(s) as u32)
    } else {
        None
    }
}

/// Lexicographic order on character sequences: the first differing character decides, and a
/// proper prefix comes first.
pub open spec fn chars_lt(a: Seq<char>, b: Seq<char>) -> bool
    decreases a.len(),
{
    if a.len() == 0 {
        b.len() > 0
    } else if b.len() == 0 {
        false
    } else if a[0] != b[0] {
        (a[0] as u32) < (b[0] as u32)
    } else {
        chars_lt(a.drop_first(), b.drop_first())
    }
}

/// `needle` occurs in `hay` as a run of consecutive characters.
pub open spec fn occurs_in(needle: Seq<char>, hay: Seq<char>) -> bool {
    exists|i: int| 0 <= i && i + needle.len() <= hay.len() && #[trigger] hay.subrange(i, i + needle.len()) == needle
}

/// Whether `needle` occurs in `hay` ([`occurs_in`]).
pub fn contains_text(hay: &str, needle: &str) -> (r: bool)
    ensures
        r == occurs_in(needle@, hay@),
{
    let h = hay.unicode_len();
    let n = needle.unicode_len();
    if n > h {
        return false;
    }
    let mut i: usize = 0;
    while i <= h - n
        invariant
            h == hay@.len(),
            n == needle@.len(),
            n <= h,
            i <= h - n + 1,
            forall|k: int| 0 <= k < i ==> #[trigger] hay@.subrange(k, k + n) != needle@,
        decreases h - n + 1 - i,
    {
        let mut j: usize = 0;
        let mut same = true;
        while j < n
            invariant
                h == hay@.len(),
                n == needle@.len(),
                i + n <= h,
                j <= n,
                same == (forall|q: int| 0 <= q < j ==> hay@[i + q] == needle@[q]),
            decreases n - j,
        {
            if hay.get_char(i + j) != needle.get_char(j) {
                same = false;
            }
            j += 1;
        }
        if same {
            proof {
                assert(hay@.subrange(i as int, i + n) =~= needle@);
            }
            return true;
        }
        proof {
            let q = choose|q: int| 0 <= q < n && hay@[i + q] != needle@[q];
            assert(hay@.subrange(i as int, i + n)[q] != needle@[q]);
        }
        i += 1;
    }
    proof {
        if occurs_in(needle@, hay@) {
            let k = choose|k: int| 0 <= k && k + needle@.len() <= hay@.len() && #[trigger] hay@.subrange(k, k + needle@.len()) == needle@;
            assert(hay@.subrange(k, k + n) != needle@);
        }
    }
    false
}

/// `<` on string slices, which compares the UTF-8 bytes lexicographically; that orders strings as
/// their characters' code points do, so the result is [`chars_lt`].
#[verifier::external_body]
pub(crate) fn str_less(a: &str, b: &str) -> (r: bool)
    ensures
        r == chars_lt(a@, b@),
{
    a < b
}

/// `str::strip_prefix`: `Some(rest)` exactly when `s` starts with `prefix`, where `rest` is what
/// follows the prefix.
#[verifier::external_body]
pub(crate) fn strip_prefix<'a>(s: &'a str, prefix: &str) -> (r: Option<&'a str>)
    ensures
        r is Some <==> prefix@.is_prefix_of(s@),
        r matches Some(rest) ==> rest@ == s@.skip(prefix@.len() as int),
{
    s.strip_prefix(prefix)
}

/// `str::strip_suffix`: `Some(rest)` exactly when `s` ends with `suffix`, where `rest` is what
/// comes before the suffix.
#[verifier::external_body]
pub(crate) fn strip_suffix<'a>(s: &'a str, suffix: &str) -> (r: Option<&'a str>)
    ensures
        r is Some <==> suffix@.is_suffix_of(s@),
        r matches Some(rest) ==> rest@ == s@.take(s@.len() - suffix@.len()),
{
    s.strip_suffix(suffix)
}

/// `==` on string slices: equal exactly when the character sequences are equal.
#[verifier::external_body]
pub(crate) fn str_eq(a: &str, b: &str) -> (r: bool)
    ensures
        r == (a@ == b@),
{
    a == b
}

/// The Unicode lowercase of a string, as `str::to_lowercase` computes it.
pub uninterp spec fn lowercase(s: Seq<char>) -> Seq<char>;

/// Every character of `s` is ASCII.
pub open spec fn all_ascii(s: Seq<char>) -> bool {
    forall|i: int| 0 <= i < s.len() ==> (#[trigger] s[i] as u32) < 128
}

/// `c` with an ASCII capital letter made small, any other character unchanged.
pub open spec fn ascii_to_lower(c: char) -> char {
    if 'A' <= c <= 'Z' {
        ((c as u32) + 32) as char
    } else {
        c
    }
}

/// `str::to_lowercase`. Claimed: the result is the lowercase mapping of the input, named
/// [`lowercase`]; for an all-ASCII input, each capital letter becomes small and every other
/// character stays. Unicode case mapping beyond ASCII is left unsaid.
#[verifier::external_body]
pub(crate) fn to_lowercase(s: &str) -> (r: String)
    ensures
        r@ == lowercase(s@),
        all_ascii(s@) ==> r@ == s@.map_values(|c: char| ascii_to_lower(c)),
{
    s.to_lowercase()
}

/// The message of the error that `str::parse::<u8>` gives for `s`.
pub uninterp spec fn u8_error_text(s: Seq<char>) -> Seq<char>;

/// The message of the error that `str::parse::<u32>` gives for `s`.
pub uninterp spec fn u32_error_text(s: Seq<char>) -> Seq<char>;

/// `str::parse::<u8>`, its error turned into its message: `Ok(v)` exactly when `s` is an unsigned
/// decimal number (optional `+`, then ASCII digits) whose value `v` fits in a `u8`. The error's
/// message is named [`u8_error_text`]; its wording is left unsaid.
#[verifier::external_body]
pub(crate) fn parse_u8_result(s: &str) -> (r: Result<u8, String>)
    ensures
        r is Ok <==> parsed_u8(s@) is Some,
        r matches Ok(v) ==> parsed_u8(s@) == Some(v),
        r matches Err(e) ==> e@ == u8_error_text(s@),
{
    match s.parse::<u8>() {
        Ok(v) => Ok(v),
        Err(e) => Err(e.to_string()),
    }
}

/// `str::parse::<u32>`, its error turned into its message: `Ok(v)` exactly when `s` is an unsigned
/// decimal number (optional `+`, then ASCII digits) whose value `v` fits in a `u32`. The error's
/// message is named [`u32_error_text`]; its wording is left unsaid.
#[verifier::external_body]
pub(crate) fn parse_u32_result(s: &str) -> (r: Result<u32, String>)
    ensures
        r is Ok <==> parsed_u32(s@) is Some,
        r matches Ok(v) ==> parsed_u32(s@) == Some(v),
        r matches Err(e) ==> e@ == u32_error_text(s@),
{
    match s.parse::<u32>() {
        Ok(v) => Ok(v),
        Err(e) => Err(e.to_string()),
    }
}

/// The `u8` that `s` spells, if any (see [`parsed_u8`]).
pub fn parse_u8(s: &str) -> (r: Option<u8>)
    ensures
        r == parsed_u8(s@),
{
    match parse_u8_result(s) {
        Ok(v) => Some(v),
        Err(_) => None,
    }
}

/// The `u32` that `s` spells, if any (see [`parsed_u32`]).
pub fn parse_u32(s: &str) -> (r: Option<u32>)
    ensures
        r == parsed_u32(s@),
{
    match parse_u32_result(s) {
        Ok(v) => Some(v),
        Err(_) => None,
    }
}

/// `s` cut at every `c`: the pieces between the separators, in order (one piece when `c` does not
/// occur).
pub open spec fn split_on(s: Seq<char>, c: char) -> Seq<Seq<char>>
    decreases s.len(),
{
    if s.len() == 0 {
        seq![Seq::empty()]
    } else if s.last() == c {
        split_on(s.drop_last(), c).push(Seq::empty())
    } else {
        let p = split_on(s.drop_last(), c);
        p.update(p.len() - 1, p.last().push(s.last()))
    }
}

/// There is always at least one piece.
pub proof fn lemma_split_on_nonempty(s: Seq<char>, c: char)
    ensures
        split_on(s, c).len() >= 1,
    decreases s.len(),
{
    if s.len() > 0 {
        lemma_split_on_nonempty(s.drop_last(), c);
    }
}

/// Without a separator there is one piece: the whole text.
pub proof fn lemma_split_on_none(s: Seq<char>, c: char)
    requires
        !s.contains(c),
    ensures
        split_on(s, c) == seq![s],
    decreases s.len(),
{
    if s.len() > 0 {
        assert(!s.drop_last().contains(c)) by {
            if s.drop_last().contains(c) {
                let k = choose|k: int| 0 <= k < s.drop_last().len() && s.drop_last()[k] == c;
                assert(s[k] == c);
            }
        }
        lemma_split_on_none(s.drop_last(), c);
        assert(s.last() != c) by {
            assert(s[s.len() - 1] == s.last());
        }
        assert(s.drop_last().push(s.last()) =~= s);
        assert(seq![s.drop_last()].update(0, s.drop_last().push(s.last())) =~= seq![s]);
        assert(split_on(s, c) == seq![s.drop_last()].update(0, s.drop_last().push(s.last())));
    } else {
        assert(s =~= Seq::<char>::empty());
    }
}

/// Text joined by a separator splits into the pieces of each side.
pub proof fn lemma_split_on_join(x: Seq<char>, y: Seq<char>, c: char)
    ensures
        split_on(x + seq![c] + y, c) == split_on(x, c) + split_on(y, c),
    decreases y.len(),
{
    let j = x + seq![c] + y;
    if y.len() == 0 {
        assert(j =~= (x + seq![c]));
        assert((x + seq![c]).drop_last() =~= x);
        assert(split_on(y, c) == seq![Seq::<char>::empty()]);
        assert(split_on(x, c).push(Seq::empty()) =~= split_on(x, c) + seq![Seq::<char>::empty()]);
    } else {
        let y0 = y.drop_last();
        lemma_split_on_join(x, y0, c);
        lemma_split_on_nonempty(y0, c);
        lemma_split_on_nonempty(x, c);
        assert(j.drop_last() =~= x + seq![c] + y0);
        assert(j.last() == y.last());
        let a = split_on(x, c);
        let b = split_on(y0, c);
        if y.last() == c {
            assert((a + b).push(Seq::empty()) =~= a + b.push(Seq::empty()));
        } else {
            let ab = a + b;
            assert(ab.update(ab.len() - 1, ab.last().push(y.last())) =~= a + b.update(b.len() - 1, b.last().push(y.last())));
        }
    }
}

/// The decimal digits of a number are ASCII digits.
pub proof fn lemma_decimal_digits(n: nat)
    ensures
        decimal(n).len() > 0,
        forall|i: int| 0 <= i < decimal(n).len() ==> is_digit(#[trigger] decimal(n)[i]),
    decreases n,
{
    if n >= 10 {
        lemma_decimal_digits(n / 10);
    }
}

/// The decimal digits of `n` spell `n`.
pub proof fn lemma_decimal_value(n: nat)
    ensures
        digits_value(decimal(n)) == n,
        is_unsigned_decimal(decimal(n)),
        unsigned_decimal_value(decimal(n)) == n,
    decreases n,
{
    lemma_decimal_digits(n);
    let d = (('0' as int) + n % 10) as char;
    assert(d as int == ('0' as int) + n % 10);
    if n >= 10 {
        lemma_decimal_value(n / 10);
        assert(decimal(n).drop_last() =~= decimal(n / 10));
        assert(decimal(n).last() == d);
        assert(digits_value(decimal(n)) == digits_value(decimal(n / 10)) * 10 + (d as int - '0' as int));
    } else {
        assert(decimal(n).drop_last() =~= Seq::<char>::empty());
        assert(decimal(n).last() == d);
        assert(digits_value(decimal(n)) == digits_value(Seq::<char>::empty()) * 10 + (d as int - '0' as int));
    }
    assert(decimal(n)[0] != '+');
}

/// `str::split` on a character, as a vector of the pieces.
pub fn split_char(s: &str, c: char) -> (r: Vec<&str>)
    ensures
        r@.len() == split_on(s@, c).len(),
        forall|i: int| 0 <= i < r@.len() ==> (#[trigger] r@[i])@ == split_on(s@, c)[i],
{
    let len = s.unicode_len();
    let mut parts: Vec<&str> = Vec::new();
    let mut start: usize = 0;
    let mut i: usize = 0;
    while i < len
        invariant
            len == s@.len(),
            start <= i <= len,
            parts@.len() + 1 == split_on(s@.take(i as int), c).len(),
            forall|k: int| 0 <= k < parts@.len() ==> (#[trigger] parts@[k])@ == split_on(s@.take(i as int), c)[k],
            split_on(s@.take(i as int), c).last() == s@.subrange(start as int, i as int),
        decreases len - i,
    {
        proof {
            lemma_split_on_nonempty(s@.take(i as int), c);
            assert(s@.take(i + 1).drop_last() =~= s@.take(i as int));
        }
        if s.get_char(i) == c {
            parts.push(s.substring_char(start, i));
            start = i + 1;
            proof {
                assert(s@.subrange(start as int, i + 1) =~= Seq::<char>::empty());
            }
        } else {
            proof {
                assert(s@.subrange(start as int, i + 1) =~= s@.subrange(start as int, i as int).push(s@[i as int]));
            }
        }
        i += 1;
    }
    proof {
        assert(s@.take(len as int) =~= s@);
    }
    parts.push(s.substring_char(start, len));
    parts
}

/// `format!("{prefix}{n}")`: the prefix followed by the decimal digits of `n`.
#[verifier::external_body]
pub(crate) fn concat_number(prefix: &str, n: u64) -> (r: String)
    ensures
        r@ == prefix@ + decimal(n as nat),
{
    format!("{prefix}{n}")
}

/// `format!("{a}{b}")`: the two strings one after the other.
#[verifier::external_body]
pub(crate) fn concat(a: &str, b: &str) -> (r: String)
    ensures
        r@ == a@ + b@,
{
    format!("{a}{b}")
}

/// `format!("{a}{c}{b}")`: `a`, the character `c`, then `b`.
#[verifier::external_body]
pub(crate) fn concat_char(a: &str, c: char, b: &str) -> (r: String)
    ensures
        r@ == a@ + seq![c] + b@,
{
    format!("{a}{c}{b}")
}

} // verus!
