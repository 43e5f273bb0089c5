use vstd::prelude::*;

use crate::algos::kind::{default_kinds, kind_label, parsed_kind, InnerKind, InnerSpec, KindSpec, PlayerKind};
use crate::text::{concat, str_eq};

verus! {

/// A compiled regular expression of the `regex` crate, carried through opaquely.
#[verifier::external_type_specification]
#[verifier::external_body]
pub struct ExRegex(regex::Regex);

/// What the `regex` crate makes of compiling `pattern`: `None` when it compiles (valid syntax,
/// within the default size limit), else the message of its error.
pub uninterp spec fn regex_compile_error(pattern: Seq<char>) -> Option<Seq<char>>;

/// Whether `pattern` compiles.
pub open spec fn regex_compiles(pattern: Seq<char>) -> bool {
    regex_compile_error(pattern) is None
}

/// The message of the error for a pattern that does not compile.
pub open spec fn regex_error_text(pattern: Seq<char>) -> Seq<char> {
    regex_compile_error(pattern)->0
}

/// Whether the regular expression `pattern` matches somewhere in `text`.
pub uninterp spec fn regex_matches(pattern: Seq<char>, text: Seq<char>) -> bool;

/// A pattern compiled from its source text.
pub struct Pattern {
    source: String,
    re: regex::Regex,
}

impl Pattern {
    /// The text the pattern was compiled from.
    pub closed spec fn source(&self) -> Seq<char> {
        self.source@
    }
}

/// `regex::Regex::new`: `Ok` exactly when the pattern compiles, holding the compiled expression
/// beside its source; otherwise the error's message (both named by [`regex_compile_error`]).
#[verifier::external_body]
fn compile_pattern(pattern: &str) -> (r: Result<Pattern, String>)
    ensures
        r is Ok <==> regex_compile_error(pattern@) is None,
        r matches Ok(p) ==> p.source() == pattern@,
        r matches Err(e) ==> regex_compile_error(pattern@) == Some(e@),
{
    match regex::Regex::new(pattern) {
        Ok(re) => Ok(Pattern { source: pattern.to_string(), re }),
        Err(e) => Err(e.to_string()),
    }
}

/// `regex::Regex::is_match` on the compiled expression: whether the pattern the expression was
/// compiled from matches somewhere in `text` ([`regex_matches`]).
#[verifier::external_body]
fn pattern_matches(p: &Pattern, text: &str) -> (r: bool)
    ensures
        r == regex_matches(p.source(), text@),
{
    p.re.is_match(text)
}

/// Some pattern of `patterns` matches `id`.
pub open spec fn any_matches(patterns: Seq<Seq<char>>, id: Seq<char>) -> bool {
    exists|k: int| 0 <= k < patterns.len() && regex_matches(#[trigger] patterns[k], id)
}

/// The ids that some pattern matches, in order.
pub open spec fn matching_ids(ids: Seq<Seq<char>>, patterns: Seq<Seq<char>>) -> Seq<Seq<char>>
    decreases ids.len(),
{
    if ids.len() == 0 {
        Seq::empty()
    } else if any_matches(patterns, ids.last()) {
        matching_ids(ids.drop_last(), patterns).push(ids.last())
    } else {
        matching_ids(ids.drop_last(), patterns)
    }
}

/// The index of the first pattern that does not compile, if any.
pub open spec fn first_bad_pattern(patterns: Seq<Seq<char>>) -> Option<int> {
    if exists|k: int| 0 <= k < patterns.len() && !regex_compiles(#[trigger] patterns[k]) {
        Some(
            choose|k: int|
                0 <= k < patterns.len() && !regex_compiles(#[trigger] patterns[k]) && forall|j: int|
                    0 <= j < k ==> regex_compiles(#[trigger] patterns[j]),
        )
    } else {
        None
    }
}

/// The views of some strings.
pub open spec fn views(v: Seq<String>) -> Seq<Seq<char>> {
    v.map_values(|s: String| s@)
}

/// The ids selected by `patterns`: every id when there is no pattern, else those that some pattern
/// matches. A pattern that does not compile gives it and its error.
pub fn select_ids(ids: &Vec<String>, patterns: &Vec<String>) -> (r: Result<Vec<String>, (String, String)>)
    ensures
        patterns.len() == 0 ==> (r matches Ok(v) && views(v@) == views(ids@)),
        patterns.len() > 0 && first_bad_pattern(views(patterns@)) is None ==> (r matches Ok(v) && views(v@)
            == matching_ids(views(ids@), views(patterns@))),
        patterns.len() > 0 && first_bad_pattern(views(patterns@)) is Some ==> (r matches Err(e) && e.0@
            == patterns@[first_bad_pattern(views(patterns@))->0]@ && e.1@ == regex_error_text(
            patterns@[first_bad_pattern(views(patterns@))->0]@,
        )),
{
    let ghost ps = views(patterns@);
    let ghost is = views(ids@);
    let mut compiled: Vec<Pattern> = Vec::new();
    let mut k: usize = 0;
    while k < patterns.len()
        invariant
            ps == views(patterns@),
            k <= patterns.len(),
            compiled@.len() == k,
            forall|j: int| 0 <= j < k ==> regex_compiles(#[trigger] ps[j]),
            forall|j: int| 0 <= j < k ==> (#[trigger] compiled@[j]).source() == ps[j],
        decreases patterns.len() - k,
    {
        match compile_pattern(patterns[k].as_str()) {
            Ok(p) => compiled.push(p),
            Err(e) => {
                proof {
                    assert(ps[k as int] == patterns@[k as int]@);
                    let w = choose|w: int|
                        0 <= w < ps.len() && !regex_compiles(#[trigger] ps[w]) && forall|j: int|
                            0 <= j < w ==> regex_compiles(#[trigger] ps[j]);
                    assert(0 <= k < ps.len() && !regex_compiles(ps[k as int]) && forall|j: int|
                        0 <= j < k ==> regex_compiles(#[trigger] ps[j]));
                    if w < k {
                        assert(regex_compiles(ps[w]));
                    }
                    if w > k {
                        assert(regex_compiles(ps[k as int]));
                    }
                }
                return Err((patterns[k].clone(), e));
            },
        }
        k += 1;
    }
    proof {
        assert(first_bad_pattern(ps) is None);
    }
    let mut out: Vec<String> = Vec::new();
    let mut i: usize = 0;
    while i < ids.len()
        invariant
            ps == views(patterns@),
            is == views(ids@),
            compiled@.len() == patterns.len(),
            forall|j: int| 0 <= j < compiled@.len() ==> (#[trigger] compiled@[j]).source() == ps[j],
            i <= ids.len(),
            patterns.len() == 0 ==> views(out@) == is.take(i as int),
            patterns.len() > 0 ==> views(out@) == matching_ids(is.take(i as int), ps),
        decreases ids.len() - i,
    {
        proof {
            assert(is.take(i + 1).drop_last() =~= is.take(i as int));
            assert(is.take(i + 1).last() == ids@[i as int]@);
        }
        let keep = if patterns.len() == 0 {
            true
        } else {
            let mut hit = false;
            let mut j: usize = 0;
            while j < compiled.len()
                invariant
                    ps == views(patterns@),
                    compiled@.len() == ps.len(),
                    forall|q: int| 0 <= q < compiled@.len() ==> (#[trigger] compiled@[q]).source() == ps[q],
                    j <= compiled.len(),
                    i < ids.len(),
                    hit == exists|q: int| 0 <= q < j && regex_matches(#[trigger] ps[q], ids@[i as int]@),
                decreases compiled.len() - j,
            {
                if pattern_matches(&compiled[j], ids[i].as_str()) {
                    hit = true;
                }
                j += 1;
            }
            hit
        };
        let ghost before = out@;
        if keep {
            out.push(ids[i].clone());
        }
        proof {
            if keep {
                assert(views(out@) =~= views(before).push(ids@[i as int]@));
            } else {
                assert(views(out@) =~= views(before));
            }
            if patterns.len() == 0 {
                assert(views(out@) =~= is.take(i + 1));
            }
        }
        i += 1;
    }
    proof {
        assert(is.take(ids.len() as int) =~= is);
    }
    Ok(out)
}

/// `acc` followed by the entries of `news` that are not yet in it, each checked against what came
/// before (so no entry is added twice).
pub open spec fn append_new(acc: Seq<Seq<char>>, news: Seq<Seq<char>>) -> Seq<Seq<char>>
    decreases news.len(),
{
    if news.len() == 0 {
        acc
    } else {
        let before = append_new(acc, news.drop_last());
        if before.contains(news.last()) {
            before
        } else {
            before.push(news.last())
        }
    }
}

/// The ids of the default players ([`PlayerKind::defaults`]).
pub open spec fn default_ids() -> Seq<Seq<char>> {
    seq![
        "random"@,
        "greedy_for_number"@,
        "greedy_for_score"@,
        "sadist"@,
        "rollout"@,
        "onnx:"@,
        "rollout|v50"@,
        "rollout|v200"@,
        "rollout|v800"@,
    ]
}

/// The ids of the models with file stems `stems`: `onnx:<stem>`.
pub open spec fn model_ids(stems: Seq<Seq<char>>) -> Seq<Seq<char>> {
    stems.map_values(|s: Seq<char>| "onnx:"@ + s)
}

/// Whether `v` holds a string equal to `s`.
pub(crate) fn holds(v: &Vec<String>, s: &str) -> (r: bool)
    ensures
        r == views(v@).contains(s@),
{
    let mut i: usize = 0;
    while i < v.len()
        invariant
            i <= v.len(),
            forall|k: int| 0 <= k < i ==> v@[k]@ != s@,
        decreases v.len() - i,
    {
        if str_eq(v[i].as_str(), s) {
            proof {
                assert(views(v@)[i as int] == s@);
            }
            return true;
        }
        i += 1;
    }
    proof {
        if views(v@).contains(s@) {
            let k = choose|k: int| 0 <= k < views(v@).len() && views(v@)[k] == s@;
            assert(v@[k]@ == s@);
        }
    }
    false
}

/// Appends to `acc` the entries of `news` it does not hold yet ([`append_new`]).
fn push_new(acc: &mut Vec<String>, news: &Vec<String>)
    ensures
        views(final(acc)@) == append_new(views(old(acc)@), views(news@)),
{
    let ghost start = views(acc@);
    let ghost ns = views(news@);
    let mut i: usize = 0;
    while i < news.len()
        invariant
            ns == views(news@),
            i <= news.len(),
            views(acc@) == append_new(start, ns.take(i as int)),
        decreases news.len() - i,
    {
        proof {
            assert(ns.take(i + 1).drop_last() =~= ns.take(i as int));
            assert(ns.take(i + 1).last() == news@[i as int]@);
        }
        if !holds(acc, news[i].as_str()) {
            let ghost before = acc@;
            acc.push(news[i].clone());
            proof {
                assert(views(acc@) =~= views(before).push(news@[i as int]@));
            }
        }
        i += 1;
    }
    proof {
        assert(ns.take(news.len() as int) =~= ns);
    }
}

/// The ids of the default players.
pub(crate) fn default_id_list() -> (r: Vec<String>)
    ensures
        views(r@) == default_ids(),
{
    let defaults = PlayerKind::defaults();
    let mut out: Vec<String> = Vec::new();
    let mut i: usize = 0;
    while i < defaults.len()
        invariant
            defaults@.len() == 9,
            forall|j: int| 0 <= j < 9 ==> (#[trigger] defaults@[j])@ == default_kinds()[j],
            i <= 9,
            views(out@) == default_ids().take(i as int),
        decreases 9 - i,
    {
        let id = defaults[i].id();
        proof {
            assert(defaults@[i as int]@ == default_kinds()[i as int]);
            lemma_default_label(defaults@[i as int]@, i as int);
        }
        let ghost before = out@;
        out.push(id);
        proof {
            assert(views(out@) =~= views(before).push(id@));
            assert(default_ids().take(i + 1) =~= default_ids().take(i as int).push(default_ids()[i as int]));
        }
        i += 1;
    }
    proof {
        assert(default_ids().take(9) =~= default_ids());
    }
    out
}

/// The label of the `i`-th default player.
proof fn lemma_default_label(k: KindSpec, i: int)
    requires
        0 <= i < 9,
        k == default_kinds()[i],
    ensures
        kind_label(k) == default_ids()[i],
{
    reveal_strlit("rollout");
    reveal_strlit("|v");
    reveal_strlit("rollout|v50");
    reveal_strlit("rollout|v200");
    reveal_strlit("rollout|v800");
    if i == 5 {
        reveal_strlit("onnx:");
        assert(kind_label(k) =~= "onnx:"@);
    } else if i == 6 {
        assert(crate::text::decimal(50) =~= seq!['5', '0']) by {
            reveal_with_fuel(crate::text::decimal, 3);
        }
        assert(kind_label(k) =~= "rollout|v50"@);
    } else if i == 7 {
        assert(crate::text::decimal(200) =~= seq!['2', '0', '0']) by {
            reveal_with_fuel(crate::text::decimal, 4);
        }
        assert(kind_label(k) =~= "rollout|v200"@);
    } else if i == 8 {
        assert(crate::text::decimal(800) =~= seq!['8', '0', '0']) by {
            reveal_with_fuel(crate::text::decimal, 4);
        }
        assert(kind_label(k) =~= "rollout|v800"@);
    } else {
        assert(kind_label(k) =~= default_ids()[i]);
    }
}

/// The ids `<stem>` ↦ `onnx:<stem>`.
fn model_id_list(stems: &Vec<String>) -> (r: Vec<String>)
    ensures
        views(r@) == model_ids(views(stems@)),
{
    let mut out: Vec<String> = Vec::new();
    let mut i: usize = 0;
    while i < stems.len()
        invariant
            i <= stems.len(),
            views(out@) == model_ids(views(stems@)).take(i as int),
        decreases stems.len() - i,
    {
        let id = concat("onnx:", stems[i].as_str());
        let ghost before = out@;
        out.push(id);
        proof {
            assert(views(stems@)[i as int] == stems@[i as int]@);
            assert(model_ids(views(stems@))[i as int] == "onnx:"@ + stems@[i as int]@);
            assert(views(out@) =~= views(before).push(id@));
            assert(views(out@) =~= model_ids(views(stems@)).take(i + 1));
        }
        i += 1;
    }
    proof {
        assert(model_ids(views(stems@)).take(stems.len() as int) =~= model_ids(views(stems@)));
    }
    out
}

/// Every player id the arena knows: those with a stored rating (`rated`), then the defaults not
/// among them, then the models found (file stems `stems`) not among those.
pub fn known_ids(rated: &Vec<String>, stems: &Vec<String>) -> (r: Vec<String>)
    ensures
        views(r@) == append_new(append_new(views(rated@), default_ids()), model_ids(views(stems@))),
{
    let mut ids = rated.clone();
    proof {
        assert(views(ids@) =~= views(rated@));
    }
    let defaults = default_id_list();
    push_new(&mut ids, &defaults);
    let models = model_id_list(stems);
    push_new(&mut ids, &models);
    ids
}

/// The player an id stands for in a tournament: its parsed spec, unless it does not parse, is a
/// manual player, or is a model whose file is missing (not among `stems`).
pub open spec fn arena_kind(id: Seq<char>, stems: Seq<Seq<char>>) -> Option<KindSpec> {
    match parsed_kind(id) {
        Ok(k) => match k.inner {
            InnerSpec::Manual(_) => None,
            InnerSpec::Onnx(stem) => if stems.contains(stem) {
                Some(k)
            } else {
                None
            },
            _ => Some(k),
        },
        Err(_) => None,
    }
}

/// The players of the ids, skipping those [`arena_kind`] refuses, in order.
pub open spec fn arena_kinds_of(ids: Seq<Seq<char>>, stems: Seq<Seq<char>>) -> Seq<KindSpec>
    decreases ids.len(),
{
    if ids.len() == 0 {
        Seq::empty()
    } else {
        let before = arena_kinds_of(ids.drop_last(), stems);
        match arena_kind(ids.last(), stems) {
            Some(k) => before.push(k),
            None => before,
        }
    }
}

/// The views of some players.
pub open spec fn kind_views(v: Seq<PlayerKind>) -> Seq<KindSpec> {
    v.map_values(|k: PlayerKind| k@)
}

/// The tournament players of the ids ([`arena_kinds_of`]); `stems` are the models whose file
/// exists.
pub fn arena_kinds(ids: &Vec<String>, stems: &Vec<String>) -> (r: Vec<PlayerKind>)
    ensures
        kind_views(r@) == arena_kinds_of(views(ids@), views(stems@)),
{
    let ghost is = views(ids@);
    let mut out: Vec<PlayerKind> = Vec::new();
    let mut i: usize = 0;
    while i < ids.len()
        invariant
            is == views(ids@),
            i <= ids.len(),
            kind_views(out@) == arena_kinds_of(is.take(i as int), views(stems@)),
        decreases ids.len() - i,
    {
        proof {
            assert(is.take(i + 1).drop_last() =~= is.take(i as int));
            assert(is.take(i + 1).last() == ids@[i as int]@);
        }
        let ghost before = out@;
        match PlayerKind::parse(ids[i].as_str()) {
            Ok(kind) => {
                let keep = match &kind.inner {
                    InnerKind::ManualPlayer(_) => false,
                    InnerKind::OnnxPlayer(p) => holds(stems, p.stem.as_str()),
                    _ => true,
                };
                if keep {
                    out.push(kind);
                    proof {
                        assert(kind_views(out@) =~= kind_views(before).push(kind@));
                    }
                }
            },
            Err(_) => {},
        }
        i += 1;
    }
    proof {
        assert(is.take(ids.len() as int) =~= is);
    }
    out
}

/// Why players could not be registered.
#[derive(Clone, Debug, PartialEq, Eq)]
pub enum RegisterError {
    /// This spec names no player.
    UnknownSpec(String),
    /// Manual players take part through the terminal or graphical game only.
    Manual,
}

/// The explicit players of a registration: each spec parsed; ONNX models take the size limits
/// (none when `sizes` is empty) and the hide limit; other players ignore them. Gives the ids and
/// the specs whose limits were ignored, or the first failure.
pub open spec fn explicit_ids(specs: Seq<Seq<char>>, sizes: Seq<u8>, hide: Option<bool>) -> Result<
    (Seq<Seq<char>>, Seq<Seq<char>>),
    RegisterSpecError,
>
    decreases specs.len(),
{
    if specs.len() == 0 {
        Ok((Seq::empty(), Seq::empty()))
    } else {
        match explicit_ids(specs.drop_last(), sizes, hide) {
            Err(e) => Err(e),
            Ok((ids, noted)) => {
                let spec = specs.last();
                match parsed_kind(spec) {
                    Err(_) => Err(RegisterSpecError::UnknownSpec(spec)),
                    Ok(k) => match k.inner {
                        InnerSpec::Manual(_) => Err(RegisterSpecError::Manual),
                        InnerSpec::Onnx(_) => Ok(
                            (
                                ids.push(
                                    kind_label(
                                        KindSpec {
                                            sizes: if sizes.len() == 0 {
                                                None
                                            } else {
                                                Some(sizes)
                                            },
                                            hide: hide,
                                            ..k
                                        },
                                    ),
                                ),
                                noted,
                            ),
                        ),
                        _ => Ok(
                            (
                                ids.push(kind_label(k)),
                                if sizes.len() > 0 || hide is Some {
                                    noted.push(spec)
                                } else {
                                    noted
                                },
                            ),
                        ),
                    },
                }
            },
        }
    }
}

/// [`RegisterError`] as the contracts see it.
pub enum RegisterSpecError {
    UnknownSpec(Seq<char>),
    Manual,
}

/// The view of a registration error.
pub open spec fn register_error_view(e: RegisterError) -> RegisterSpecError {
    match e {
        RegisterError::UnknownSpec(s) => RegisterSpecError::UnknownSpec(s@),
        RegisterError::Manual => RegisterSpecError::Manual,
    }
}

/// A registration: the players of `specs` (see [`explicit_ids`]), then the defaults and the models
/// found (file stems `stems`) not among them. Gives the ids not yet in `rated`, in order and each
/// once, and the specs whose limits were ignored.
pub fn registration(specs: &Vec<String>, sizes: &Vec<u8>, hide: Option<bool>, stems: &Vec<String>, rated: &Vec<String>) -> (r:
    Result<(Vec<String>, Vec<String>), RegisterError>)
    ensures
        match explicit_ids(views(specs@), sizes@, hide) {
            Err(e) => r matches Err(f) && register_error_view(f) == e,
            Ok((ids, noted)) => r matches Ok((fresh, n)) && views(n@) == noted && views(fresh@) == append_new(
                views(rated@),
                append_new(append_new(ids, default_ids()), model_ids(views(stems@))),
            ).skip(rated@.len() as int),
        },
{
    let ghost ss = views(specs@);
    let mut explicit: Vec<String> = Vec::new();
    let mut noted: Vec<String> = Vec::new();
    proof {
        assert(ss.take(0) =~= Seq::<Seq<char>>::empty());
        assert(views(explicit@) =~= Seq::<Seq<char>>::empty());
        assert(views(noted@) =~= Seq::<Seq<char>>::empty());
    }
    let mut i: usize = 0;
    while i < specs.len()
        invariant
            ss == views(specs@),
            i <= specs.len(),
            explicit_ids(ss.take(i as int), sizes@, hide) == Ok::<
                (Seq<Seq<char>>, Seq<Seq<char>>),
                RegisterSpecError,
            >((views(explicit@), views(noted@))),
        decreases specs.len() - i,
    {
        proof {
            assert(ss.take(i + 1).drop_last() =~= ss.take(i as int));
            assert(ss.take(i + 1).last() == specs@[i as int]@);
        }
        let mut kind = match PlayerKind::parse(specs[i].as_str()) {
            Ok(k) => k,
            Err(_) => {
                proof {
                    lemma_explicit_error_stays(ss, sizes@, hide, i + 1);
                }
                return Err(RegisterError::UnknownSpec(specs[i].clone()));
            },
        };
        if kind.is_manual() {
            proof {
                lemma_explicit_error_stays(ss, sizes@, hide, i + 1);
            }
            return Err(RegisterError::Manual);
        }
        let ghost k0 = kind@;
        if kind.is_onnx() {
            kind.constrain_sizes = if sizes.len() == 0 {
                None
            } else {
                Some(sizes.clone())
            };
            kind.constrain_hide = hide;
            proof {
                assert(kind@ == (KindSpec {
                    sizes: if sizes@.len() == 0 {
                        None
                    } else {
                        Some(sizes@)
                    },
                    hide: hide,
                    ..k0
                }));
            }
        } else if sizes.len() > 0 || hide.is_some() {
            let ghost before = noted@;
            noted.push(specs[i].clone());
            proof {
                assert(views(noted@) =~= views(before).push(specs@[i as int]@));
            }
        }
        let ghost before = explicit@;
        explicit.push(kind.id());
        proof {
            assert(views(explicit@) =~= views(before).push(kind_label(kind@)));
        }
        i += 1;
    }
    proof {
        assert(ss.take(specs.len() as int) =~= ss);
    }
    let defaults = default_id_list();
    push_new(&mut explicit, &defaults);
    let models = model_id_list(stems);
    push_new(&mut explicit, &models);
    let mut all = rated.clone();
    proof {
        assert(views(all@) =~= views(rated@));
    }
    push_new(&mut all, &explicit);
    proof {
        lemma_append_new_prefix(views(rated@), views(explicit@));
    }
    let mut fresh: Vec<String> = Vec::new();
    let mut k: usize = rated.len();
    while k < all.len()
        invariant
            rated@.len() <= k <= all.len(),
            views(fresh@) == views(all@).subrange(rated@.len() as int, k as int),
        decreases all.len() - k,
    {
        let ghost before = fresh@;
        fresh.push(all[k].clone());
        proof {
            assert(views(all@)[k as int] == all@[k as int]@);
            assert(views(fresh@) =~= views(before).push(all@[k as int]@));
            assert(views(fresh@) =~= views(all@).subrange(rated@.len() as int, k + 1));
        }
        k += 1;
    }
    proof {
        assert(views(all@).subrange(rated@.len() as int, all@.len() as int) =~= views(all@).skip(rated@.len() as int));
    }
    Ok((fresh, noted))
}

/// [`append_new`] only adds to the end.
proof fn lemma_append_new_prefix(acc: Seq<Seq<char>>, news: Seq<Seq<char>>)
    ensures
        append_new(acc, news).len() >= acc.len(),
        append_new(acc, news).take(acc.len() as int) == acc,
    decreases news.len(),
{
    if news.len() > 0 {
        lemma_append_new_prefix(acc, news.drop_last());
        let before = append_new(acc, news.drop_last());
        if !before.contains(news.last()) {
            assert(before.push(news.last()).take(acc.len() as int) =~= before.take(acc.len() as int));
        }
    }
}

/// Once a prefix of the specs fails, every longer prefix fails the same way.
proof fn lemma_explicit_error_stays(specs: Seq<Seq<char>>, sizes: Seq<u8>, hide: Option<bool>, k: int)
    requires
        0 <= k <= specs.len(),
        explicit_ids(specs.take(k), sizes, hide) is Err,
    ensures
        explicit_ids(specs, sizes, hide) == explicit_ids(specs.take(k), sizes, hide),
    decreases specs.len() - k,
{
    if k < specs.len() {
        assert(specs.take(k + 1).drop_last() =~= specs.take(k));
        lemma_explicit_error_stays(specs, sizes, hide, k + 1);
    } else {
        assert(specs.take(k) =~= specs);
    }
}

/// Resetting or removing `count` players asks for confirmation when there are ten or more and
/// the user has not answered yes in advance.
pub fn needs_confirmation(count: usize, auto_yes: bool) -> (r: bool)
    ensures
        r == (count >= 10 && !auto_yes),
{
    count >= 10 && !auto_yes
}

} // verus!
