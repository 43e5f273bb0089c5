use vstd::prelude::*;

use crate::algos::greedy_max::GreedyForNumber;
use crate::algos::greedy_min::GreedyForScore;
use crate::algos::random::{Random, RandomPlayer};
use crate::algos::rollout::Rollout;
use crate::algos::sadist::Sadist;
use crate::algos::{OnnxPlayer, SearchKind};
use crate::game::{GameState, Move};
use crate::player::{manual_name_of, Bot, ManualPlayer};
use crate::text::{
    concat, concat_number, decimal, is_digit, lemma_decimal_digits, lemma_decimal_value, lemma_split_on_join,
    lemma_split_on_none, lemma_split_on_nonempty, parse_u32_result, parse_u8_result, parsed_u32, parsed_u8,
    split_char, split_on, str_eq, u32_error_text, u8_error_text,
};

verus! {

/// The underlying player algorithm, without a search around it.
#[derive(Clone, Debug, PartialEq, Eq)]
pub enum InnerKind {
    ManualPlayer(ManualPlayer),
    RandomPlayer(Random),
    GreedyForNumber(GreedyForNumber),
    GreedyForScocre(GreedyForScore),
    Sadist(Sadist),
    Rollout(Rollout),
    /// An ONNX model, run outside this library.
    OnnxPlayer(OnnxPlayer),
}

/// What an [`InnerKind`] is: the algorithm, with the manual player's name or the model's stem.
pub enum InnerSpec {
    Manual(Seq<char>),
    Random,
    GreedyForNumber,
    GreedyForScore,
    Sadist,
    Rollout,
    Onnx(Seq<char>),
}

impl View for InnerKind {
    type V = InnerSpec;

    open spec fn view(&self) -> InnerSpec {
        match self {
            InnerKind::ManualPlayer(p) => InnerSpec::Manual(p.name@),
            InnerKind::RandomPlayer(_) => InnerSpec::Random,
            InnerKind::GreedyForNumber(_) => InnerSpec::GreedyForNumber,
            InnerKind::GreedyForScocre(_) => InnerSpec::GreedyForScore,
            InnerKind::Sadist(_) => InnerSpec::Sadist,
            InnerKind::Rollout(_) => InnerSpec::Rollout,
            InnerKind::OnnxPlayer(p) => InnerSpec::Onnx(p.stem@),
        }
    }
}

/// The label of an algorithm: `manual:<name>`, `random`, `greedy_for_number`, `greedy_for_score`,
/// `sadist`, `rollout` or `onnx:<stem>`.
pub open spec fn inner_label(k: InnerSpec) -> Seq<char> {
    match k {
        InnerSpec::Manual(name) => "manual:"@ + name,
        InnerSpec::Random => "random"@,
        InnerSpec::GreedyForNumber => "greedy_for_number"@,
        InnerSpec::GreedyForScore => "greedy_for_score"@,
        InnerSpec::Sadist => "sadist"@,
        InnerSpec::Rollout => "rollout"@,
        InnerSpec::Onnx(stem) => "onnx:"@ + stem,
    }
}

/// The algorithm that `s` names: a manual player (see [`manual_name_of`]), one of the built-in
/// labels, or `onnx:<stem>` with a non-empty stem.
pub open spec fn parsed_inner(s: Seq<char>) -> Option<InnerSpec> {
    if manual_name_of(s) is Some {
        Some(InnerSpec::Manual(manual_name_of(s)->0))
    } else if s == "random"@ {
        Some(InnerSpec::Random)
    } else if s == "greedy_for_number"@ {
        Some(InnerSpec::GreedyForNumber)
    } else if s == "greedy_for_score"@ {
        Some(InnerSpec::GreedyForScore)
    } else if s == "sadist"@ {
        Some(InnerSpec::Sadist)
    } else if s == "rollout"@ {
        Some(InnerSpec::Rollout)
    } else if "onnx:"@.is_prefix_of(s) && s.len() > "onnx:"@.len() {
        Some(InnerSpec::Onnx(s.skip("onnx:"@.len() as int)))
    } else {
        None
    }
}

impl InnerKind {
    /// A manual player, whose moves come from outside.
    pub fn is_manual(&self) -> (r: bool)
        ensures
            r == (self@ is Manual),
    {
        match self {
            InnerKind::ManualPlayer(_) => true,
            _ => false,
        }
    }

    /// An ONNX model.
    pub fn is_onnx(&self) -> (r: bool)
        ensures
            r == (self@ is Onnx),
    {
        match self {
            InnerKind::OnnxPlayer(_) => true,
            _ => false,
        }
    }

    /// The algorithm's label ([`inner_label`]).
    pub fn label(&self) -> (r: String)
        ensures
            r@ == inner_label(self@),
    {
        match self {
            InnerKind::ManualPlayer(p) => p.label(),
            InnerKind::RandomPlayer(_) => "random".to_string(),
            InnerKind::GreedyForNumber(_) => "greedy_for_number".to_string(),
            InnerKind::GreedyForScocre(_) => "greedy_for_score".to_string(),
            InnerKind::Sadist(_) => "sadist".to_string(),
            InnerKind::Rollout(_) => "rollout".to_string(),
            InnerKind::OnnxPlayer(p) => p.label(),
        }
    }

    /// The algorithm named `s` ([`parsed_inner`]); the names are tried in the order of the
    /// variants.
    pub fn parse(s: &str) -> (r: Option<InnerKind>)
        ensures
            r is Some <==> parsed_inner(s@) is Some,
            r matches Some(k) ==> parsed_inner(s@) == Some(k@),
    {
        if let Ok(p) = ManualPlayer::parse(s) {
            return Some(InnerKind::ManualPlayer(p));
        }
        if str_eq(s, "random") {
            Some(InnerKind::RandomPlayer(Random {}))
        } else if str_eq(s, "greedy_for_number") {
            Some(InnerKind::GreedyForNumber(GreedyForNumber {}))
        } else if str_eq(s, "greedy_for_score") {
            Some(InnerKind::GreedyForScocre(GreedyForScore {}))
        } else if str_eq(s, "sadist") {
            Some(InnerKind::Sadist(Sadist {}))
        } else if str_eq(s, "rollout") {
            Some(InnerKind::Rollout(Rollout {}))
        } else {
            match OnnxPlayer::parse(s) {
                Ok(p) => Some(InnerKind::OnnxPlayer(p)),
                Err(_) => None,
            }
        }
    }
}

/// What a [`PlayerKind`] is.
pub struct KindSpec {
    pub inner: InnerSpec,
    pub sims: Option<(SearchKind, u32)>,
    pub sizes: Option<Seq<u8>>,
    pub hide: Option<bool>,
}

/// A player: an algorithm, optionally wrapped in a search of some number of simulations, and
/// optionally limited to some board sizes and to one hide mode.
///
/// Written `rollout`, `rollout|v800`, `rollout|g800`, `onnx:model_v5|g400|s5|hh`: `|v<n>` wraps
/// the algorithm in vanilla MCTS, `|g<n>` in Gumbel search, `|s5,7` limits the board sizes,
/// `|hh`/`|hv` the hide mode (hidden or visible hands).
#[derive(Clone, Debug, PartialEq, Eq)]
pub struct PlayerKind {
    pub inner: InnerKind,
    pub sims: Option<(SearchKind, u32)>,
    /// `None`: every board size.
    pub constrain_sizes: Option<Vec<u8>>,
    /// `None`: both hide modes.
    pub constrain_hide: Option<bool>,
}

impl View for PlayerKind {
    type V = KindSpec;

    open spec fn view(&self) -> KindSpec {
        KindSpec {
            inner: self.inner@,
            sims: self.sims,
            sizes: sizes_view(self.constrain_sizes),
            hide: self.constrain_hide,
        }
    }
}

/// The sizes of an optional list.
pub open spec fn sizes_view(o: Option<Vec<u8>>) -> Option<Seq<u8>> {
    match o {
        Some(v) => Some(v@),
        None => None,
    }
}

/// The sizes, in decimal, separated by commas.
pub open spec fn sizes_text(v: Seq<u8>) -> Seq<char>
    decreases v.len(),
{
    if v.len() == 0 {
        Seq::empty()
    } else if v.len() == 1 {
        decimal(v[0] as nat)
    } else {
        sizes_text(v.drop_last()) + ","@ + decimal(v.last() as nat)
    }
}

/// The search suffix of a label: `|v<n>`, `|g<n>` or nothing.
pub open spec fn sims_text(sims: Option<(SearchKind, u32)>) -> Seq<char> {
    match sims {
        None => Seq::empty(),
        Some((SearchKind::Vanilla, n)) => "|v"@ + decimal(n as nat),
        Some((SearchKind::Gumbel, n)) => "|g"@ + decimal(n as nat),
    }
}

/// The label of a player, which is also its id: the algorithm's label, then the search suffix,
/// then `|s<sizes>` and `|hh`/`|hv` where those are limited.
pub open spec fn kind_label(k: KindSpec) -> Seq<char> {
    inner_label(k.inner) + sims_text(k.sims) + match k.sizes {
        None => Seq::empty(),
        Some(v) => "|s"@ + sizes_text(v),
    } + match k.hide {
        None => Seq::empty(),
        Some(h) => if h {
            "|hh"@
        } else {
            "|hv"@
        },
    }
}

/// Every character of `s` is an ASCII digit.
pub open spec fn all_digits(s: Seq<char>) -> bool {
    forall|i: int| 0 <= i < s.len() ==> is_digit(#[trigger] s[i])
}

/// A search suffix after its letter: one or more digits that fit in a `u32`. Non-digits give the
/// whole spec `whole` as the error; a number too large gives the parse error.
pub open spec fn parsed_sims(rest: Seq<char>, kind: SearchKind, whole: Seq<char>) -> Result<(SearchKind, u32), Seq<char>> {
    if rest.len() == 0 || !all_digits(rest) {
        Err(whole)
    } else if parsed_u32(rest) is Some {
        Ok((kind, parsed_u32(rest)->0))
    } else {
        Err(u32_error_text(rest))
    }
}

/// The board sizes of the pieces, each a `u8`; the first piece that is not gives its parse error.
pub open spec fn parsed_sizes(pieces: Seq<Seq<char>>) -> Result<Seq<u8>, Seq<char>>
    decreases pieces.len(),
{
    if pieces.len() == 0 {
        Ok(Seq::empty())
    } else {
        match parsed_sizes(pieces.drop_last()) {
            Err(e) => Err(e),
            Ok(v) => if parsed_u8(pieces.last()) is Some {
                Ok(v.push(parsed_u8(pieces.last())->0))
            } else {
                Err(u8_error_text(pieces.last()))
            },
        }
    }
}

/// The suffixes read so far: search, sizes, hide mode.
pub type Suffixes = (Option<(SearchKind, u32)>, Option<Seq<u8>>, Option<bool>);

/// Reading one suffix token `tok` of the spec `whole` on top of `acc`: `v<n>`, `g<n>`, `s<sizes>`
/// (comma-separated), `hh` or `hv`; a later token of a kind replaces an earlier one. Anything else
/// gives `whole` as the error.
pub open spec fn apply_token(acc: Suffixes, tok: Seq<char>, whole: Seq<char>) -> Result<Suffixes, Seq<char>> {
    if tok.len() > 0 && tok[0] == 'v' {
        match parsed_sims(tok.skip(1), SearchKind::Vanilla, whole) {
            Ok(p) => Ok((Some(p), acc.1, acc.2)),
            Err(e) => Err(e),
        }
    } else if tok.len() > 0 && tok[0] == 'g' {
        match parsed_sims(tok.skip(1), SearchKind::Gumbel, whole) {
            Ok(p) => Ok((Some(p), acc.1, acc.2)),
            Err(e) => Err(e),
        }
    } else if tok.len() > 0 && tok[0] == 's' {
        match parsed_sizes(split_on(tok.skip(1), ',')) {
            Ok(v) => Ok((acc.0, Some(v), acc.2)),
            Err(e) => Err(e),
        }
    } else if tok == "hh"@ {
        Ok((acc.0, acc.1, Some(true)))
    } else if tok == "hv"@ {
        Ok((acc.0, acc.1, Some(false)))
    } else {
        Err(whole)
    }
}

/// Reading the suffix tokens in order; the first error stops.
pub open spec fn parsed_tokens(toks: Seq<Seq<char>>, whole: Seq<char>) -> Result<Suffixes, Seq<char>>
    decreases toks.len(),
{
    if toks.len() == 0 {
        Ok((None, None, None))
    } else {
        match parsed_tokens(toks.drop_last(), whole) {
            Err(e) => Err(e),
            Ok(acc) => apply_token(acc, toks.last(), whole),
        }
    }
}

/// The player that the spec `s` denotes: its pieces between `|` are the algorithm
/// ([`parsed_inner`]; an unknown one gives `s` as the error) and the suffix tokens
/// ([`apply_token`]).
pub open spec fn parsed_kind(s: Seq<char>) -> Result<KindSpec, Seq<char>> {
    let pieces = split_on(s, '|');
    match parsed_inner(pieces[0]) {
        None => Err(s),
        Some(inner) => match parsed_tokens(pieces.skip(1), s) {
            Err(e) => Err(e),
            Ok(acc) => Ok(KindSpec { inner, sims: acc.0, sizes: acc.1, hide: acc.2 }),
        },
    }
}

/// The default players ([`PlayerKind::defaults`]).
pub open spec fn default_kinds() -> Seq<KindSpec> {
    seq![
        KindSpec { inner: InnerSpec::Random, sims: None, sizes: None, hide: None },
        KindSpec { inner: InnerSpec::GreedyForNumber, sims: None, sizes: None, hide: None },
        KindSpec { inner: InnerSpec::GreedyForScore, sims: None, sizes: None, hide: None },
        KindSpec { inner: InnerSpec::Sadist, sims: None, sizes: None, hide: None },
        KindSpec { inner: InnerSpec::Rollout, sims: None, sizes: None, hide: None },
        KindSpec { inner: InnerSpec::Onnx(Seq::empty()), sims: None, sizes: None, hide: None },
        KindSpec { inner: InnerSpec::Rollout, sims: Some((SearchKind::Vanilla, 50u32)), sizes: None, hide: None },
        KindSpec { inner: InnerSpec::Rollout, sims: Some((SearchKind::Vanilla, 200u32)), sizes: None, hide: None },
        KindSpec { inner: InnerSpec::Rollout, sims: Some((SearchKind::Vanilla, 800u32)), sizes: None, hide: None },
    ]
}

/// A bot of one of the built-in algorithms.
#[derive(Clone, Debug)]
pub enum KindBot {
    Random(RandomPlayer),
    GreedyForNumber(GreedyForNumber),
    GreedyForScore(GreedyForScore),
    Sadist(Sadist),
    Rollout(Rollout),
}

impl<const N: usize> Bot<N> for KindBot {
    /// The wrapped bot's choices.
    open spec fn chooses(&self, g: GameState<N>, m: Move) -> bool {
        match self {
            KindBot::Random(p) => <RandomPlayer as Bot<N>>::chooses(p, g, m),
            KindBot::GreedyForNumber(p) => <GreedyForNumber as Bot<N>>::chooses(p, g, m),
            KindBot::GreedyForScore(p) => <GreedyForScore as Bot<N>>::chooses(p, g, m),
            KindBot::Sadist(p) => <Sadist as Bot<N>>::chooses(p, g, m),
            KindBot::Rollout(p) => <Rollout as Bot<N>>::chooses(p, g, m),
        }
    }

    /// The wrapped bot's move.
    fn choose_move(&mut self, game: &GameState<N>) -> (m: Move) {
        match self {
            KindBot::Random(p) => p.choose_move(game),
            KindBot::GreedyForNumber(p) => p.choose_move(game),
            KindBot::GreedyForScore(p) => p.choose_move(game),
            KindBot::Sadist(p) => p.choose_move(game),
            KindBot::Rollout(p) => p.choose_move(game),
        }
    }
}

/// Reads the sizes of an `s` token.
fn parse_sizes(rest: &str) -> (r: Result<Vec<u8>, String>)
    ensures
        match parsed_sizes(split_on(rest@, ',')) {
            Ok(v) => r matches Ok(w) && w@ == v,
            Err(e) => r matches Err(f) && f@ == e,
        },
{
    let pieces = split_char(rest, ',');
    let ghost ps = split_on(rest@, ',');
    let mut sizes: Vec<u8> = Vec::new();
    let mut i: usize = 0;
    while i < pieces.len()
        invariant
            ps == split_on(rest@, ','),
            pieces@.len() == ps.len(),
            forall|k: int| 0 <= k < pieces@.len() ==> (#[trigger] pieces@[k])@ == ps[k],
            i <= pieces.len(),
            parsed_sizes(ps.take(i as int)) == Ok::<Seq<u8>, Seq<char>>(sizes@),
        decreases pieces.len() - i,
    {
        proof {
            assert(ps.take(i + 1).drop_last() =~= ps.take(i as int));
            assert(ps.take(i + 1).last() == pieces@[i as int]@);
        }
        match parse_u8_result(pieces[i]) {
            Ok(v) => {
                sizes.push(v);
            },
            Err(e) => {
                proof {
                    assert(parsed_sizes(ps.take(i + 1)) == Err::<Seq<u8>, Seq<char>>(e@));
                    lemma_parsed_sizes_error_stays(ps, i as int + 1);
                    assert(parsed_sizes(split_on(rest@, ',')) == Err::<Seq<u8>, Seq<char>>(e@));
                }
                return Err(e);
            },
        }
        i += 1;
    }
    proof {
        assert(ps.take(pieces.len() as int) =~= ps);
    }
    Ok(sizes)
}

/// Once a prefix of the pieces fails, every longer prefix fails with the same error.
proof fn lemma_parsed_sizes_error_stays(ps: Seq<Seq<char>>, k: int)
    requires
        0 <= k <= ps.len(),
        parsed_sizes(ps.take(k)) is Err,
    ensures
        parsed_sizes(ps) == parsed_sizes(ps.take(k)),
    decreases ps.len() - k,
{
    if k < ps.len() {
        assert(ps.take(k + 1).drop_last() =~= ps.take(k));
        lemma_parsed_sizes_error_stays(ps, k + 1);
    } else {
        assert(ps.take(k) =~= ps);
    }
}

/// Once a prefix of the tokens fails, every longer prefix fails with the same error.
proof fn lemma_parsed_tokens_error_stays(toks: Seq<Seq<char>>, whole: Seq<char>, k: int)
    requires
        0 <= k <= toks.len(),
        parsed_tokens(toks.take(k), whole) is Err,
    ensures
        parsed_tokens(toks, whole) == parsed_tokens(toks.take(k), whole),
    decreases toks.len() - k,
{
    if k < toks.len() {
        assert(toks.take(k + 1).drop_last() =~= toks.take(k));
        lemma_parsed_tokens_error_stays(toks, whole, k + 1);
    } else {
        assert(toks.take(k) =~= toks);
    }
}

/// Reads the digits of a search token after its letter.
fn parse_sims(rest: &str, kind: SearchKind, whole: &str) -> (r: Result<(SearchKind, u32), String>)
    ensures
        match parsed_sims(rest@, kind, whole@) {
            Ok(p) => r == Ok::<(SearchKind, u32), String>(p),
            Err(e) => r matches Err(f) && f@ == e,
        },
{
    let len = rest.unicode_len();
    if len == 0 {
        return Err(whole.to_string());
    }
    let mut i: usize = 0;
    while i < len
        invariant
            len == rest@.len(),
            i <= len,
            forall|k: int| 0 <= k < i ==> is_digit(#[trigger] rest@[k]),
        decreases len - i,
    {
        let c = rest.get_char(i);
        if !('0' <= c && c <= '9') {
            return Err(whole.to_string());
        }
        i += 1;
    }
    match parse_u32_result(rest) {
        Ok(n) => Ok((kind, n)),
        Err(e) => Err(e),
    }
}

impl PlayerKind {
    /// A manual player, whose moves come from outside.
    pub fn is_manual(&self) -> (r: bool)
        ensures
            r == (self@.inner is Manual),
    {
        self.inner.is_manual()
    }

    /// An ONNX model.
    pub fn is_onnx(&self) -> (r: bool)
        ensures
            r == (self@.inner is Onnx),
    {
        self.inner.is_onnx()
    }

    /// The player's id, its label ([`kind_label`]).
    pub fn id(&self) -> (r: String)
        ensures
            r@ == kind_label(self@),
    {
        let base = self.inner.label();
        let with_sims = match self.sims {
            None => base,
            Some((SearchKind::Vanilla, n)) => {
                let suffix = concat_number("|v", n as u64);
                concat(base.as_str(), suffix.as_str())
            },
            Some((SearchKind::Gumbel, n)) => {
                let suffix = concat_number("|g", n as u64);
                concat(base.as_str(), suffix.as_str())
            },
        };
        let with_sizes = match &self.constrain_sizes {
            None => with_sims,
            Some(sizes) => {
                let text = sizes_string(sizes);
                let suffix = concat("|s", text.as_str());
                concat(with_sims.as_str(), suffix.as_str())
            },
        };
        let r = match self.constrain_hide {
            None => with_sizes,
            Some(true) => concat(with_sizes.as_str(), "|hh"),
            Some(false) => concat(with_sizes.as_str(), "|hv"),
        };
        proof {
            let k = self@;
            assert(kind_label(k) == inner_label(k.inner) + sims_text(k.sims) + (match k.sizes {
                None => Seq::<char>::empty(),
                Some(v) => "|s"@ + sizes_text(v),
            }) + (match k.hide {
                None => Seq::<char>::empty(),
                Some(h) => if h {
                    "|hh"@
                } else {
                    "|hv"@
                },
            }));
            assert(with_sims@ =~= inner_label(k.inner) + sims_text(k.sims));
            assert(with_sizes@ =~= inner_label(k.inner) + sims_text(k.sims) + (match k.sizes {
                None => Seq::<char>::empty(),
                Some(v) => "|s"@ + sizes_text(v),
            }));
            assert(r@ =~= kind_label(k));
        }
        r
    }

    /// Whether the player can play on a board of side `size` in hide mode `hidden`: no limit, or
    /// the size listed and the same mode.
    pub fn supports(&self, size: u8, hidden: bool) -> (r: bool)
        ensures
            r == ((self@.sizes is None || self@.sizes->0.contains(size)) && (self@.hide is None || self@.hide->0 == hidden)),
    {
        let size_ok = match &self.constrain_sizes {
            None => true,
            Some(sizes) => {
                let mut found = false;
                let mut i: usize = 0;
                while i < sizes.len()
                    invariant
                        i <= sizes.len(),
                        found == exists|k: int| 0 <= k < i && sizes@[k] == size,
                    decreases sizes.len() - i,
                {
                    if sizes[i] == size {
                        found = true;
                    }
                    i += 1;
                }
                found
            },
        };
        let hide_ok = match self.constrain_hide {
            None => true,
            Some(h) => h == hidden,
        };
        size_ok && hide_ok
    }

    /// The default players: every algorithm but the manual player on its own (the model player
    /// with an empty stem), then rollout wrapped in vanilla MCTS with 50, 200 and 800 simulations.
    pub fn defaults() -> (r: Vec<PlayerKind>)
        ensures
            r@.len() == default_kinds().len(),
            forall|j: int| 0 <= j < r@.len() ==> (#[trigger] r@[j])@ == default_kinds()[j],
    {
        let mut out: Vec<PlayerKind> = Vec::new();
        out.push(PlayerKind::plain(InnerKind::RandomPlayer(Random {})));
        out.push(PlayerKind::plain(InnerKind::GreedyForNumber(GreedyForNumber {})));
        out.push(PlayerKind::plain(InnerKind::GreedyForScocre(GreedyForScore {})));
        out.push(PlayerKind::plain(InnerKind::Sadist(Sadist {})));
        out.push(PlayerKind::plain(InnerKind::Rollout(Rollout {})));
        let stem = String::new();
        proof {
            assert(stem@ =~= Seq::<char>::empty());
        }
        out.push(PlayerKind::plain(InnerKind::OnnxPlayer(OnnxPlayer { stem })));
        let mut k: u32 = 0;
        while k < 3
            invariant
                k <= 3,
                out@.len() == 6 + k,
                out@[0]@ == (KindSpec { inner: InnerSpec::Random, sims: None, sizes: None, hide: None }),
                out@[1]@ == (KindSpec { inner: InnerSpec::GreedyForNumber, sims: None, sizes: None, hide: None }),
                out@[2]@ == (KindSpec { inner: InnerSpec::GreedyForScore, sims: None, sizes: None, hide: None }),
                out@[3]@ == (KindSpec { inner: InnerSpec::Sadist, sims: None, sizes: None, hide: None }),
                out@[4]@ == (KindSpec { inner: InnerSpec::Rollout, sims: None, sizes: None, hide: None }),
                out@[5]@ == (KindSpec { inner: InnerSpec::Onnx(Seq::empty()), sims: None, sizes: None, hide: None }),
                forall|j: int|
                    6 <= j < out@.len() ==> (#[trigger] out@[j])@ == (KindSpec {
                        inner: InnerSpec::Rollout,
                        sims: Some((SearchKind::Vanilla, if j == 6 { 50u32 } else if j == 7 { 200u32 } else { 800u32 })),
                        sizes: None,
                        hide: None,
                    }),
            decreases 3 - k,
        {
            let sims: u32 = if k == 0 {
                50
            } else if k == 1 {
                200
            } else {
                800
            };
            out.push(
                PlayerKind {
                    inner: InnerKind::Rollout(Rollout {}),
                    sims: Some((SearchKind::Vanilla, sims)),
                    constrain_sizes: None,
                    constrain_hide: None,
                },
            );
            k += 1;
        }
        proof {
            assert forall|j: int| 0 <= j < out@.len() implies (#[trigger] out@[j])@ == default_kinds()[j] by {
                if j >= 6 {
                    assert(out@[j]@ == default_kinds()[j]);
                }
            }
        }
        out
    }

    /// The algorithm on its own, without search or limits.
    fn plain(inner: InnerKind) -> (r: PlayerKind)
        ensures
            r@ == (KindSpec { inner: inner@, sims: None, sizes: None, hide: None }),
    {
        PlayerKind { inner, sims: None, constrain_sizes: None, constrain_hide: None }
    }

    /// The bot of a built-in algorithm that runs without a search (manual players and ONNX
    /// models are played outside this library).
    pub fn into_bot(self) -> (r: KindBot)
        requires
            self.sims is None,
            !(self@.inner is Manual),
            !(self@.inner is Onnx),
        ensures
            self@.inner is Random <==> r is Random,
            self@.inner is GreedyForNumber <==> r is GreedyForNumber,
            self@.inner is GreedyForScore <==> r is GreedyForScore,
            self@.inner is Sadist <==> r is Sadist,
            self@.inner is Rollout <==> r is Rollout,
    {
        match self.inner {
            InnerKind::RandomPlayer(_) => KindBot::Random(RandomPlayer::new()),
            InnerKind::GreedyForNumber(p) => KindBot::GreedyForNumber(p),
            InnerKind::GreedyForScocre(p) => KindBot::GreedyForScore(p),
            InnerKind::Sadist(p) => KindBot::Sadist(p),
            InnerKind::Rollout(p) => KindBot::Rollout(p),
            InnerKind::ManualPlayer(_) => vstd::pervasive::unreached(),
            InnerKind::OnnxPlayer(_) => vstd::pervasive::unreached(),
        }
    }

    /// Parse a player spec ([`parsed_kind`]): `Err` with `s` itself for an unknown algorithm or
    /// token, or with the number's parse error.
    pub fn parse(s: &str) -> (r: Result<PlayerKind, String>)
        ensures
            match parsed_kind(s@) {
                Ok(k) => r matches Ok(p) && p@ == k,
                Err(e) => r matches Err(f) && f@ == e,
            },
    {
        let pieces = split_char(s, '|');
        let ghost ps = split_on(s@, '|');
        proof {
            lemma_split_on_nonempty(s@, '|');
        }
        let inner = match InnerKind::parse(pieces[0]) {
            Some(k) => k,
            None => {
                return Err(s.to_string());
            },
        };
        let ghost toks = ps.skip(1);
        let mut sims: Option<(SearchKind, u32)> = None;
        let mut sizes: Option<Vec<u8>> = None;
        let mut hide_mode: Option<bool> = None;
        let mut i: usize = 1;
        while i < pieces.len()
            invariant
                ps == split_on(s@, '|'),
                parsed_inner(ps[0]) == Some(inner@),
                pieces@.len() == ps.len(),
                ps.len() >= 1,
                toks == ps.skip(1),
                forall|k: int| 0 <= k < pieces@.len() ==> (#[trigger] pieces@[k])@ == ps[k],
                1 <= i <= pieces.len(),
                parsed_tokens(toks.take(i - 1), s@) == Ok::<Suffixes, Seq<char>>(
                    (sims, sizes_view(sizes), hide_mode),
                ),
            decreases pieces.len() - i,
        {
            let tok = pieces[i];
            let ghost acc: Suffixes = (sims, sizes_view(sizes), hide_mode);
            proof {
                assert(toks.take(i as int).drop_last() =~= toks.take(i - 1));
                assert(toks.take(i as int).last() == tok@);
                assert(parsed_tokens(toks.take(i as int), s@) == apply_token(acc, tok@, s@));
            }
            let n = tok.unicode_len();
            let first = if n > 0 {
                tok.get_char(0)
            } else {
                ' '
            };
            let step: Result<(), String> = if n > 0 && first == 'v' {
                let rest = tok.substring_char(1, n);
                match parse_sims(rest, SearchKind::Vanilla, s) {
                    Ok(p) => {
                        sims = Some(p);
                        Ok(())
                    },
                    Err(e) => Err(e),
                }
            } else if n > 0 && first == 'g' {
                let rest = tok.substring_char(1, n);
                match parse_sims(rest, SearchKind::Gumbel, s) {
                    Ok(p) => {
                        sims = Some(p);
                        Ok(())
                    },
                    Err(e) => Err(e),
                }
            } else if n > 0 && first == 's' {
                let rest = tok.substring_char(1, n);
                proof {
                    assert(rest@ =~= tok@.skip(1));
                }
                match parse_sizes(rest) {
                    Ok(v) => {
                        sizes = Some(v);
                        Ok(())
                    },
                    Err(e) => Err(e),
                }
            } else if str_eq(tok, "hh") {
                hide_mode = Some(true);
                Ok(())
            } else if str_eq(tok, "hv") {
                hide_mode = Some(false);
                Ok(())
            } else {
                Err(s.to_string())
            };
            proof {
                if n > 0 {
                    assert(tok@.skip(1) =~= tok@.subrange(1, n as int));
                }
            }
            match step {
                Ok(()) => {},
                Err(e) => {
                    proof {
                        assert(parsed_tokens(toks.take(i as int), s@) == Err::<Suffixes, Seq<char>>(e@));
                        lemma_parsed_tokens_error_stays(toks, s@, i as int);
                        assert(parsed_tokens(ps.skip(1), s@) == Err::<Suffixes, Seq<char>>(e@));
                        assert(parsed_kind(s@) == Err::<KindSpec, Seq<char>>(e@));
                    }
                    return Err(e);
                },
            }
            i += 1;
        }
        proof {
            assert(toks.take(pieces.len() - 1) =~= toks);
        }
        Ok(PlayerKind { inner, sims, constrain_sizes: sizes, constrain_hide: hide_mode })
    }
}

/// The sizes as text ([`sizes_text`]).
fn sizes_string(sizes: &Vec<u8>) -> (r: String)
    ensures
        r@ == sizes_text(sizes@),
{
    if sizes.len() == 0 {
        return String::new();
    }
    let mut text = concat_number("", sizes[0] as u64);
    proof {
        reveal_strlit("");
        assert(sizes@.take(1).len() == 1);
        assert(text@ =~= decimal(sizes@[0] as nat));
    }
    let mut i: usize = 1;
    while i < sizes.len()
        invariant
            1 <= i <= sizes.len(),
            text@ == sizes_text(sizes@.take(i as int)),
        decreases sizes.len() - i,
    {
        proof {
            assert(sizes@.take(i + 1).drop_last() =~= sizes@.take(i as int));
        }
        let piece = concat_number(",", sizes[i] as u64);
        text = concat(text.as_str(), piece.as_str());
        i += 1;
    }
    proof {
        assert(sizes@.take(sizes.len() as int) =~= sizes@);
    }
    text
}

/// The suffix tokens of a player's label, in order, without their `|`: `v<n>` or `g<n>`, then
/// `s<sizes>`, then `hh` or `hv`, each where present.
pub open spec fn suffix_tokens(k: KindSpec) -> Seq<Seq<char>> {
    let sims: Seq<Seq<char>> = match k.sims {
        None => Seq::empty(),
        Some((SearchKind::Vanilla, n)) => seq!["v"@ + decimal(n as nat)],
        Some((SearchKind::Gumbel, n)) => seq!["g"@ + decimal(n as nat)],
    };
    let sizes: Seq<Seq<char>> = match k.sizes {
        None => Seq::empty(),
        Some(v) => seq!["s"@ + sizes_text(v)],
    };
    let hide: Seq<Seq<char>> = match k.hide {
        None => Seq::empty(),
        Some(h) => if h {
            seq!["hh"@]
        } else {
            seq!["hv"@]
        },
    };
    sims + sizes + hide
}

/// `base`, then each token after a `|`.
pub open spec fn join_bar(base: Seq<char>, toks: Seq<Seq<char>>) -> Seq<char>
    decreases toks.len(),
{
    if toks.len() == 0 {
        base
    } else {
        join_bar(base, toks.drop_last()) + seq!['|'] + toks.last()
    }
}

/// Joining a further token.
proof fn lemma_join_bar_push(base: Seq<char>, toks: Seq<Seq<char>>, t: Seq<char>)
    ensures
        join_bar(base, toks.push(t)) == join_bar(base, toks) + seq!['|'] + t,
{
    assert(toks.push(t).drop_last() =~= toks);
}

/// A label is its algorithm's label joined with its suffix tokens.
proof fn lemma_label_joined(k: KindSpec)
    ensures
        kind_label(k) == join_bar(inner_label(k.inner), suffix_tokens(k)),
{
    reveal_strlit("|v");
    reveal_strlit("|g");
    reveal_strlit("|s");
    reveal_strlit("|hh");
    reveal_strlit("|hv");
    reveal_strlit("v");
    reveal_strlit("g");
    reveal_strlit("s");
    reveal_strlit("hh");
    reveal_strlit("hv");
    let base = inner_label(k.inner);
    let sims: Seq<Seq<char>> = match k.sims {
        None => Seq::empty(),
        Some((SearchKind::Vanilla, n)) => seq!["v"@ + decimal(n as nat)],
        Some((SearchKind::Gumbel, n)) => seq!["g"@ + decimal(n as nat)],
    };
    let sizes: Seq<Seq<char>> = match k.sizes {
        None => Seq::empty(),
        Some(v) => seq!["s"@ + sizes_text(v)],
    };
    let hide: Seq<Seq<char>> = match k.hide {
        None => Seq::empty(),
        Some(h) => if h {
            seq!["hh"@]
        } else {
            seq!["hv"@]
        },
    };
    assert(suffix_tokens(k) == sims + sizes + hide);
    let sizes_part: Seq<char> = match k.sizes {
        None => Seq::empty(),
        Some(v) => "|s"@ + sizes_text(v),
    };
    let hide_part: Seq<char> = match k.hide {
        None => Seq::empty(),
        Some(h) => if h {
            "|hh"@
        } else {
            "|hv"@
        },
    };
    assert(kind_label(k) == base + sims_text(k.sims) + sizes_part + hide_part);
    // sims
    let j1 = base + sims_text(k.sims);
    if k.sims is Some {
        lemma_join_bar_push(base, Seq::empty(), sims[0]);
        assert(Seq::<Seq<char>>::empty().push(sims[0]) =~= sims);
        assert(join_bar(base, Seq::<Seq<char>>::empty()) == base);
        assert(j1 =~= join_bar(base, sims));
    } else {
        assert(sims =~= Seq::<Seq<char>>::empty());
        assert(j1 =~= join_bar(base, sims));
    }
    // sizes
    let j2 = j1 + sizes_part;
    if k.sizes is Some {
        lemma_join_bar_push(base, sims, sizes[0]);
        assert(sims.push(sizes[0]) =~= sims + sizes);
        assert(j2 =~= join_bar(base, sims + sizes));
    } else {
        assert(sims + sizes =~= sims);
        assert(j2 =~= join_bar(base, sims + sizes));
    }
    // hide
    let j3 = j2 + hide_part;
    if k.hide is Some {
        lemma_join_bar_push(base, sims + sizes, hide[0]);
        assert((sims + sizes).push(hide[0]) =~= sims + sizes + hide);
        assert(j3 =~= join_bar(base, sims + sizes + hide));
    } else {
        assert(sims + sizes + hide =~= sims + sizes);
        assert(j3 =~= join_bar(base, sims + sizes + hide));
    }
    assert(kind_label(k) =~= j3);
}

/// Text joined with `|` splits back into its base and tokens when none holds a `|`.
proof fn lemma_split_join_bar(base: Seq<char>, toks: Seq<Seq<char>>)
    requires
        !base.contains('|'),
        forall|i: int| 0 <= i < toks.len() ==> !(#[trigger] toks[i]).contains('|'),
    ensures
        split_on(join_bar(base, toks), '|') == seq![base] + toks,
    decreases toks.len(),
{
    if toks.len() == 0 {
        lemma_split_on_none(base, '|');
        assert(seq![base] + toks =~= seq![base]);
    } else {
        let t0 = toks.drop_last();
        lemma_split_join_bar(base, t0);
        lemma_split_on_join(join_bar(base, t0), toks.last(), '|');
        lemma_split_on_none(toks.last(), '|');
        assert(seq![base] + t0 + seq![toks.last()] =~= seq![base] + toks);
    }
}

/// The sizes text holds digits and commas only, and splits at its commas into the sizes' digits.
proof fn lemma_sizes_split(v: Seq<u8>)
    requires
        v.len() > 0,
    ensures
        !sizes_text(v).contains('|'),
        split_on(sizes_text(v), ',') == v.map_values(|x: u8| decimal(x as nat)),
    decreases v.len(),
{
    reveal_strlit(",");
    lemma_decimal_digits(v.last() as nat);
    assert(!decimal(v.last() as nat).contains(',') && !decimal(v.last() as nat).contains('|')) by {
        if decimal(v.last() as nat).contains(',') || decimal(v.last() as nat).contains('|') {
            let k = choose|k: int|
                0 <= k < decimal(v.last() as nat).len() && (decimal(v.last() as nat)[k] == ',' || decimal(
                    v.last() as nat,
                )[k] == '|');
            assert(is_digit(decimal(v.last() as nat)[k]));
        }
    }
    if v.len() == 1 {
        assert(sizes_text(v) == decimal(v[0] as nat));
        lemma_split_on_none(decimal(v[0] as nat), ',');
        assert(v.map_values(|x: u8| decimal(x as nat)) =~= seq![decimal(v[0] as nat)]);
    } else {
        let v0 = v.drop_last();
        lemma_sizes_split(v0);
        assert(","@ =~= seq![',']);
        assert(sizes_text(v) == sizes_text(v0) + seq![','] + decimal(v.last() as nat));
        lemma_split_on_join(sizes_text(v0), decimal(v.last() as nat), ',');
        lemma_split_on_none(decimal(v.last() as nat), ',');
        assert(v.map_values(|x: u8| decimal(x as nat)) =~= v0.map_values(|x: u8| decimal(x as nat)) + seq![
            decimal(v.last() as nat),
        ]);
        assert(!sizes_text(v).contains('|')) by {
            if sizes_text(v).contains('|') {
                let k = choose|k: int| 0 <= k < sizes_text(v).len() && sizes_text(v)[k] == '|';
                if k < sizes_text(v0).len() {
                    assert(sizes_text(v0)[k] == '|');
                } else if k > sizes_text(v0).len() {
                    assert(decimal(v.last() as nat)[k - sizes_text(v0).len() - 1] == '|');
                }
            }
        }
    }
}

/// The sizes' digits read back as the sizes.
proof fn lemma_parsed_sizes_decimals(v: Seq<u8>)
    ensures
        parsed_sizes(v.map_values(|x: u8| decimal(x as nat))) == Ok::<Seq<u8>, Seq<char>>(v),
    decreases v.len(),
{
    let d = v.map_values(|x: u8| decimal(x as nat));
    if v.len() > 0 {
        let v0 = v.drop_last();
        lemma_parsed_sizes_decimals(v0);
        assert(d.drop_last() =~= v0.map_values(|x: u8| decimal(x as nat)));
        lemma_decimal_value(v.last() as nat);
        assert(d.last() == decimal(v.last() as nat));
        assert(parsed_u8(d.last()) == Some(v.last()));
        assert(v0.push(v.last()) =~= v);
    } else {
        assert(v =~= Seq::<u8>::empty());
    }
}

/// The suffix tokens hold no `|`, and read back as the player's search and limits.
proof fn lemma_suffix_tokens_parse(k: KindSpec, whole: Seq<char>)
    requires
        k.sizes matches Some(v) ==> v.len() > 0,
    ensures
        forall|i: int| 0 <= i < suffix_tokens(k).len() ==> !(#[trigger] suffix_tokens(k)[i]).contains('|'),
        parsed_tokens(suffix_tokens(k), whole) == Ok::<Suffixes, Seq<char>>((k.sims, k.sizes, k.hide)),
{
    reveal_strlit("v");
    reveal_strlit("g");
    reveal_strlit("s");
    reveal_strlit("hh");
    reveal_strlit("hv");
    let sims: Seq<Seq<char>> = match k.sims {
        None => Seq::empty(),
        Some((SearchKind::Vanilla, n)) => seq!["v"@ + decimal(n as nat)],
        Some((SearchKind::Gumbel, n)) => seq!["g"@ + decimal(n as nat)],
    };
    let sizes: Seq<Seq<char>> = match k.sizes {
        None => Seq::empty(),
        Some(v) => seq!["s"@ + sizes_text(v)],
    };
    let hide: Seq<Seq<char>> = match k.hide {
        None => Seq::empty(),
        Some(h) => if h {
            seq!["hh"@]
        } else {
            seq!["hv"@]
        },
    };
    let toks = suffix_tokens(k);
    assert(toks == sims + sizes + hide);
    // the sims token
    let acc1: Suffixes = (k.sims, None, None);
    if let Some((kind, n)) = k.sims {
        let t = sims[0];
        lemma_decimal_value(n as nat);
        lemma_decimal_digits(n as nat);
        assert(t.skip(1) =~= decimal(n as nat));
        assert(parsed_sims(t.skip(1), kind, whole) == Ok::<(SearchKind, u32), Seq<char>>((kind, n)));
        assert(Seq::<Seq<char>>::empty().push(t) =~= sims);
        assert(sims.drop_last() =~= Seq::<Seq<char>>::empty());
        assert(sims.last() == t);
        assert(parsed_tokens(Seq::<Seq<char>>::empty(), whole) == Ok::<Suffixes, Seq<char>>((None, None, None)));
        assert(parsed_tokens(sims, whole) == apply_token((None, None, None), t, whole));
        assert(!t.contains('|')) by {
            if t.contains('|') {
                let i = choose|i: int| 0 <= i < t.len() && t[i] == '|';
                if i > 0 {
                    assert(is_digit(decimal(n as nat)[i - 1]));
                }
            }
        }
    } else {
        assert(sims =~= Seq::<Seq<char>>::empty());
    }
    assert(parsed_tokens(sims, whole) == Ok::<Suffixes, Seq<char>>(acc1));
    // the sizes token
    let acc2: Suffixes = (k.sims, k.sizes, None);
    if let Some(v) = k.sizes {
        let t = sizes[0];
        lemma_sizes_split(v);
        lemma_parsed_sizes_decimals(v);
        assert(t.skip(1) =~= sizes_text(v));
        assert(sims.push(t) =~= sims + sizes);
        assert((sims + sizes).drop_last() =~= sims);
        assert(parsed_tokens(sims + sizes, whole) == apply_token(acc1, t, whole));
        assert(!t.contains('|')) by {
            if t.contains('|') {
                let i = choose|i: int| 0 <= i < t.len() && t[i] == '|';
                if i > 0 {
                    assert(sizes_text(v)[i - 1] == '|');
                }
            }
        }
    } else {
        assert(sims + sizes =~= sims);
    }
    assert(parsed_tokens(sims + sizes, whole) == Ok::<Suffixes, Seq<char>>(acc2));
    // the hide token
    if let Some(h) = k.hide {
        let t = hide[0];
        assert((sims + sizes).push(t) =~= toks);
        assert(toks.drop_last() =~= sims + sizes);
        assert(parsed_tokens(toks, whole) == apply_token(acc2, t, whole));
    } else {
        assert(toks =~= sims + sizes);
    }
    assert forall|i: int| 0 <= i < toks.len() implies !(#[trigger] toks[i]).contains('|') by {
        if i < sims.len() {
            assert(toks[i] == sims[i]);
        } else if i < sims.len() + sizes.len() {
            assert(toks[i] == sizes[i - sims.len()]);
        } else {
            assert(toks[i] == hide[i - sims.len() - sizes.len()]);
        }
    }
}

/// A player's id parses back to the player: the search and limits exactly, the algorithm as its
/// label parses on its own. Holds when the algorithm's label holds no `|` and a size limit lists
/// at least one size.
pub proof fn lemma_label_parses_back(k: KindSpec)
    requires
        !inner_label(k.inner).contains('|'),
        k.sizes matches Some(v) ==> v.len() > 0,
    ensures
        parsed_kind(kind_label(k)) == match parsed_inner(inner_label(k.inner)) {
            Some(i) => Ok::<KindSpec, Seq<char>>(KindSpec { inner: i, ..k }),
            None => Err(kind_label(k)),
        },
{
    let label = kind_label(k);
    lemma_label_joined(k);
    lemma_suffix_tokens_parse(k, label);
    lemma_split_join_bar(inner_label(k.inner), suffix_tokens(k));
    let pieces = split_on(label, '|');
    assert(pieces[0] == inner_label(k.inner));
    assert(pieces.skip(1) =~= suffix_tokens(k));
}

} // verus!
