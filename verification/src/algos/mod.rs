pub mod greedy;
pub mod greedy_max;
pub mod greedy_min;
pub mod kind;
pub mod random;
pub mod rollout;
pub mod sadist;

use vstd::prelude::*;
use vstd::string::*;

use crate::algos::greedy::GreedyPlayer;
use crate::algos::random::RandomPlayer;
use crate::algos::sadist::Sadist;
use crate::game::{GameState, Move};
use crate::player::Bot;
use crate::text::{concat, concat_char, str_eq, strip_prefix};

verus! {

/// Which search algorithm wraps the inner evaluator.
#[derive(Clone, Copy, Debug, PartialEq, Eq, Structural)]
pub enum SearchKind {
    /// Vanilla UCT-MCTS: uniform exploration, picks the most-visited child.
    Vanilla,
    /// Gumbel Sequential Halving: guided by learned priors and Gumbel noise.
    Gumbel,
}

/// An ONNX model file exposed as a player, named by its file stem; the model itself is loaded
/// and run outside this library.
#[derive(Clone, Debug, Default, PartialEq, Eq)]
pub struct OnnxPlayer {
    pub stem: String,
}

impl OnnxPlayer {
    /// Parse `onnx:<stem>` with a non-empty stem; anything else is refused with the input as the
    /// error.
    pub fn parse(s: &str) -> (r: Result<OnnxPlayer, String>)
        ensures
            ("onnx:"@.is_prefix_of(s@) && s@.len() > "onnx:"@.len()) ==> (r matches Ok(p) && p.stem@ == s@.skip(
                "onnx:"@.len() as int,
            )),
            !("onnx:"@.is_prefix_of(s@) && s@.len() > "onnx:"@.len()) ==> (r matches Err(e) && e@ == s@),
    {
        match strip_prefix(s, "onnx:") {
            None => Err(s.to_string()),
            Some(stem) => {
                if stem.is_empty() {
                    Err(s.to_string())
                } else {
                    Ok(OnnxPlayer { stem: stem.to_string() })
                }
            },
        }
    }

    /// The player's label, `onnx:<stem>`.
    pub fn label(&self) -> (r: String)
        ensures
            r@ == "onnx:"@ + self.stem@,
    {
        concat("onnx:", self.stem.as_str())
    }
}

impl core::str::FromStr for OnnxPlayer {
    type Err = String;

    /// As [`OnnxPlayer::parse`].
    fn from_str(s: &str) -> (r: Result<Self, Self::Err>)
        ensures
            ("onnx:"@.is_prefix_of(s@) && s@.len() > "onnx:"@.len()) ==> (r matches Ok(p) && p.stem@ == s@.skip(
                "onnx:"@.len() as int,
            )),
            !("onnx:"@.is_prefix_of(s@) && s@.len() > "onnx:"@.len()) ==> (r matches Err(e) && e@ == s@),
    {
        OnnxPlayer::parse(s)
    }
}

/// Characters allowed in a manual player name: ASCII letters and digits, `_` and `-`.
pub open spec fn name_char_ok(c: char) -> bool {
    ('a' <= c <= 'z') || ('A' <= c <= 'Z') || ('0' <= c <= '9') || c == '_' || c == '-'
}

/// `k` is the first place in `name` holding a character outside `a-zA-Z0-9_-`.
pub open spec fn is_first_bad(name: Seq<char>, k: int) -> bool {
    0 <= k < name.len() && !name_char_ok(name[k]) && forall|j: int| 0 <= j < k ==> name_char_ok(#[trigger] name[j])
}

/// Why `name` is refused as a manual player name: it is empty, or the text naming its first
/// character outside `a-zA-Z0-9_-`.
pub open spec fn manual_name_error(name: Seq<char>) -> Seq<char> {
    if name.len() == 0 {
        "manual player name cannot be empty"@
    } else {
        let k = choose|k: int| is_first_bad(name, k);
        "invalid character '"@ + seq![name[k]] + "' in manual player name \""@ + name + "\" (allowed: a-zA-Z0-9_-)"@
    }
}

/// Manual player names must be alphanumeric (plus `_` and `-`).
///
/// An empty name, or the first character outside `a-zA-Z0-9_-`, is reported in the error.
pub fn validate_manual_name(name: &str) -> (r: Result<(), String>)
    ensures
        r is Ok <==> crate::player::valid_manual_name(name@),
        r matches Err(e) ==> e@ == manual_name_error(name@),
        name@.len() == 0 ==> (r matches Err(e) && e@ == "manual player name cannot be empty"@),
        name@.len() > 0 && (forall|i: int| 0 <= i < name@.len() ==> name_char_ok(#[trigger] name@[i])) ==> r is Ok,
        name@.len() > 0 && !(forall|i: int| 0 <= i < name@.len() ==> name_char_ok(#[trigger] name@[i])) ==> (r matches Err(
            e,
        ) && exists|k: int|
            0 <= k < name@.len() && !name_char_ok(#[trigger] name@[k]) && (forall|j: int|
                0 <= j < k ==> name_char_ok(#[trigger] name@[j])) && e@ == "invalid character '"@ + seq![name@[k]]
                + "' in manual player name \""@ + name@ + "\" (allowed: a-zA-Z0-9_-)"@),
{
    if name.is_empty() {
        return Err("manual player name cannot be empty".to_string());
    }
    let len = name.unicode_len();
    let mut i: usize = 0;
    while i < len
        invariant
            len == name@.len(),
            i <= len,
            forall|j: int| 0 <= j < i ==> name_char_ok(#[trigger] name@[j]),
        decreases len - i,
    {
        let c = name.get_char(i);
        let ok = ('a' <= c && c <= 'z') || ('A' <= c && c <= 'Z') || ('0' <= c && c <= '9') || c == '_' || c == '-';
        if !ok {
            let head = concat_char("invalid character '", c, "' in manual player name \"");
            let with_name = concat(head.as_str(), name);
            let e = concat(with_name.as_str(), "\" (allowed: a-zA-Z0-9_-)");
            proof {
                assert(is_first_bad(name@, i as int));
                let k = choose|k: int| is_first_bad(name@, k);
                if k < i {
                    assert(name_char_ok(name@[k]));
                } else if k > i {
                    assert(name_char_ok(name@[i as int]));
                }
                assert(k == i);
            }
            return Err(e);
        }
        i += 1;
    }
    Ok(())
}

/// The names `resolve` knows: `m`/`manual`, `r`/`random`, `g`/`greedy`, `s`/`sadist`.
pub open spec fn is_known_player(name: Seq<char>) -> bool {
    ||| name == "m"@ || name == "manual"@
    ||| name == "r"@ || name == "random"@
    ||| name == "g"@ || name == "greedy"@
    ||| name == "s"@ || name == "sadist"@
}

/// A bot chosen by name.
#[derive(Debug)]
pub enum ResolvedPlayer {
    Random(RandomPlayer),
    Greedy(GreedyPlayer),
    Sadist(Sadist),
}

impl<const N: usize> Bot<N> for ResolvedPlayer {
    /// The chosen bot's choices.
    open spec fn chooses(&self, g: GameState<N>, m: Move) -> bool {
        match self {
            ResolvedPlayer::Random(p) => <RandomPlayer as Bot<N>>::chooses(p, g, m),
            ResolvedPlayer::Greedy(p) => <GreedyPlayer as Bot<N>>::chooses(p, g, m),
            ResolvedPlayer::Sadist(p) => <Sadist as Bot<N>>::chooses(p, g, m),
        }
    }

    /// The chosen bot's move.
    fn choose_move(&mut self, game: &GameState<N>) -> (m: Move) {
        match self {
            ResolvedPlayer::Random(p) => p.choose_move(game),
            ResolvedPlayer::Greedy(p) => p.choose_move(game),
            ResolvedPlayer::Sadist(p) => p.choose_move(game),
        }
    }
}

/// Whether `resolve` knows `name`.
pub fn is_known_player_name(name: &str) -> (r: bool)
    ensures
        r == is_known_player(name@),
{
    str_eq(name, "m") || str_eq(name, "manual") || str_eq(name, "r") || str_eq(name, "random") || str_eq(name, "g")
        || str_eq(name, "greedy") || str_eq(name, "s") || str_eq(name, "sadist")
}

/// Resolve a player name to a bot; `None` for `m`/`manual`, whose moves the caller supplies.
pub fn resolve(name: &str) -> (r: Option<ResolvedPlayer>)
    requires
        is_known_player(name@),
    ensures
        (name@ == "m"@ || name@ == "manual"@) <==> r is None,
        (name@ == "r"@ || name@ == "random"@) <==> r matches Some(ResolvedPlayer::Random(_)),
        (name@ == "g"@ || name@ == "greedy"@) <==> r matches Some(ResolvedPlayer::Greedy(_)),
        (name@ == "s"@ || name@ == "sadist"@) <==> r matches Some(ResolvedPlayer::Sadist(_)),
{
    proof {
        reveal_strlit("m");
        reveal_strlit("manual");
        reveal_strlit("r");
        reveal_strlit("random");
        reveal_strlit("g");
        reveal_strlit("greedy");
        reveal_strlit("s");
        reveal_strlit("sadist");
        assert("m"@[0] == 'm' && "manual"@[0] == 'm' && "r"@[0] == 'r' && "random"@[0] == 'r');
        assert("g"@[0] == 'g' && "greedy"@[0] == 'g' && "s"@[0] == 's' && "sadist"@[0] == 's');
        assert(name@.len() > 0 ==> name@[0] == name@[0]);
    }
    if str_eq(name, "m") || str_eq(name, "manual") {
        None
    } else if str_eq(name, "r") || str_eq(name, "random") {
        Some(ResolvedPlayer::Random(RandomPlayer::new()))
    } else if str_eq(name, "g") || str_eq(name, "greedy") {
        Some(ResolvedPlayer::Greedy(GreedyPlayer))
    } else {
        Some(ResolvedPlayer::Sadist(Sadist {}))
    }
}

} // verus!
