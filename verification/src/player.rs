use vstd::prelude::*;

use crate::algos::{manual_name_error, name_char_ok, validate_manual_name};
use crate::game::{GameState, Move};
use crate::text::{concat, lowercase, str_eq, strip_prefix, to_lowercase};

verus! {

/// Something that can decide which move to play given a game state.
///
/// `choose_move` must return a legal move whenever one exists; callers rely on it. Which moves
/// a bot may pick in a position is its [`Bot::chooses`], and choosing a move does not change it.
pub trait Bot<const N: usize> {
    /// The bot may pick `m` in state `g`; unless a bot says more, any legal move.
    open spec fn chooses(&self, g: GameState<N>, m: Move) -> bool {
        g.is_legal(m)
    }

    /// Pick a move given the current game state.
    fn choose_move(&mut self, game: &GameState<N>) -> (m: Move)
        requires
            game.wf(),
            game.has_legal_move(),
        ensures
            game.is_legal(m),
            old(self).chooses(*game, m),
            forall|g: GameState<N>, mv: Move| #[trigger] final(self).chooses(g, mv) == old(self).chooses(g, mv),
    ;
}

/// Placeholder for human-controlled players: their moves are supplied externally.
#[derive(Clone, Debug, PartialEq, Eq)]
pub struct ManualPlayer {
    pub name: String,
}

impl Default for ManualPlayer {
    /// The manual player named `"Player"`.
    fn default() -> (r: Self)
        ensures
            r.name@ == "Player"@,
    {
        Self { name: "Player".to_string() }
    }
}

/// `name` is a valid manual player name: non-empty, every character in `a-zA-Z0-9_-`.
pub open spec fn valid_manual_name(name: Seq<char>) -> bool {
    name.len() > 0 && forall|i: int| 0 <= i < name.len() ==> name_char_ok(#[trigger] name[i])
}

/// The name of the manual player that `s` denotes, ignoring case: `manual:<name>` with a valid
/// name, or `manual` for the default player `"Player"`.
pub open spec fn manual_name_of(s: Seq<char>) -> Option<Seq<char>> {
    let lower = lowercase(s);
    if "manual:"@.is_prefix_of(lower) {
        let name = lower.skip("manual:"@.len() as int);
        if valid_manual_name(name) {
            Some(name)
        } else {
            None
        }
    } else if lower == "manual"@ {
        Some("Player"@)
    } else {
        None
    }
}

impl ManualPlayer {
    /// Parse `manual` (the default player) or `manual:<name>` with a valid name, ignoring case;
    /// `manual:<name>` with an invalid name is refused with the name check's error
    /// ([`manual_name_error`]), anything else with the input as the error.
    pub fn parse(s: &str) -> (r: Result<ManualPlayer, String>)
        ensures
            "manual:"@.is_prefix_of(lowercase(s@)) ==> {
                let name = lowercase(s@).skip("manual:"@.len() as int);
                &&& name.len() > 0 && (forall|i: int| 0 <= i < name.len() ==> name_char_ok(#[trigger] name[i])) ==> (r matches Ok(p) && p.name@ == name)
                &&& !(name.len() > 0 && (forall|i: int| 0 <= i < name.len() ==> name_char_ok(#[trigger] name[i]))) ==> (r matches Err(e) && e@ == manual_name_error(name))
            },
            !"manual:"@.is_prefix_of(lowercase(s@)) && lowercase(s@) == "manual"@ ==> (r matches Ok(p) && p.name@ == "Player"@),
            !"manual:"@.is_prefix_of(lowercase(s@)) && lowercase(s@) != "manual"@ ==> (r matches Err(e) && e@ == s@),
            r is Ok <==> manual_name_of(s@) is Some,
            r matches Ok(p) ==> manual_name_of(s@) == Some(p.name@),
    {
        let lower = to_lowercase(s);
        if let Some(name) = strip_prefix(lower.as_str(), "manual:") {
            match validate_manual_name(name) {
                Ok(()) => return Ok(Self { name: name.to_string() }),
                Err(e) => return Err(e),
            }
        }
        if str_eq(lower.as_str(), "manual") {
            return Ok(Self::default());
        }
        Err(s.to_string())
    }

    /// The player's label, `manual:<name>`.
    pub fn label(&self) -> (r: String)
        ensures
            r@ == "manual:"@ + self.name@,
    {
        concat("manual:", self.name.as_str())
    }
}

impl core::str::FromStr for ManualPlayer {
    type Err = String;

    /// As [`ManualPlayer::parse`].
    fn from_str(s: &str) -> (r: Result<Self, Self::Err>)
        ensures
            "manual:"@.is_prefix_of(lowercase(s@)) ==> {
                let name = lowercase(s@).skip("manual:"@.len() as int);
                &&& name.len() > 0 && (forall|i: int| 0 <= i < name.len() ==> name_char_ok(#[trigger] name[i])) ==> (r matches Ok(p) && p.name@ == name)
                &&& !(name.len() > 0 && (forall|i: int| 0 <= i < name.len() ==> name_char_ok(#[trigger] name[i]))) ==> (r matches Err(e) && e@ == manual_name_error(name))
            },
            !"manual:"@.is_prefix_of(lowercase(s@)) && lowercase(s@) == "manual"@ ==> (r matches Ok(p) && p.name@ == "Player"@),
            !"manual:"@.is_prefix_of(lowercase(s@)) && lowercase(s@) != "manual"@ ==> (r matches Err(e) && e@ == s@),
            r is Ok <==> manual_name_of(s@) is Some,
            r matches Ok(p) ==> manual_name_of(s@) == Some(p.name@),
    {
        ManualPlayer::parse(s)
    }
}

} // verus!
