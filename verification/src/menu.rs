use vstd::prelude::*;

use crate::algos::kind::{InnerKind, InnerSpec, KindSpec, PlayerKind, parsed_kind};
use crate::algos::random::Random;
use crate::board::{Board, Pos, MAX_BOARD_SIZE};
use crate::board_size::BoardSize;
use crate::cards::CardValue;
use crate::game::{Move, Player};
use crate::player::ManualPlayer;

verus! {

/// The game being set up in the menu: the two players, the board, the hide mode, the model that
/// evaluates positions during play, and whether the result stays out of the ratings.
#[derive(Clone, Debug, PartialEq, Eq)]
pub struct MenuSetup {
    pub p1: PlayerKind,
    pub p2: PlayerKind,
    pub size: BoardSize,
    pub hide: bool,
    pub eval_model: Option<PlayerKind>,
    pub no_priors: bool,
}

/// The menu slot a choice is for.
#[derive(Clone, Copy, Debug, PartialEq, Eq, Structural)]
pub enum Slot {
    /// The first player.
    First,
    /// The second player.
    Second,
    /// The evaluation model.
    Eval,
}

/// The game may start unless both players are manual while the hands are hidden.
pub open spec fn spec_can_start(s: MenuSetup) -> bool {
    !(s.hide && s.p1@.inner is Manual && s.p2@.inner is Manual)
}

/// Which players the search of a slot offers: only models for the evaluation slot, no manual
/// player for the second slot while the hands are hidden, anyone otherwise.
pub open spec fn spec_offered(slot: Slot, hide: bool, k: KindSpec) -> bool {
    match slot {
        Slot::Eval => k.inner is Onnx,
        Slot::Second => !(hide && k.inner is Manual),
        Slot::First => true,
    }
}

/// A manual player with the typed name, taken as is.
pub open spec fn typed_manual(query: Seq<char>) -> KindSpec {
    KindSpec { inner: InnerSpec::Manual(query), sims: None, sizes: None, hide: None }
}

/// What pressing Enter in the search of `slot` picks, and whether it is a one-off player kept out
/// of the ratings: with Ctrl and some text (not for a hidden second slot), the typed spec (for a
/// player slot, a manual player of that name when the spec does not parse; kept out of the
/// ratings); else the highlighted match; else, with text typed (not for a hidden second slot), the
/// typed spec for the evaluation slot or a manual player of that name for a player slot.
pub open spec fn spec_enter_pick(
    slot: Slot,
    hide: bool,
    query: Seq<char>,
    ctrl: bool,
    highlighted: Option<KindSpec>,
) -> Option<(KindSpec, bool)> {
    let blocked = hide && slot == Slot::Second;
    if ctrl && query.len() > 0 && !blocked {
        if slot == Slot::Eval {
            match parsed_kind(query) {
                Ok(k) => Some((k, false)),
                Err(_) => None,
            }
        } else {
            match parsed_kind(query) {
                Ok(k) => Some((k, true)),
                Err(_) => Some((typed_manual(query), true)),
            }
        }
    } else if highlighted is Some {
        Some((highlighted->0, false))
    } else if query.len() == 0 || blocked {
        None
    } else if slot == Slot::Eval {
        match parsed_kind(query) {
            Ok(k) => Some((k, false)),
            Err(_) => None,
        }
    } else {
        Some((typed_manual(query), false))
    }
}

/// A player of the given algorithm alone.
fn plain_kind(inner: InnerKind) -> (r: PlayerKind)
    ensures
        r@ == (KindSpec { inner: inner@, sims: None, sizes: None, hide: None }),
{
    PlayerKind { inner, sims: None, constrain_sizes: None, constrain_hide: None }
}

impl MenuSetup {
    /// Whether the game may start ([`spec_can_start`]).
    pub fn can_start(&self) -> (r: bool)
        ensures
            r == spec_can_start(*self),
    {
        !(self.hide && self.p1.is_manual() && self.p2.is_manual())
    }

    /// Whether the search of `slot` offers `kind` ([`spec_offered`]).
    pub fn offered(slot: Slot, hide: bool, kind: &PlayerKind) -> (r: bool)
        ensures
            r == spec_offered(slot, hide, kind@),
    {
        match slot {
            Slot::Eval => kind.is_onnx(),
            Slot::Second => !(hide && kind.is_manual()),
            Slot::First => true,
        }
    }

    /// Choose hidden or visible hands. Hiding them while the second player is manual makes the
    /// second player a random one; choosing the current mode changes nothing.
    pub fn set_hide(&mut self, hide: bool)
        ensures
            final(self).hide == hide,
            final(self).p1 == old(self).p1,
            final(self).size == old(self).size,
            final(self).eval_model == old(self).eval_model,
            final(self).no_priors == old(self).no_priors,
            hide != old(self).hide && hide && old(self).p2@.inner is Manual ==> final(self).p2@ == (KindSpec {
                inner: InnerSpec::Random,
                sims: None,
                sizes: None,
                hide: None,
            }),
            !(hide != old(self).hide && hide && old(self).p2@.inner is Manual) ==> final(self).p2 == old(self).p2,
    {
        if hide != self.hide {
            self.hide = hide;
            if hide && self.p2.is_manual() {
                self.p2 = plain_kind(InnerKind::RandomPlayer(Random {}));
            }
        }
    }

    /// Put `kind` in `slot`; a player chosen as a one-off (`no_priors`) keeps the result out of the
    /// ratings.
    pub fn assign(&mut self, slot: Slot, kind: PlayerKind, no_priors: bool)
        ensures
            slot == Slot::First ==> final(self).p1 == kind && final(self).p2 == old(self).p2 && final(self).eval_model
                == old(self).eval_model,
            slot == Slot::Second ==> final(self).p2 == kind && final(self).p1 == old(self).p1 && final(self).eval_model
                == old(self).eval_model,
            slot == Slot::Eval ==> final(self).eval_model == Some(kind) && final(self).p1 == old(self).p1
                && final(self).p2 == old(self).p2,
            final(self).size == old(self).size,
            final(self).hide == old(self).hide,
            final(self).no_priors == (old(self).no_priors || (no_priors && slot != Slot::Eval)),
    {
        match slot {
            Slot::First => self.p1 = kind,
            Slot::Second => self.p2 = kind,
            Slot::Eval => self.eval_model = Some(kind),
        }
        if no_priors && slot != Slot::Eval {
            self.no_priors = true;
        }
    }

    /// Enter in the search of `slot` with `query` typed and `highlighted` the highlighted match
    /// ([`spec_enter_pick`]): the pick goes into the slot; `false` when nothing is picked.
    pub fn enter(&mut self, slot: Slot, query: &str, ctrl: bool, highlighted: Option<PlayerKind>) -> (r: bool)
        ensures
            ({
                let pick = spec_enter_pick(
                    slot,
                    old(self).hide,
                    query@,
                    ctrl,
                    match highlighted {
                        Some(h) => Some(h@),
                        None => None,
                    },
                );
                &&& r == pick is Some
                &&& pick is None ==> *final(self) == *old(self)
                &&& pick matches Some((k, one_off)) ==> {
                    &&& slot == Slot::First ==> final(self).p1@ == k && final(self).p2 == old(self).p2
                    &&& slot == Slot::Second ==> final(self).p2@ == k && final(self).p1 == old(self).p1
                    &&& slot != Slot::Eval ==> final(self).eval_model == old(self).eval_model
                    &&& slot == Slot::Eval ==> (final(self).eval_model matches Some(e) && e@ == k && final(self).p1
                        == old(self).p1 && final(self).p2 == old(self).p2)
                    &&& final(self).no_priors == (old(self).no_priors || one_off)
                    &&& final(self).size == old(self).size
                    &&& final(self).hide == old(self).hide
                }
            }),
    {
        let blocked = self.hide && slot == Slot::Second;
        let pick: Option<(PlayerKind, bool)> = if ctrl && query.unicode_len() > 0 && !blocked {
            match PlayerKind::parse(query) {
                Ok(k) => Some((k, slot != Slot::Eval)),
                Err(_) => if slot == Slot::Eval {
                    None
                } else {
                    Some((plain_kind(InnerKind::ManualPlayer(ManualPlayer { name: query.to_string() })), true))
                },
            }
        } else if let Some(h) = highlighted {
            Some((h, false))
        } else if query.unicode_len() == 0 || blocked {
            None
        } else if slot == Slot::Eval {
            match PlayerKind::parse(query) {
                Ok(k) => Some((k, false)),
                Err(_) => None,
            }
        } else {
            Some((plain_kind(InnerKind::ManualPlayer(ManualPlayer { name: query.to_string() })), false))
        };
        match pick {
            Some((kind, one_off)) => {
                self.assign(slot, kind, one_off);
                true
            },
            None => false,
        }
    }
}

/// The card selected after choosing `card`, of which the player to move holds `count`: choosing
/// the selected card again clears the selection, choosing another held card selects it, and a card
/// not held changes nothing.
pub open spec fn spec_toggle_card(selected: Option<CardValue>, card: CardValue, count: u8) -> Option<CardValue> {
    if count == 0 {
        selected
    } else if selected == Some(card) {
        None
    } else {
        Some(card)
    }
}

/// Choose `card` (see [`spec_toggle_card`]).
pub fn toggle_card(selected: Option<CardValue>, card: CardValue, count: u8) -> (r: Option<CardValue>)
    ensures
        r == spec_toggle_card(selected, card, count),
{
    if count == 0 {
        selected
    } else if selected == Some(card) {
        None
    } else {
        Some(card)
    }
}

/// What a click on a card of `owner`'s hand does while `turn` is to move: a card of the other
/// hand is refused (`None`), a card of the mover's hand toggles the selection.
pub fn hand_click(turn: Player, owner: Player, selected: Option<CardValue>, card: CardValue, count: u8) -> (r: Option<
    Option<CardValue>,
>)
    ensures
        owner != turn ==> r is None,
        owner == turn ==> r == Some(spec_toggle_card(selected, card, count)),
{
    if owner != turn {
        None
    } else {
        Some(toggle_card(selected, card, count))
    }
}

/// The move a click on cell `pos` makes with the card `selected`: one exactly when a card is
/// selected and the cell is playable.
pub fn board_click<const N: usize>(board: &Board<N>, selected: Option<CardValue>, pos: Pos) -> (r: Option<Move>)
    requires
        N <= MAX_BOARD_SIZE,
    ensures
        r is Some <==> (selected is Some && board.playable(pos.row as int, pos.col as int)),
        r matches Some(m) ==> m == (Move { pos, card: selected->0 }),
{
    match selected {
        None => None,
        Some(card) => if board.is_playable(pos) {
            Some(Move { pos, card })
        } else {
            None
        },
    }
}

} // verus!
