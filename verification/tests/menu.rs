use robot_master::algos::kind::{InnerKind, PlayerKind};
use robot_master::board::{Board, Pos};
use robot_master::board_size::BoardSize;
use robot_master::cards::CardValue;
use robot_master::game::{Move, Player};
use robot_master::menu::{board_click, hand_click, toggle_card, MenuSetup, Slot};

fn kind(spec: &str) -> PlayerKind {
    PlayerKind::parse(spec).unwrap()
}

fn setup() -> MenuSetup {
    MenuSetup { p1: kind("manual"), p2: kind("random"), size: BoardSize::Five, hide: false, eval_model: None, no_priors: false }
}

#[test]
fn menu_start_needs_a_bot_when_hands_are_hidden() {
    let mut s = setup();
    s.p2 = kind("manual:ann");
    assert!(s.can_start());
    s.hide = true;
    assert!(!s.can_start());
}

#[test]
fn menu_hiding_replaces_a_manual_second_player() {
    let mut s = setup();
    s.p2 = kind("manual:ann");
    s.set_hide(true);
    assert!(s.hide);
    assert_eq!(s.p2.id(), "random");
    s.set_hide(false);
    assert_eq!(s.p2.id(), "random");
}

#[test]
fn menu_offers_by_slot() {
    assert!(MenuSetup::offered(Slot::Eval, false, &kind("onnx:m")));
    assert!(!MenuSetup::offered(Slot::Eval, false, &kind("rollout")));
    assert!(!MenuSetup::offered(Slot::Second, true, &kind("manual:bo")));
    assert!(MenuSetup::offered(Slot::Second, false, &kind("manual:bo")));
    assert!(MenuSetup::offered(Slot::First, true, &kind("manual:bo")));
}

#[test]
fn menu_enter_picks() {
    let mut s = setup();
    assert!(s.enter(Slot::Second, "sad", false, Some(kind("sadist"))));
    assert_eq!(s.p2.id(), "sadist");
    assert!(!s.no_priors);
    assert!(s.enter(Slot::First, "rollout|v50", true, None));
    assert_eq!(s.p1.id(), "rollout|v50");
    assert!(s.no_priors);
    let mut s = setup();
    assert!(s.enter(Slot::First, "Zed!", false, None));
    assert!(matches!(&s.p1.inner, InnerKind::ManualPlayer(p) if p.name == "Zed!"));
    assert!(!s.enter(Slot::Eval, "nonsense", false, None));
    assert_eq!(s.eval_model, None);
    assert!(s.enter(Slot::Eval, "onnx:m9", false, None));
    assert_eq!(s.eval_model.as_ref().unwrap().id(), "onnx:m9");
    s.hide = true;
    assert!(!s.enter(Slot::Second, "bob", true, None));
    assert!(!s.enter(Slot::First, "", false, None));
}

#[test]
fn picking_cards_and_cells() {
    assert_eq!(toggle_card(None, CardValue(3), 2), Some(CardValue(3)));
    assert_eq!(toggle_card(Some(CardValue(3)), CardValue(3), 2), None);
    assert_eq!(toggle_card(Some(CardValue(1)), CardValue(3), 0), Some(CardValue(1)));
    assert_eq!(hand_click(Player::A, Player::B, None, CardValue(3), 2), None);
    assert_eq!(hand_click(Player::A, Player::A, None, CardValue(3), 2), Some(Some(CardValue(3))));
    let mut b: Board<5> = Board::default();
    b.set(Pos { row: 2, col: 2 }, 4);
    assert_eq!(board_click(&b, Some(CardValue(1)), Pos { row: 2, col: 1 }), Some(Move { pos: Pos { row: 2, col: 1 }, card: CardValue(1) }));
    assert_eq!(board_click(&b, Some(CardValue(1)), Pos { row: 0, col: 0 }), None);
    assert_eq!(board_click(&b, None, Pos { row: 2, col: 1 }), None);
}
