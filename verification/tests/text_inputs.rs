use rand::SeedableRng;
use robot_master::board::{Board, Pos};
use robot_master::cards::{CardValue, Hand};
use robot_master::eval_report::{extract_u32, parse_eval_json};
use robot_master::game::Move;
use robot_master::manual_input::{manual_step, ManualAction, ManualEntry};

fn center5() -> Board<5> {
    let mut b = Board::<5>::default();
    b.set(Pos { row: 2, col: 2 }, 3);
    b
}

fn hand_with(v: u8) -> Hand<5> {
    let mut h = Hand::default();
    h.put(CardValue(v));
    h
}

#[test]
fn manual_entry_full_move() {
    let b = center5();
    let h = hand_with(4);
    let s1 = manual_step(&b, &h, ManualEntry::AskCard, " 4\n");
    assert_eq!(s1, ManualAction::Ask(ManualEntry::AskRow { card: CardValue(4) }));
    let s2 = manual_step(&b, &h, ManualEntry::AskRow { card: CardValue(4) }, "2\n");
    assert_eq!(s2, ManualAction::Ask(ManualEntry::AskCol { card: CardValue(4), row: 2 }));
    let s3 = manual_step(&b, &h, ManualEntry::AskCol { card: CardValue(4), row: 2 }, "1");
    assert_eq!(s3, ManualAction::Done(Move { pos: Pos { row: 2, col: 1 }, card: CardValue(4) }));
}

#[test]
fn manual_entry_warnings() {
    let b = center5();
    let h = hand_with(4);
    assert_eq!(manual_step(&b, &h, ManualEntry::AskCard, "x"), ManualAction::Warn("expected a number".to_string()));
    assert_eq!(manual_step(&b, &h, ManualEntry::AskCard, "3"), ManualAction::Warn("no card 3 in hand".to_string()));
    assert_eq!(manual_step(&b, &h, ManualEntry::AskCard, "9"), ManualAction::Warn("no card 9 in hand".to_string()));
    let col = |row: u8| ManualEntry::AskCol { card: CardValue(4), row };
    assert_eq!(manual_step(&b, &h, col(7), "1"), ManualAction::Warn("(7,1) is out of bounds".to_string()));
    assert_eq!(manual_step(&b, &h, col(2), "2"), ManualAction::Warn("(2,2) is already occupied".to_string()));
    assert_eq!(manual_step(&b, &h, col(0), "0"), ManualAction::Warn("(0,0) has no adjacent card".to_string()));
}

#[test]
fn extract_u32_reads_first_key() {
    assert_eq!(extract_u32(r#"{"wins":10,"games":32}"#, "wins"), Some(10));
    assert_eq!(extract_u32(r#"{"wins":10,"games":32}"#, "games"), Some(32));
    assert_eq!(extract_u32(r#"{"wins":10}"#, "games"), None);
    assert_eq!(extract_u32(r#"{"wins":"x"}"#, "wins"), None);
    assert_eq!(extract_u32(r#"{"wins":99999999999}"#, "wins"), None);
}

#[test]
fn parse_eval_json_finds_player() {
    let json = r#"[{"id":"rollout","wins":10,"games":32},{"id":"onnx:model_v5","wins":22,"games":32}]"#;
    assert_eq!(parse_eval_json(json, "rollout"), Some((10, 32)));
    assert_eq!(parse_eval_json(json, "onnx:model_v5"), Some((22, 32)));
    assert_eq!(parse_eval_json(json, "greedy"), None);
}

#[test]
fn hand_and_board_text() {
    let mut h = Hand::<5>::default();
    assert_eq!(h.to_text(), "{}");
    h.put(CardValue(1));
    h.put(CardValue(1));
    h.put(CardValue(4));
    assert_eq!(h.to_text(), "{1:2, 4:1}");
    let b = center5();
    let text = b.to_text();
    assert_eq!(text.lines().count(), 9);
    assert_eq!(text.lines().nth(5), Some("(2,_)   |   |   | 3 |   |   |"));
    let mut after = b;
    after.set(Pos { row: 2, col: 3 }, 5);
    let diff = after.display_diff(&b);
    assert_eq!(diff.lines().nth(5), Some("(2,_)   |   |   | 3 |+5 |   |"));
}

#[test]
fn game_text_shows_turn_and_hands() {
    let mut rng = rand::rngs::SmallRng::seed_from_u64(3);
    let g: robot_master::game::GameState<5> = robot_master::game::GameState::new(robot_master::game::GameConfig::default(), &mut rng);
    let text = g.to_text();
    let expected = format!(
        "{}\nP1 (Cols) to play | P1 (Cols): {} | P2 (Rows): {}",
        g.board.to_text(),
        g.hands[0].to_text(),
        g.hands[1].to_text()
    );
    assert_eq!(text, expected);
}

#[test]
fn result_screen_texts() {
    let (v, s) = robot_master::render::result_texts("Ann", "Bob", 21, 2, 13, 4);
    assert_eq!(v, "Ann (Cols) wins!");
    assert_eq!(s, "Ann (Cols): 21 (weakest: col 2)\nBob (Rows): 13 (weakest: row 4)");
    assert_eq!(robot_master::render::result_texts("Ann", "Bob", 3, 0, 30, 1).0, "Bob (Rows) wins!");
    assert_eq!(robot_master::render::result_texts("Ann", "Bob", 7, 0, 7, 1).0, "Draw!");
}
