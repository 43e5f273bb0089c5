use robot_master::algos::rollout::Averse;
use robot_master::algos::{is_known_player_name, resolve, validate_manual_name, OnnxPlayer, ResolvedPlayer};
use robot_master::board_size::BoardSize;
use robot_master::config::{default_clickhouse_url, DbBackend, PlayerArgs, TourneyMode, TrainArgs};
use robot_master::db::JsonRatingDb;
use robot_master::player::ManualPlayer;

#[test]
fn resolve_known_names() {
    assert!(resolve("m").is_none());
    assert!(resolve("manual").is_none());
    assert!(matches!(resolve("r"), Some(ResolvedPlayer::Random(_))));
    assert!(matches!(resolve("greedy"), Some(ResolvedPlayer::Greedy(_))));
    assert!(matches!(resolve("s"), Some(ResolvedPlayer::Sadist(_))));
    assert!(is_known_player_name("sadist"));
    assert!(!is_known_player_name("rollout"));
}

#[test]
fn onnx_player_parsing() {
    assert_eq!(OnnxPlayer::parse("onnx:model_v5"), Ok(OnnxPlayer { stem: "model_v5".to_string() }));
    assert_eq!(OnnxPlayer::parse("onnx:"), Err("onnx:".to_string()));
    assert_eq!(OnnxPlayer::parse("greedy"), Err("greedy".to_string()));
    assert_eq!(OnnxPlayer { stem: "m".to_string() }.label(), "onnx:m");
}

#[test]
fn manual_player_parsing() {
    assert_eq!(ManualPlayer::parse("Manual").unwrap().name, "Player");
    assert_eq!(ManualPlayer::parse("manual:Alice").unwrap().name, "alice");
    assert!(ManualPlayer::parse("manual:a b").is_err());
    assert_eq!(ManualPlayer::parse("robot"), Err("robot".to_string()));
    assert_eq!(ManualPlayer::default().label(), "manual:Player");
}

#[test]
fn manual_name_rules() {
    assert!(validate_manual_name("ok_name-1").is_ok());
    assert_eq!(validate_manual_name(""), Err("manual player name cannot be empty".to_string()));
    assert_eq!(
        validate_manual_name("a b"),
        Err("invalid character ' ' in manual player name \"a b\" (allowed: a-zA-Z0-9_-)".to_string())
    );
}

#[test]
fn defaults() {
    let p = PlayerArgs::default();
    assert_eq!(p.player1, "manual");
    assert_eq!(p.player2, "random");
    assert_eq!(p.size, BoardSize::Five);
    assert_eq!(TrainArgs::default().iterations, 20);
    assert_eq!(TourneyMode::default_round_robin(), TourneyMode::RoundRobin { cycles: 3, threads: 0 });
    assert_eq!(DbBackend::default(), DbBackend::Json);
    assert_eq!(default_clickhouse_url(), "http://localhost:8123");
    assert_eq!(Averse::default().fuel, 1000);
    assert_eq!(JsonRatingDb::in_data_dir("/d").path, "/d/robot_master/ratings.json");
}
