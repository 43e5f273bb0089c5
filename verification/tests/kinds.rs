use rand::rngs::SmallRng;
use rand::SeedableRng;
use robot_master::algos::kind::{InnerKind, KindBot, PlayerKind};
use robot_master::algos::random::RandomPlayer;
use robot_master::algos::SearchKind;
use robot_master::game::{GameConfig, GameState};
use robot_master::roster::{arena_kinds, known_ids, registration, select_ids, RegisterError};
use robot_master::search::RolloutEval;
use robot_master::tournament::RatingBased;
use robot_master::training::{
    count_bin_files, eval_due, eval_model_id, eval_players, judge_eval, latest_model_version, model_version_of, run_id,
    starts_supervised, EvalVerdict, TrainPlan, TrainState,
};

#[test]
fn player_kind_plain_and_wrapped() {
    let k = PlayerKind::parse("rollout").unwrap();
    assert!(matches!(k.inner, InnerKind::Rollout(_)));
    assert_eq!(k.sims, None);
    assert_eq!(k.id(), "rollout");
    let k = PlayerKind::parse("rollout|v800").unwrap();
    assert_eq!(k.sims, Some((SearchKind::Vanilla, 800)));
    assert_eq!(k.id(), "rollout|v800");
    let k = PlayerKind::parse("sadist|g200").unwrap();
    assert_eq!(k.sims, Some((SearchKind::Gumbel, 200)));
}

#[test]
fn player_kind_onnx_with_limits() {
    let k = PlayerKind::parse("onnx:model_v5|g400|s5,7|hh").unwrap();
    assert!(k.is_onnx());
    assert_eq!(k.constrain_sizes, Some(vec![5, 7]));
    assert_eq!(k.constrain_hide, Some(true));
    assert_eq!(k.id(), "onnx:model_v5|g400|s5,7|hh");
    assert!(k.supports(5, true));
    assert!(k.supports(7, true));
    assert!(!k.supports(9, true));
    assert!(!k.supports(5, false));
}

#[test]
fn player_kind_manual() {
    let k = PlayerKind::parse("Manual:Bob").unwrap();
    assert!(k.is_manual());
    assert_eq!(k.id(), "manual:bob");
    assert!(PlayerKind::parse("manual").unwrap().is_manual());
}

#[test]
fn player_kind_errors() {
    assert_eq!(PlayerKind::parse("nobody"), Err("nobody".to_string()));
    assert_eq!(PlayerKind::parse("rollout|x"), Err("rollout|x".to_string()));
    assert_eq!(PlayerKind::parse("rollout|v"), Err("rollout|v".to_string()));
    assert_eq!(PlayerKind::parse("rollout|v1a"), Err("rollout|v1a".to_string()));
    assert_eq!(PlayerKind::parse("rollout|v99999999999"), Err("number too large to fit in target type".to_string()));
    assert_eq!(PlayerKind::parse("rollout|s5,x"), Err("invalid digit found in string".to_string()));
    assert_eq!(PlayerKind::parse("rollout|s"), Err("cannot parse integer from empty string".to_string()));
}

#[test]
fn player_kind_later_token_wins() {
    let k = PlayerKind::parse("random|v10|g20|hv|hh").unwrap();
    assert_eq!(k.sims, Some((SearchKind::Gumbel, 20)));
    assert_eq!(k.constrain_hide, Some(true));
    assert!(k.supports(11, true));
}

#[test]
fn player_kind_defaults() {
    let ids: Vec<String> = PlayerKind::defaults().iter().map(|k| k.id()).collect();
    assert_eq!(
        ids,
        vec!["random", "greedy_for_number", "greedy_for_score", "sadist", "rollout", "onnx:", "rollout|v50", "rollout|v200", "rollout|v800"]
    );
}

#[test]
fn player_kind_id_parses_back() {
    for spec in ["random", "greedy_for_number|v7", "onnx:m|g1|s5|hv", "manual:ann", "rollout|s5,7,9"] {
        let k = PlayerKind::parse(spec).unwrap();
        assert_eq!(PlayerKind::parse(&k.id()).unwrap(), k);
    }
}

#[test]
fn player_kind_into_bot() {
    let bot = PlayerKind::parse("sadist").unwrap().into_bot();
    assert!(matches!(bot, KindBot::Sadist(_)));
}

#[test]
fn rollout_eval_scores_the_finished_game() {
    let mut rng = SmallRng::seed_from_u64(42);
    let state: GameState<5> = GameState::new(GameConfig::default(), &mut rng);
    let eval = RolloutEval::new(robot_master::algos::greedy::GreedyPlayer);
    let (policy, value) = eval.evaluate(&state);
    assert_eq!(policy.len(), state.valid_moves().len());
    assert!(value == -1 || value == 0 || value == 1);
    let (_, again) = eval.evaluate(&state);
    assert_eq!(value, again);
    let _ = RandomPlayer::new();
}

#[test]
fn rating_based_cycles_and_sides() {
    assert_eq!(RatingBased::new(100, 8).cycles(), 13);
    assert_eq!(RatingBased::new(96, 8).cycles(), 12);
    let rb = RatingBased::new(10, 3);
    let mut rng = SmallRng::seed_from_u64(9);
    let games = rb.pairs_for_cycle(1, 4, 2, &mut rng);
    let sides: Vec<(usize, usize)> = games.iter().map(|g| (g.0, g.1)).collect();
    assert_eq!(sides, vec![(2, 4), (4, 2), (2, 4)]);
    assert_eq!(RatingBased::neighbour(0, 5, &mut rng), 1);
    assert_eq!(RatingBased::neighbour(4, 5, &mut rng), 3);
    let mid = RatingBased::neighbour(2, 5, &mut rng);
    assert!(mid == 1 || mid == 3);
}

#[test]
fn training_plan_and_names() {
    let p = TrainPlan::new(200, 3, 20);
    assert_eq!((p.train_steps, p.lifetime_iters, p.total_steps), (100, 23, 2300));
    assert_eq!(TrainPlan::new(1, 0, 5).train_steps, 1);
    assert_eq!(run_id("0.1.0", 200, 25, 5, false), "0.1.0_-_g200:s25/5x5_show");
    assert_eq!(model_version_of("model_v12.onnx"), Some(12));
    assert_eq!(model_version_of("model_v12.pt"), None);
    assert_eq!(model_version_of("other.onnx"), None);
    let names: Vec<String> = ["model_v3.onnx", "model_v10.onnx", "a.bin", "b.bin", "ckpt.pt"].iter().map(|s| s.to_string()).collect();
    assert_eq!(latest_model_version(&names), 10);
    assert_eq!(count_bin_files(&names), 2);
    assert_eq!(eval_model_id(10, 25, 5, true), "onnx:model_v10|g25|s5|hh");
    assert_eq!(eval_players("rollout|v50", "onnx:model_v10|g25|s5|hh"), "rollout|v50,onnx:model_v10|g25|s5|hh");
    assert!(eval_due(20, true));
    assert!(!eval_due(21, true));
    assert!(!eval_due(20, false));
    assert!(starts_supervised(true, false));
    assert!(!starts_supervised(true, true));
}

#[test]
fn training_eval_threshold() {
    assert_eq!(judge_eval(22, 32, true), (EvalVerdict::AboveSwitch, false));
    assert_eq!(judge_eval(22, 32, false), (EvalVerdict::Above, false));
    assert_eq!(judge_eval(17, 25, true), (EvalVerdict::Below, true));
    assert_eq!(judge_eval(0, 0, true), (EvalVerdict::Below, true));
}

fn strings(v: &[&str]) -> Vec<String> {
    v.iter().map(|s| s.to_string()).collect()
}

#[test]
fn roster_select_by_pattern() {
    let ids = strings(&["rollout", "rollout|v50", "random", "sadist"]);
    assert_eq!(select_ids(&ids, &Vec::new()).unwrap(), ids);
    assert_eq!(select_ids(&ids, &strings(&["^roll"])).unwrap(), strings(&["rollout", "rollout|v50"]));
    assert_eq!(select_ids(&ids, &strings(&["dist$", "^ran"])).unwrap(), strings(&["random", "sadist"]));
    let bad = select_ids(&ids, &strings(&["ok", "("])).unwrap_err();
    assert_eq!(bad.0, "(");
    assert!(!bad.1.is_empty());
}

#[test]
fn roster_known_ids_and_kinds() {
    let ids = known_ids(&strings(&["sadist", "manual:bob", "onnx:gone"]), &strings(&["m1"]));
    assert_eq!(
        ids,
        strings(&[
            "sadist",
            "manual:bob",
            "onnx:gone",
            "random",
            "greedy_for_number",
            "greedy_for_score",
            "rollout",
            "onnx:",
            "rollout|v50",
            "rollout|v200",
            "rollout|v800",
            "onnx:m1",
        ])
    );
    let kinds = arena_kinds(&ids, &strings(&["m1"]));
    let kept: Vec<String> = kinds.iter().map(|k| k.id()).collect();
    assert_eq!(kept.len(), 9);
    assert!(!kept.contains(&"manual:bob".to_string()));
    assert!(!kept.contains(&"onnx:gone".to_string()));
    assert!(kept.contains(&"onnx:m1".to_string()));
}

#[test]
fn roster_registration() {
    let rated = strings(&["random", "sadist"]);
    let (fresh, noted) = registration(&strings(&["onnx:m5|g200", "rollout|v7"]), &vec![5], Some(true), &strings(&["m5"]), &rated).unwrap();
    assert_eq!(noted, strings(&["rollout|v7"]));
    assert_eq!(
        fresh,
        strings(&[
            "onnx:m5|g200|s5|hh",
            "rollout|v7",
            "greedy_for_number",
            "greedy_for_score",
            "rollout",
            "onnx:",
            "rollout|v50",
            "rollout|v200",
            "rollout|v800",
            "onnx:m5",
        ])
    );
    assert_eq!(registration(&strings(&["what"]), &vec![], None, &vec![], &rated), Err(RegisterError::UnknownSpec("what".to_string())));
    assert_eq!(registration(&strings(&["manual:x"]), &vec![], None, &vec![], &rated), Err(RegisterError::Manual));
}

#[test]
fn training_state_after_iterations() {
    let start = TrainState { version: 8, has_model: false, supervising: true };
    assert!(start.selfplay_supervised());
    let (s9, v9) = start.after_iteration(true, None);
    assert_eq!((s9, v9), (TrainState { version: 9, has_model: true, supervising: true }, None));
    assert!(!s9.selfplay_supervised());
    let (s10, v10) = s9.after_iteration(true, Some((30, 32)));
    assert_eq!((s10, v10), (TrainState { version: 10, has_model: true, supervising: false }, Some(EvalVerdict::AboveSwitch)));
    let (s11, v11) = s10.after_iteration(true, Some((30, 32)));
    assert_eq!((s11, v11), (TrainState { version: 11, has_model: true, supervising: false }, None));
}

#[test]
fn training_retry_and_confirmation() {
    assert!(robot_master::training::retry_after_failure(false, "RuntimeError: getCount is non-monotonic here"));
    assert!(!robot_master::training::retry_after_failure(true, "getCount is non-monotonic"));
    assert!(!robot_master::training::retry_after_failure(false, "some other failure"));
    assert!(!robot_master::training::retry_after_failure(false, ""));
    assert!(robot_master::roster::needs_confirmation(10, false));
    assert!(!robot_master::roster::needs_confirmation(10, true));
    assert!(!robot_master::roster::needs_confirmation(9, false));
}
