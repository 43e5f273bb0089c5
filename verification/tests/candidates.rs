use robot_master::candidates::{candidate_kinds, filter_candidates, step_highlight};

fn list() -> Vec<(String, u32)> {
    vec![("random".to_string(), 1), ("rollout".to_string(), 2), ("sadist".to_string(), 3)]
}

#[test]
fn search_empty_query_lists_everyone_in_order() {
    let all = filter_candidates(&list(), "");
    assert_eq!(all, list());
}

#[test]
fn search_orders_matches_by_score() {
    let found = filter_candidates(&list(), "ro");
    let labels: Vec<&str> = found.iter().map(|(l, _)| l.as_str()).collect();
    assert_eq!(labels, vec!["rollout", "random"]);
    assert_eq!(found[0].1, 2);
}

#[test]
fn search_drops_labels_that_do_not_match() {
    assert!(filter_candidates(&list(), "xyz").is_empty());
    let found = filter_candidates(&list(), "sd");
    assert_eq!(found, vec![("sadist".to_string(), 3)]);
}

#[test]
fn search_with_a_capital_is_case_sensitive() {
    assert!(filter_candidates(&list(), "RO").is_empty());
    let named = vec![("Rollout".to_string(), 7)];
    assert_eq!(filter_candidates(&named, "ro").len(), 1);
    assert_eq!(filter_candidates(&named, "Ro").len(), 1);
    assert!(filter_candidates(&named, "RO").is_empty());
}

#[test]
fn candidates_are_defaults_then_rated_players() {
    let rated = vec!["sadist".to_string(), "ann".to_string(), "rollout|v10".to_string(), "bad name!".to_string()];
    let kinds = candidate_kinds(&rated);
    let ids: Vec<String> = kinds.iter().map(|k| k.id()).collect();
    assert_eq!(
        ids,
        vec![
            "random",
            "greedy_for_number",
            "greedy_for_score",
            "sadist",
            "rollout",
            "onnx:",
            "rollout|v50",
            "rollout|v200",
            "rollout|v800",
            "manual:ann",
            "rollout|v10",
        ]
    );
    assert!(kinds[5].is_onnx());
    assert!(kinds[9].is_manual());
}

#[test]
fn search_highlight_stays_in_the_list() {
    assert_eq!(step_highlight(0, 3, true, false), 1);
    assert_eq!(step_highlight(2, 3, true, false), 2);
    assert_eq!(step_highlight(0, 3, false, true), 0);
    assert_eq!(step_highlight(2, 3, false, true), 1);
    assert_eq!(step_highlight(0, 0, true, false), 0);
    assert_eq!(step_highlight(1, 3, true, true), 1);
}
