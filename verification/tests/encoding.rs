use rand::rngs::SmallRng;
use rand::SeedableRng;
use robot_master::board::{Pos, EMPTY};
use robot_master::encoding::{action_index, action_size, in_channels, plane_numerators};
use robot_master::game::{GameConfig, GameState};

fn state5() -> GameState<5> {
    let mut rng = SmallRng::seed_from_u64(42);
    GameState::new(GameConfig::default(), &mut rng)
}

/// The network's input: each numerator over `N + 1`.
fn encode_planes(state: &GameState<5>) -> Vec<f32> {
    plane_numerators(state).iter().map(|&x| x as f32 / 6.0).collect()
}

#[test]
fn planes_shape() {
    let state = state5();
    let planes = encode_planes(&state);
    assert_eq!(planes.len(), in_channels(5) * 5 * 5);
}

#[test]
fn planes_center_card() {
    let state = state5();
    let center_cell = state.board.get(Pos { row: 2, col: 2 });
    assert_ne!(center_cell, EMPTY);
    let planes = encode_planes(&state);
    assert_eq!(planes[center_cell as usize * 25 + 2 * 5 + 2], 1.0, "card-value plane at center");
}

#[test]
fn hand_plane_normalized() {
    let state = state5();
    let planes = encode_planes(&state);
    let ch_hand_cur = 5 + 1;
    for v in 0..=5usize {
        let val = planes[(ch_hand_cur + v) * 25];
        assert!((0.0..=1.0).contains(&val), "hand plane {v} out of range: {val}");
    }
}

#[test]
fn hand_planes_count_the_mover_then_the_opponent() {
    let state = state5();
    let planes = plane_numerators(&state);
    for v in 0..=5usize {
        let mine = state.hands[0].count(robot_master::cards::CardValue(v as u8));
        let theirs = state.hands[1].count(robot_master::cards::CardValue(v as u8));
        for cell in 0..25 {
            assert_eq!(planes[(6 + v) * 25 + cell], mine);
            assert_eq!(planes[(12 + v) * 25 + cell], theirs);
        }
    }
    let total: usize = planes[..6 * 25].iter().filter(|&&x| x > 0).count();
    assert_eq!(total, 1);
}

#[test]
fn action_layout() {
    assert_eq!(in_channels(5), 18);
    assert_eq!(action_size(5), 150);
    assert_eq!(action_index(3, 1, 4, 5, false), 3 * 25 + 5 + 4);
    assert_eq!(action_index(3, 1, 4, 5, true), 3 * 25 + 4 * 5 + 1);
}
