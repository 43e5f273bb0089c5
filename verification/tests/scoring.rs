use robot_master::board::EMPTY;
use robot_master::cards::CardValue;
use robot_master::scoring::{line_counts, score_delta, score_line, LineCounts, LINE_COUNT_SLOTS};

fn counts(pairs: &[(usize, u8)]) -> LineCounts {
    let mut c = [0u8; LINE_COUNT_SLOTS];
    for &(v, n) in pairs {
        c[v] = n;
    }
    c
}

#[test]
fn score_zero_copies_contributes_nothing() {
    let c = counts(&[]);
    assert_eq!(score_line(&c), 0);
}

#[test]
fn score_one_copy_is_face_value() {
    for v in 0u16..=5 {
        let c = counts(&[(v as usize, 1)]);
        assert_eq!(score_line(&c), v);
    }
}

#[test]
fn score_two_copies_is_ten_times_face() {
    for v in 0u16..=5 {
        let c = counts(&[(v as usize, 2)]);
        assert_eq!(score_line(&c), 10 * v);
    }
}

#[test]
fn score_three_plus_is_100_flat() {
    for n in 3u8..=6 {
        let c = counts(&[(3, n)]);
        assert_eq!(score_line(&c), 100);
    }
}

#[test]
fn score_line_mixed() {
    // 1 copy of 2 (=2) + 2 copies of 5 (=50) = 52
    let c = counts(&[(2, 1), (5, 2)]);
    assert_eq!(score_line(&c), 52);
}

#[test]
fn delta_first_copy() {
    let c = counts(&[]);
    assert_eq!(score_delta(&c, CardValue(3)), 3);
    assert_eq!(score_delta(&c, CardValue(0)), 0);
}

#[test]
fn delta_second_copy() {
    let c = counts(&[(3, 1)]);
    assert_eq!(score_delta(&c, CardValue(3)), 27); // 9 * 3
}

#[test]
fn delta_third_copy() {
    let c = counts(&[(2, 2), (5, 2)]);
    assert_eq!(score_delta(&c, CardValue(2)), 80); // 100 - 10*2
    assert_eq!(score_delta(&c, CardValue(5)), 50); // 100 - 10*5
}

#[test]
fn delta_saturation() {
    let c = counts(&[(1, 3), (2, 4), (3, 5)]);
    assert_eq!(score_delta(&c, CardValue(1)), 0);
    assert_eq!(score_delta(&c, CardValue(2)), 0);
    assert_eq!(score_delta(&c, CardValue(3)), 0);
}

#[test]
fn line_counts_skips_empty() {
    let line = [EMPTY, 2, EMPTY, 2, 3];
    let c = line_counts(&line);
    assert_eq!(c[2], 2);
    assert_eq!(c[3], 1);
    assert_eq!(c[0], 0);
}
