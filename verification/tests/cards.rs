use rand::rngs::SmallRng;
use rand::SeedableRng;
use robot_master::cards::{deal, new_deck, CardValue, Hand};

#[test]
fn hand_take_put() {
    let mut h = Hand::<5>::default();
    h.put(CardValue(3));
    h.put(CardValue(3));
    assert_eq!(h.count(CardValue(3)), 2);
    h.take(CardValue(3));
    assert_eq!(h.count(CardValue(3)), 1);
    assert!(!h.is_empty());
    h.take(CardValue(3));
    assert!(h.is_empty());
}

#[test]
fn deck_correct_counts_5x5() {
    let mut rng = SmallRng::seed_from_u64(42);
    let deck = new_deck(5, &mut rng);
    assert_eq!(deck.len(), 36); // (5+1)² = 36
    for v in 0..=5u8 {
        assert_eq!(deck.iter().filter(|&&c| c == CardValue(v)).count(), 6);
    }
}

#[test]
fn deck_correct_counts_7x7() {
    let mut rng = SmallRng::seed_from_u64(42);
    let deck = new_deck(7, &mut rng);
    assert_eq!(deck.len(), 64); // (7+1)² = 64
    for v in 0..=7u8 {
        assert_eq!(deck.iter().filter(|&&c| c == CardValue(v)).count(), 8);
    }
}

#[test]
fn deal_removes_from_deck() {
    let mut rng = SmallRng::seed_from_u64(0);
    let mut deck = new_deck(5, &mut rng);
    let hand: Hand<5> = deal(&mut deck, 12);
    assert_eq!(deck.len(), 24); // 36 - 12
    let total: u8 = hand.to_counts_vec().iter().sum();
    assert_eq!(total, 12);
}

#[test]
#[should_panic]
fn hand_take_absent_panics() {
    let mut h = Hand::<5>::default();
    h.take(CardValue(0));
}
