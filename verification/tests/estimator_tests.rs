use quiz_engine::estimator::{Estimate, MasteryState, SCALE};

#[test]
fn neutral_state_estimates_one_half() {
    let s = MasteryState::new();
    let e = s.estimate();
    assert_eq!(e, Estimate { num: 1, den: 2 });
}

#[test]
fn correct_correct_incorrect_history() {
    // weighted_total: 1.0, 1.9, 2.71; weighted_correct: 1.0, 1.9, 1.71
    let mut s = MasteryState::new();
    s.apply(true);
    assert_eq!(s.weighted_total, SCALE);
    assert_eq!(s.weighted_correct, SCALE);
    s.apply(true);
    assert_eq!(s.weighted_total, 19 * SCALE / 10);
    assert_eq!(s.weighted_correct, 19 * SCALE / 10);
    let e = s.apply(false);
    assert_eq!(s.weighted_total, 271 * SCALE / 100);
    assert_eq!(s.weighted_correct, 171 * SCALE / 100);
    // final estimate 1.71 / 2.71, about 0.631
    assert_eq!(e.num, 171 * SCALE / 100);
    assert_eq!(e.den, 271 * SCALE / 100);
    assert_eq!(e.num as u128 * 1000 / e.den as u128, 630);
}

#[test]
fn estimate_stays_in_unit_interval() {
    let mut s = MasteryState::new();
    let pattern = [true, false, false, true, true, true, false, true, false, false];
    for round in 0..50 {
        for (i, &c) in pattern.iter().enumerate() {
            let e = s.apply(c ^ (round % 2 == 0 && i % 3 == 0));
            assert!(e.den > 0);
            assert!(e.num <= e.den);
        }
    }
}

#[test]
fn recent_correct_beats_recent_incorrect() {
    // same total counts, different order: recency dominates
    let mut ends_correct = MasteryState::new();
    for &c in &[false, true, true] {
        ends_correct.apply(c);
    }
    let mut ends_incorrect = MasteryState::new();
    for &c in &[true, true, false] {
        ends_incorrect.apply(c);
    }
    let a = ends_correct.estimate();
    let b = ends_incorrect.estimate();
    // compare the rationals a.num/a.den and b.num/b.den
    assert!((a.num as u128) * (b.den as u128) > (b.num as u128) * (a.den as u128));
}

#[test]
fn all_incorrect_trends_to_zero() {
    let mut s = MasteryState::new();
    for _ in 0..40 {
        s.apply(false);
    }
    let e = s.estimate();
    assert_eq!(e.num, 0);
    assert!(e.den > 0);
}
