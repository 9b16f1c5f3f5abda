use quiz_engine::estimator::Estimate;
use quiz_engine::selection::{bottom_k, oldest_first, uniform_random, weighted_random, RankedItem, TimedItem};

fn est(num: u64, den: u64) -> Estimate {
    Estimate { num, den }
}

fn items_abc() -> Vec<RankedItem> {
    vec![
        RankedItem { id: 1, est: est(9, 10) },  // A, estimate 0.9
        RankedItem { id: 2, est: est(1, 10) },  // B, estimate 0.1
        RankedItem { id: 3, est: est(5, 10) },  // C, estimate 0.5
    ]
}

#[test]
fn bottom_two_of_three() {
    // A 0.9, B 0.1, C 0.5: the two weakest are B then C
    let picked = bottom_k(&items_abc(), 2);
    assert_eq!(picked, vec![2, 3]);
}

#[test]
fn bottom_k_clamps_to_candidate_count() {
    let picked = bottom_k(&items_abc(), 10);
    assert_eq!(picked.len(), 3);
    assert_eq!(picked, vec![2, 3, 1]);
}

#[test]
fn bottom_k_keeps_original_order_on_ties() {
    let items = vec![
        RankedItem { id: 7, est: est(1, 2) },
        RankedItem { id: 5, est: est(2, 4) },
        RankedItem { id: 9, est: est(3, 6) },
    ];
    let picked = bottom_k(&items, 3);
    assert_eq!(picked, vec![7, 5, 9]);
}

#[test]
fn bottom_k_of_empty_is_empty() {
    let picked = bottom_k(&Vec::new(), 4);
    assert!(picked.is_empty());
}

#[test]
fn weighted_draw_with_full_count_is_permutation() {
    for _ in 0..50 {
        let mut picked = weighted_random(&items_abc(), 3);
        assert_eq!(picked.len(), 3);
        picked.sort();
        assert_eq!(picked, vec![1, 2, 3]);
    }
}

#[test]
fn weighted_draw_returns_distinct_candidates() {
    for _ in 0..50 {
        let picked = weighted_random(&items_abc(), 2);
        assert_eq!(picked.len(), 2);
        assert_ne!(picked[0], picked[1]);
        assert!(picked.iter().all(|id| [1, 2, 3].contains(id)));
    }
}

#[test]
fn weighted_draw_favours_weak_items() {
    // B (0.1) should come out first far more often than A (0.9)
    let mut b_first = 0;
    let mut a_first = 0;
    for _ in 0..400 {
        let picked = weighted_random(&items_abc(), 1);
        if picked[0] == 2 {
            b_first += 1;
        }
        if picked[0] == 1 {
            a_first += 1;
        }
    }
    assert!(b_first > a_first);
}

#[test]
fn uniform_draw_with_full_count_is_permutation() {
    let ids = vec![4, 8, 15, 16, 23, 42];
    for _ in 0..20 {
        let mut picked = uniform_random(&ids, 6);
        assert_eq!(picked.len(), 6);
        picked.sort();
        assert_eq!(picked, vec![4, 8, 15, 16, 23, 42]);
    }
}

#[test]
fn uniform_draw_clamps_and_subsets() {
    let ids = vec![4, 8, 15];
    let picked = uniform_random(&ids, 9);
    assert_eq!(picked.len(), 3);
    let few = uniform_random(&ids, 2);
    assert_eq!(few.len(), 2);
    assert!(few.iter().all(|id| ids.contains(id)));
}

#[test]
fn oldest_first_prefers_never_answered() {
    let items = vec![
        TimedItem { id: 1, last: Some(5_000) },
        TimedItem { id: 2, last: None },
        TimedItem { id: 3, last: Some(1_000) },
        TimedItem { id: 4, last: Some(9_000) },
    ];
    let picked = oldest_first(&items, 4);
    assert_eq!(picked, vec![2, 3, 1, 4]);
}

#[test]
fn oldest_first_takes_the_stalest_k() {
    let items = vec![
        TimedItem { id: 1, last: Some(-50) },
        TimedItem { id: 2, last: Some(200) },
        TimedItem { id: 3, last: Some(100) },
    ];
    let picked = oldest_first(&items, 2);
    assert_eq!(picked, vec![1, 3]);
}

#[test]
fn oldest_first_is_stable_on_equal_times() {
    let items = vec![
        TimedItem { id: 9, last: Some(7) },
        TimedItem { id: 4, last: Some(7) },
        TimedItem { id: 6, last: Some(7) },
    ];
    let picked = oldest_first(&items, 3);
    assert_eq!(picked, vec![9, 4, 6]);
}
