use pixie_rust::recommender::sampling::{draw_weighted, pick_weighted, total_weight};
use pixie_rust::recommender::scoring::{
    add_visit_roots, floor_sqrt, log2_floor, rank_by_score, scaling_factor, split_budget,
};

#[test]
fn total_weight_ignores_negative_weights() {
    assert_eq!(total_weight(&vec![3, -4, 5, 0]), 8);
    assert_eq!(total_weight(&vec![]), 0);
    assert_eq!(total_weight(&vec![i64::MAX, i64::MAX, i64::MAX]), 3 * (i64::MAX as u128));
}

#[test]
fn pick_follows_cumulative_weights() {
    let ws = vec![2, 0, -3, 3];
    assert_eq!(pick_weighted(&ws, 0), 0);
    assert_eq!(pick_weighted(&ws, 1), 0);
    assert_eq!(pick_weighted(&ws, 2), 3);
    assert_eq!(pick_weighted(&ws, 4), 3);
    let even = vec![1, 1];
    assert_eq!(pick_weighted(&even, 0), 0);
    assert_eq!(pick_weighted(&even, 1), 1);
}

#[test]
fn draw_picks_only_positive_weights() {
    for _ in 0..200 {
        assert_eq!(draw_weighted(&vec![0, 5, -2]), Some(1));
        assert_eq!(draw_weighted(&vec![2, 0]), Some(0));
    }
    assert_eq!(draw_weighted(&vec![-1]), None);
    assert_eq!(draw_weighted(&vec![]), None);
}

#[test]
fn draw_is_even_between_equal_weights() {
    let mut firsts = 0;
    let trials = 4000;
    for _ in 0..trials {
        match draw_weighted(&vec![1, 1]) {
            Some(0) => firsts += 1,
            Some(1) => {}
            other => panic!("unexpected draw {:?}", other),
        }
    }
    assert!(firsts > trials * 2 / 5 && firsts < trials * 3 / 5);
}

#[test]
fn log2_rounds_down() {
    assert_eq!(log2_floor(0), 0);
    assert_eq!(log2_floor(1), 0);
    assert_eq!(log2_floor(2), 1);
    assert_eq!(log2_floor(3), 1);
    assert_eq!(log2_floor(4), 2);
    assert_eq!(log2_floor(1023), 9);
    assert_eq!(log2_floor(1024), 10);
}

#[test]
fn scaling_factor_formula() {
    assert_eq!(scaling_factor(0, 5), 0);
    assert_eq!(scaling_factor(1, 2), 2);
    assert_eq!(scaling_factor(4, 10), 32);
    assert_eq!(scaling_factor(3, 3), 6);
}

#[test]
fn budget_is_shared_in_proportion() {
    assert_eq!(split_budget(&vec![1, 1, 2], 10), vec![2, 2, 5]);
    assert_eq!(split_budget(&vec![2], 10), vec![10]);
    assert_eq!(split_budget(&vec![0, 0], 10), vec![0, 0]);
    assert_eq!(split_budget(&vec![], 10), Vec::<usize>::new());
    let shares = split_budget(&vec![3, 5, 7, 11], 1000);
    assert!(shares.iter().sum::<usize>() <= 1000);
    let big = split_budget(&vec![u64::MAX, u64::MAX], usize::MAX);
    assert!(big.iter().map(|x| *x as u128).sum::<u128>() <= usize::MAX as u128);
}

#[test]
fn square_root_rounds_down() {
    assert_eq!(floor_sqrt(0), 0);
    assert_eq!(floor_sqrt(1), 1);
    assert_eq!(floor_sqrt(15), 3);
    assert_eq!(floor_sqrt(16), 4);
    assert_eq!(floor_sqrt(1 << 32), 1 << 16);
    assert_eq!(floor_sqrt(u128::MAX), u64::MAX);
}

#[test]
fn visit_roots_add_square_roots() {
    let mut scores: Vec<u128> = vec![0, 10, 0];
    add_visit_roots(&mut scores, &vec![1, 4, 0]);
    assert_eq!(scores, vec![65536, 10 + 131072, 0]);
    add_visit_roots(&mut scores, &vec![2, 0, 0]);
    assert_eq!(scores[0], 65536 + 92681);
}

#[test]
fn ranking_orders_by_score_then_position() {
    let scores: Vec<u128> = vec![5, 0, 9, 5, 7];
    let excluded = vec![false, false, false, false, true];
    assert_eq!(rank_by_score(&scores, &excluded), vec![2, 0, 3]);
    assert_eq!(rank_by_score(&vec![], &vec![]), Vec::<usize>::new());
}
