use saddle_ai_utility_ai::selection::{
    highest_score_index, mix_u64, plan_selection, positive_indices, ranked_positive_indices,
    threshold_first, uniform_pick, PriorityTier, SelectionPlan, SelectionStrategy,
};
use saddle_ai_utility_ai::Real32;

fn num(value: f32) -> Real32 {
    Real32(value.to_bits())
}

fn reals(values: &[f32]) -> Vec<Real32> {
    values.iter().copied().map(num).collect()
}

fn chosen(scores: &[f32], strategy: SelectionStrategy, seed: u64) -> Option<usize> {
    match plan_selection(&reals(scores), &strategy, seed) {
        SelectionPlan::Chosen(index) => index,
        other => panic!("expected a decided pick, got {other:?}"),
    }
}

fn reference_mix(mut state: u64) -> u64 {
    state = state.wrapping_add(0x9E37_79B9_7F4A_7C15);
    state = (state ^ (state >> 30)).wrapping_mul(0xBF58_476D_1CE4_E5B9);
    state = (state ^ (state >> 27)).wrapping_mul(0x94D0_49BB_1331_11EB);
    state ^ (state >> 31)
}

#[test]
fn highest_score_is_deterministic() {
    let index = chosen(&[0.2, 0.8, 0.5], SelectionStrategy::HighestScore, 7);
    assert_eq!(index, Some(1));
}

#[test]
fn threshold_first_uses_order() {
    let index = chosen(
        &[0.3, 0.7, 0.9],
        SelectionStrategy::ThresholdFirst { threshold: num(0.65) },
        7,
    );
    assert_eq!(index, Some(1));
}

#[test]
fn weighted_random_excludes_zero_scores() {
    for seed in 0..16 {
        let plan = plan_selection(&reals(&[0.0, 0.0, 0.9]), &SelectionStrategy::WeightedRandom, seed);
        assert_eq!(plan, SelectionPlan::Weighted { candidates: vec![2] });
    }
}

#[test]
fn top_n_random_never_returns_outside_top_n() {
    for seed in 0..32 {
        let index = chosen(
            &[0.9, 0.8, 0.2, 0.1],
            SelectionStrategy::TopNRandom { count: 2 },
            seed,
        )
        .unwrap();
        assert!(index == 0 || index == 1);
    }
}

#[test]
fn no_strategy_returns_out_of_range_index() {
    let strategies = [
        SelectionStrategy::HighestScore,
        SelectionStrategy::WeightedRandom,
        SelectionStrategy::TopNRandom { count: 3 },
        SelectionStrategy::ThresholdFirst { threshold: num(0.1) },
        SelectionStrategy::TopBandRandom {
            percent_within_best: num(0.2),
        },
    ];

    for strategy in strategies {
        for seed in 0..16 {
            match plan_selection(&reals(&[0.4, 0.6, 0.5]), &strategy, seed) {
                SelectionPlan::Chosen(index) => assert!(index.unwrap() < 3),
                SelectionPlan::Weighted { candidates } | SelectionPlan::Band { candidates, .. } => {
                    assert!(!candidates.is_empty());
                    assert!(candidates.iter().all(|index| *index < 3));
                }
            }
        }
    }
}

#[test]
fn mix_matches_splitmix_finaliser() {
    for seed in [0u64, 1, 7, 99, 0xFFFF_FFFF_FFFF_FFFF, 0x1234_5678_9ABC_DEF0] {
        assert_eq!(mix_u64(seed), reference_mix(seed));
    }
    assert_eq!(mix_u64(0), 0xE220_A839_7B1D_CDAF);
}

#[test]
fn nothing_positive_means_no_pick() {
    let scores = [0.0, -0.5, f32::NAN, f32::INFINITY];
    for strategy in [
        SelectionStrategy::HighestScore,
        SelectionStrategy::WeightedRandom,
        SelectionStrategy::TopNRandom { count: 2 },
        SelectionStrategy::ThresholdFirst { threshold: num(-1.0) },
    ] {
        assert_eq!(plan_selection(&reals(&scores), &strategy, 3), SelectionPlan::Chosen(None));
    }
}

#[test]
fn highest_score_prefers_lowest_index_on_ties() {
    assert_eq!(highest_score_index(&reals(&[0.5, 0.9, 0.9, 0.1])), Some(1));
    assert_eq!(highest_score_index(&reals(&[0.0, f32::NAN])), None);
}

#[test]
fn threshold_first_can_take_a_zero_score_when_something_is_positive() {
    // The threshold pick runs over every finite score once any score is positive.
    let index = chosen(
        &[0.0, 0.5],
        SelectionStrategy::ThresholdFirst { threshold: num(0.0) },
        1,
    );
    assert_eq!(index, Some(0));
    assert_eq!(threshold_first(&reals(&[0.2, 0.3]), num(0.9)), None);
}

#[test]
fn positive_indices_skip_zero_negative_and_non_finite() {
    let scores = reals(&[0.1, 0.0, -0.2, f32::NAN, 0.3, f32::INFINITY, -0.0]);
    assert_eq!(positive_indices(&scores), vec![0, 4]);
}

#[test]
fn ranking_is_best_first_with_index_ties() {
    let scores = reals(&[0.2, 0.9, 0.0, 0.9, 0.5]);
    assert_eq!(ranked_positive_indices(&scores), vec![1, 3, 4, 0]);
}

#[test]
fn uniform_pick_uses_mixed_seed() {
    let indices = vec![10, 20, 30];
    for seed in 0..8u64 {
        let slot = (reference_mix(seed) as usize) % 3;
        assert_eq!(uniform_pick(&indices, seed), Some(indices[slot]));
    }
    assert_eq!(uniform_pick(&Vec::new(), 5), None);
}

#[test]
fn top_band_plan_carries_best_score() {
    let plan = plan_selection(
        &reals(&[0.95, 0.92, 0.4]),
        &SelectionStrategy::TopBandRandom {
            percent_within_best: num(0.05),
        },
        4,
    );
    assert_eq!(
        plan,
        SelectionPlan::Band {
            candidates: vec![0, 1, 2],
            best: num(0.95),
            percent_within_best: num(0.05),
        }
    );
}

#[test]
fn top_n_with_zero_count_takes_the_best() {
    for seed in 0..8 {
        assert_eq!(
            chosen(&[0.3, 0.8, 0.5], SelectionStrategy::TopNRandom { count: 0 }, seed),
            Some(1)
        );
    }
}

#[test]
fn priority_tiers_have_documented_values() {
    assert_eq!(PriorityTier::critical(), PriorityTier(0));
    assert_eq!(PriorityTier::tactical(), PriorityTier(10));
    assert_eq!(PriorityTier::flavor(), PriorityTier(20));
    assert!(PriorityTier::critical() < PriorityTier::tactical());
    assert_eq!(SelectionStrategy::default(), SelectionStrategy::HighestScore);
}
