use saddle_ai_utility_ai::arbitration::{chosen_action, selection_pool, ActionStanding, SelectionPool};
use saddle_ai_utility_ai::selection::{plan_selection, SelectionPlan};
use saddle_ai_utility_ai::{PriorityTier, Real32, SelectionStrategy};

fn standing(priority: u8, threshold: f32, score: f32) -> ActionStanding {
    ActionStanding {
        is_fallback: false,
        suppressed: false,
        priority: PriorityTier(priority),
        priority_threshold: Real32(threshold.to_bits()),
        momentum_score: Real32(score.to_bits()),
    }
}

fn pick(standings: &Vec<ActionStanding>) -> Option<usize> {
    pick_with(standings, SelectionStrategy::HighestScore)
}

fn pick_with(standings: &Vec<ActionStanding>, strategy: SelectionStrategy) -> Option<usize> {
    let pool = selection_pool(standings);
    let scores: Vec<Real32> = pool.pool.iter().map(|i| standings[*i].momentum_score).collect();
    let index = match plan_selection(&scores, &strategy, 1) {
        SelectionPlan::Chosen(index) => index,
        other => panic!("unexpected plan {other:?}"),
    };
    chosen_action(&pool, index)
}

#[test]
fn disabled_fallback_is_not_selected() {
    let standings = vec![ActionStanding {
        is_fallback: true,
        suppressed: true,
        ..standing(10, 0.0, 0.0)
    }];
    let pool = selection_pool(&standings);
    assert_eq!(pool, SelectionPool { pool: vec![], fallback: None });
    assert_eq!(pick(&standings), None);
}

#[test]
fn fallback_stands_in_when_nothing_scores() {
    let standings = vec![
        standing(10, 0.0, 0.0),
        ActionStanding {
            is_fallback: true,
            ..standing(20, 0.0, 0.0)
        },
        ActionStanding {
            is_fallback: true,
            ..standing(20, 0.0, 0.0)
        },
    ];
    assert_eq!(selection_pool(&standings).fallback, Some(1));
    assert_eq!(pick(&standings), Some(1));
}

#[test]
fn first_tier_meeting_its_threshold_wins() {
    let standings = vec![
        standing(20, 0.0, 0.9),
        standing(0, 0.8, 0.5),
        standing(10, 0.4, 0.45),
        standing(10, 0.9, 0.3),
    ];
    let pool = selection_pool(&standings);
    assert_eq!(pool.pool, vec![2, 3]);
    assert_eq!(pick(&standings), Some(2));
}

#[test]
fn without_any_tier_threshold_every_eligible_action_competes() {
    let standings = vec![
        standing(20, 0.95, 0.9),
        standing(0, 0.99, 0.5),
        standing(0, 0.99, 0.6),
    ];
    let pool = selection_pool(&standings);
    assert_eq!(pool.pool, vec![1, 2, 0]);
    assert_eq!(pick(&standings), Some(0));
}

#[test]
fn suppressed_and_zero_scores_stay_out() {
    let standings = vec![
        ActionStanding {
            suppressed: true,
            ..standing(10, 0.0, 0.9)
        },
        standing(10, 0.0, 0.0),
        standing(10, 0.0, f32::NAN),
        standing(10, 0.0, 0.2),
    ];
    assert_eq!(selection_pool(&standings).pool, vec![3]);
}

#[test]
fn chosen_action_maps_pool_index() {
    let pool = SelectionPool {
        pool: vec![4, 2],
        fallback: Some(0),
    };
    assert_eq!(chosen_action(&pool, Some(1)), Some(2));
    assert_eq!(chosen_action(&pool, None), None);
    assert_eq!(chosen_action(&pool, Some(5)), None);
    let empty = SelectionPool {
        pool: vec![],
        fallback: Some(3),
    };
    assert_eq!(chosen_action(&empty, None), Some(3));
}

#[test]
fn threshold_first_takes_the_first_declared_action_of_the_tier() {
    let standings = vec![standing(10, 0.0, 0.9), standing(10, 0.0, 0.9)];
    assert_eq!(selection_pool(&standings).pool, vec![0, 1]);
    let threshold = SelectionStrategy::ThresholdFirst {
        threshold: Real32(0.5f32.to_bits()),
    };
    assert_eq!(pick_with(&standings, threshold), Some(0));
    assert_eq!(pick(&standings), Some(0));
}
