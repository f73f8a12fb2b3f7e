use saddle_ai_utility_ai::scoring::{
    action_suppression_reason, composition_census, consideration_use, CompositionCensus, evaluation_order, keeps_target, restarts_cooldown,
    should_short_circuit, target_trace_source, CandidateIdentity, CompositionStrategy, ConsiderationUse,
    SuppressionFacts, TargetTraceSource,
};
use saddle_ai_utility_ai::{
    ActionLifecycle, ActionSuppressionReason, ConsiderationCost, Real32, TargetKey, TargetRequirement,
};

fn num(value: f32) -> Real32 {
    Real32(value.to_bits())
}

fn facts(score: f32) -> SuppressionFacts {
    SuppressionFacts {
        enabled: true,
        is_fallback: false,
        target_requirement: TargetRequirement::Optional,
        cooldown_remaining: num(0.0),
        minimum_score: num(0.0),
        has_target_candidates: false,
        missing_selected_target: true,
        score: num(score),
    }
}

#[test]
fn cost_classes_order_cheap_first() {
    assert_eq!(ConsiderationCost::Cheap.order(), 0);
    assert_eq!(ConsiderationCost::SharedCache.order(), 1);
    assert_eq!(ConsiderationCost::Expensive.order(), 2);
    assert_eq!(ConsiderationCost::TargetDependent.order(), 3);
    let costs = vec![
        ConsiderationCost::Expensive,
        ConsiderationCost::Cheap,
        ConsiderationCost::TargetDependent,
        ConsiderationCost::Cheap,
        ConsiderationCost::SharedCache,
    ];
    assert_eq!(evaluation_order(&costs), vec![1, 3, 4, 0, 2]);
}

#[test]
fn multiplicative_actions_short_circuit_after_zero_score() {
    let costs = vec![ConsiderationCost::Cheap, ConsiderationCost::Expensive];
    let order = evaluation_order(&costs);
    assert_eq!(order, vec![0, 1]);
    assert!(should_short_circuit(&CompositionStrategy::Multiplicative, true, num(0.0)));
    assert!(!should_short_circuit(&CompositionStrategy::Multiplicative, false, num(0.0)));
    assert!(!should_short_circuit(&CompositionStrategy::Multiplicative, true, num(0.1)));
    assert!(!should_short_circuit(&CompositionStrategy::GeometricMean, true, num(0.0)));
    assert_eq!(
        action_suppression_reason(&facts(0.0)),
        Some(ActionSuppressionReason::ZeroScore)
    );
}

#[test]
fn suppression_reasons_follow_their_order() {
    assert_eq!(
        action_suppression_reason(&SuppressionFacts {
            enabled: false,
            ..facts(0.9)
        }),
        Some(ActionSuppressionReason::Disabled)
    );
    assert_eq!(
        action_suppression_reason(&SuppressionFacts {
            cooldown_remaining: num(0.5),
            ..facts(0.9)
        }),
        Some(ActionSuppressionReason::Cooldown)
    );
    assert_eq!(
        action_suppression_reason(&SuppressionFacts {
            target_requirement: TargetRequirement::Required,
            ..facts(0.9)
        }),
        Some(ActionSuppressionReason::NoTarget)
    );
    assert_eq!(
        action_suppression_reason(&facts(f32::NAN)),
        Some(ActionSuppressionReason::InvalidInput)
    );
    assert_eq!(
        action_suppression_reason(&SuppressionFacts {
            is_fallback: true,
            ..facts(0.0)
        }),
        None
    );
    assert_eq!(
        action_suppression_reason(&SuppressionFacts {
            minimum_score: num(0.5),
            ..facts(0.4)
        }),
        Some(ActionSuppressionReason::BelowMinimumScore)
    );
    assert_eq!(action_suppression_reason(&facts(0.4)), None);
}

#[test]
fn considerations_take_part_only_with_enabled_finite_inputs() {
    assert_eq!(consideration_use(false, true, Some(num(0.5))), ConsiderationUse::Skipped);
    assert_eq!(consideration_use(true, false, Some(num(0.5))), ConsiderationUse::Skipped);
    assert_eq!(consideration_use(true, true, None), ConsiderationUse::Skipped);
    assert_eq!(
        consideration_use(true, true, Some(num(0.5))),
        ConsiderationUse::Evaluated { counts: true }
    );
    assert_eq!(
        consideration_use(true, true, Some(num(f32::NAN))),
        ConsiderationUse::Evaluated { counts: false }
    );
}

#[test]
fn cooldown_restarts_follow_the_lifecycle() {
    assert!(restarts_cooldown(ActionLifecycle::Success, true, false, false));
    assert!(!restarts_cooldown(ActionLifecycle::Success, false, true, true));
    assert!(restarts_cooldown(ActionLifecycle::Failure, false, true, false));
    assert!(restarts_cooldown(ActionLifecycle::Cancelled, false, false, true));
    assert!(!restarts_cooldown(ActionLifecycle::Executing, true, true, true));
    assert!(ActionLifecycle::Cancelled.is_terminal());
    assert!(!ActionLifecycle::Requested.is_terminal());
}

#[test]
fn targets_need_positive_scores() {
    assert!(keeps_target(true, num(0.2)));
    assert!(!keeps_target(false, num(0.2)));
    assert!(!keeps_target(true, num(0.0)));
}

#[test]
fn target_trace_source_finds_matching_candidate() {
    let candidates = vec![
        CandidateIdentity {
            key: TargetKey(11),
            entity: None,
        },
        CandidateIdentity {
            key: TargetKey(22),
            entity: None,
        },
    ];
    assert_eq!(
        target_trace_source(Some(TargetKey(22)), None, true, &candidates),
        TargetTraceSource::Candidate(1)
    );
    assert_eq!(
        target_trace_source(Some(TargetKey(22)), Some(5), true, &candidates),
        TargetTraceSource::StoredTarget
    );
    assert_eq!(
        target_trace_source(Some(TargetKey(33)), None, false, &candidates),
        TargetTraceSource::NoTarget
    );
    assert_eq!(
        target_trace_source(None, None, true, &candidates),
        TargetTraceSource::NoTarget
    );
}

#[test]
fn census_counts_enabled_operands_and_zero_hits() {
    let census = composition_census(&vec![(true, num(0.5)), (false, num(0.0)), (true, num(0.25))]);
    assert_eq!(
        census,
        CompositionCensus {
            evaluated_count: 2,
            zero_hit: false,
        }
    );
    let census = composition_census(&vec![(true, num(1.0)), (true, num(0.0))]);
    assert_eq!(
        census,
        CompositionCensus {
            evaluated_count: 2,
            zero_hit: true,
        }
    );
    assert_eq!(
        composition_census(&vec![]),
        CompositionCensus {
            evaluated_count: 0,
            zero_hit: false,
        }
    );
}
