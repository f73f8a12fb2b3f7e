use saddle_ai_utility_ai::scheduling::{
    collect_due_agents, finish_evaluation, DueCandidate, EvaluationBookkeeping, NextDeadline,
};
use saddle_ai_utility_ai::sorting::set_positions;
use saddle_ai_utility_ai::{EvaluationMode, Real32, UtilityAiBudget};

fn candidate(agent: u64, next: f32) -> DueCandidate {
    DueCandidate {
        agent,
        enabled: true,
        pending_request: false,
        mode: EvaluationMode::Interval,
        next_evaluation_at: Real32(next.to_bits()),
    }
}

#[test]
fn frame_budget_spills_due_agents_across_updates() {
    let now = Real32(0.016f32.to_bits());
    let candidates = vec![
        DueCandidate {
            pending_request: true,
            ..candidate(1, 0.0)
        },
        DueCandidate {
            pending_request: true,
            ..candidate(2, 0.0)
        },
    ];
    let batch = collect_due_agents(&candidates, now, 1);
    assert_eq!(batch.due.len(), 1);
    assert_eq!(batch.skipped_due_to_budget, 1);
    assert_eq!(batch.due, vec![0]);
}

#[test]
fn overdue_agents_come_first() {
    let now = Real32(10.0f32.to_bits());
    let candidates = vec![
        candidate(5, 3.0),
        candidate(6, 1.0),
        candidate(7, 12.0),
        candidate(8, 1.0),
        candidate(4, 2.0),
    ];
    let batch = collect_due_agents(&candidates, now, 128);
    assert_eq!(batch.due, vec![1, 3, 4, 0]);
    assert_eq!(batch.skipped_due_to_budget, 0);

    let tight = collect_due_agents(&candidates, now, 2);
    assert_eq!(tight.due, vec![1, 3]);
    assert_eq!(tight.skipped_due_to_budget, 2);
}

#[test]
fn disabled_and_manual_agents_wait_for_requests() {
    let now = Real32(10.0f32.to_bits());
    let candidates = vec![
        DueCandidate {
            enabled: false,
            pending_request: true,
            ..candidate(1, 0.0)
        },
        DueCandidate {
            mode: EvaluationMode::Manual,
            ..candidate(2, 0.0)
        },
        DueCandidate {
            mode: EvaluationMode::Manual,
            pending_request: true,
            next_evaluation_at: Real32(f32::INFINITY.to_bits()),
            ..candidate(3, 0.0)
        },
    ];
    let batch = collect_due_agents(&candidates, now, 8);
    assert_eq!(batch.due, vec![2]);
}

#[test]
fn ties_on_deadline_break_by_agent_identity() {
    let now = Real32(1.0f32.to_bits());
    let candidates = vec![candidate(9, 0.5), candidate(3, 0.5), candidate(6, 0.5)];
    assert_eq!(collect_due_agents(&candidates, now, 8).due, vec![1, 2, 0]);
}

#[test]
fn zero_budget_skips_everyone() {
    let now = Real32(1.0f32.to_bits());
    let candidates = vec![candidate(1, 0.5), candidate(2, 0.5)];
    let batch = collect_due_agents(&candidates, now, 0);
    assert!(batch.due.is_empty());
    assert_eq!(batch.skipped_due_to_budget, 2);
    assert_eq!(UtilityAiBudget::default().max_agents_per_update, 128);
}

#[test]
fn finishing_an_evaluation_serves_the_request_and_schedules_by_mode() {
    assert_eq!(
        finish_evaluation(EvaluationMode::Interval, 4),
        EvaluationBookkeeping {
            pending_request: false,
            evaluation_count: 5,
            next_deadline: NextDeadline::AfterInterval,
        }
    );
    assert_eq!(
        finish_evaluation(EvaluationMode::Manual, u64::MAX),
        EvaluationBookkeeping {
            pending_request: false,
            evaluation_count: u64::MAX,
            next_deadline: NextDeadline::Never,
        }
    );
}

#[test]
fn set_positions_lists_flagged_entries_in_order() {
    assert_eq!(set_positions(&vec![false, true, true, false, true]), vec![1, 2, 4]);
    assert!(set_positions(&vec![]).is_empty());
}
