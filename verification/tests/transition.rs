use saddle_ai_utility_ai::transition::{
    decide_transition, ActionChange, ActiveSlot, CurrentAction, TransitionOutcome,
};
use saddle_ai_utility_ai::{ActionChangeReason, ActionLifecycle};

fn slot(action: Option<u64>, label: Option<&str>, switches: u32) -> ActiveSlot {
    ActiveSlot {
        action,
        label: label.map(|text| text.to_string()),
        switch_count: switches,
    }
}

fn running() -> CurrentAction {
    CurrentAction {
        lifecycle: ActionLifecycle::Requested,
        interruptible: true,
        within_commitment: false,
        within_hysteresis: false,
    }
}

#[test]
fn initial_selection_requests_the_pick() {
    let outcome = decide_transition(&slot(None, None, 0), None, Some(7), &Some("advance".into()))
        .unwrap();
    assert_eq!(outcome.requested, Some(7));
    assert_eq!(outcome.active, slot(Some(7), Some("advance"), 1));
    assert_eq!(
        outcome.change,
        Some(ActionChange {
            previous_action: None,
            next_action: Some(7),
            previous_label: None,
            next_label: Some("advance".into()),
            reason: ActionChangeReason::InitialSelection,
        })
    );
}

#[test]
fn action_changed_message_emits_on_switch() {
    let outcome = decide_transition(&slot(Some(1), Some("a"), 1), Some(running()), Some(2), &Some("b".into()))
        .unwrap();
    let change = outcome.change.unwrap();
    assert_eq!(change.previous_label.as_deref(), Some("a"));
    assert_eq!(change.next_label.as_deref(), Some("b"));
    assert_eq!(change.reason, ActionChangeReason::BetterScore);
    assert_eq!(outcome.cancelled, Some(1));
    assert_eq!(outcome.requested, Some(2));
    assert_eq!(outcome.active.switch_count, 2);
}

#[test]
fn holds_keep_the_current_action() {
    let cases = [
        (
            CurrentAction {
                interruptible: false,
                ..running()
            },
            ActionChangeReason::NonInterruptible,
        ),
        (
            CurrentAction {
                within_commitment: true,
                ..running()
            },
            ActionChangeReason::CommitmentHold,
        ),
        (
            CurrentAction {
                within_hysteresis: true,
                ..running()
            },
            ActionChangeReason::HysteresisHold,
        ),
    ];
    for (current, reason) in cases {
        let outcome = decide_transition(&slot(Some(1), Some("a"), 3), Some(current), Some(2), &Some("b".into()))
            .unwrap();
        assert_eq!(outcome.switch_reason, Some(reason));
        assert_eq!(outcome.change, None);
        assert_eq!(outcome.cancelled, None);
        assert_eq!(outcome.requested, None);
        assert_eq!(outcome.active, slot(Some(1), Some("a"), 3));
    }
}

#[test]
fn completed_action_emits_message_and_restarts_cooldown() {
    let finished = CurrentAction {
        lifecycle: ActionLifecycle::Success,
        ..running()
    };
    let outcome = decide_transition(&slot(Some(4), Some("execute"), 1), Some(finished), None, &None).unwrap();
    assert_eq!(outcome.completed, Some((4, ActionLifecycle::Success)));
    assert_eq!(outcome.active, slot(None, None, 2));
    assert_eq!(outcome.switch_reason, Some(ActionChangeReason::ActionFinished));
    assert_eq!(outcome.change.unwrap().reason, ActionChangeReason::ActionFinished);
}

#[test]
fn finished_action_picked_again_stays_active() {
    let finished = CurrentAction {
        lifecycle: ActionLifecycle::Failure,
        ..running()
    };
    let outcome = decide_transition(&slot(Some(4), Some("execute"), 1), Some(finished), Some(4), &Some("execute".into()))
        .unwrap();
    assert_eq!(outcome.completed, Some((4, ActionLifecycle::Failure)));
    assert_eq!(outcome.requested, Some(4));
    assert_eq!(outcome.winner, Some(4));
    assert_eq!(outcome.change, None);
    assert_eq!(outcome.active, slot(Some(4), Some("execute"), 1));
}

#[test]
fn no_pick_keeps_the_current_action() {
    let outcome = decide_transition(&slot(Some(1), Some("a"), 1), Some(running()), None, &None).unwrap();
    assert_eq!(outcome.switch_reason, Some(ActionChangeReason::NoBetterChoice));
    assert_eq!(outcome.active, slot(Some(1), Some("a"), 1));
    assert_eq!(outcome.change, None);
}

#[test]
fn same_pick_changes_nothing() {
    let outcome = decide_transition(&slot(Some(1), Some("a"), 1), Some(running()), Some(1), &Some("a".into()))
        .unwrap();
    assert_eq!(
        outcome,
        TransitionOutcome {
            completed: None,
            cancelled: None,
            requested: None,
            winner: Some(1),
            switch_reason: None,
            change: None,
            active: slot(Some(1), Some("a"), 1),
        }
    );
}

#[test]
fn unreadable_current_action_skips_the_agent() {
    assert_eq!(decide_transition(&slot(Some(1), Some("a"), 1), None, Some(2), &Some("b".into())), None);
}

#[test]
fn switch_count_saturates() {
    let outcome = decide_transition(&slot(None, None, u32::MAX), None, Some(3), &None).unwrap();
    assert_eq!(outcome.active.switch_count, u32::MAX);
}
