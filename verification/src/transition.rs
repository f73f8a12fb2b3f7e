use vstd::prelude::*;

use crate::components::{ActionChangeReason, ActionLifecycle};

verus! {

/// The agent's record of its active action (times are kept by the caller).
#[derive(Debug, PartialEq, Eq)]
pub struct ActiveSlot {
    pub action: Option<u64>,
    pub label: Option<String>,
    pub switch_count: u32,
}

/// What the transition step knows of the currently active action.
#[derive(Clone, Copy, Debug, PartialEq, Eq, Structural)]
pub struct CurrentAction {
    pub lifecycle: ActionLifecycle,
    pub interruptible: bool,
    /// It has been active for less than its minimum commitment.
    pub within_commitment: bool,
    /// The selected action's score does not clear the current action's
    /// score by more than the hysteresis band.
    pub within_hysteresis: bool,
}

/// A change of the active action, as announced to listeners and recorded
/// in the history.
#[derive(Debug, PartialEq, Eq)]
pub struct ActionChange {
    pub previous_action: Option<u64>,
    pub next_action: Option<u64>,
    pub previous_label: Option<String>,
    pub next_label: Option<String>,
    pub reason: ActionChangeReason,
}

/// Everything one transition step decides for an agent.
#[derive(Debug, PartialEq, Eq)]
pub struct TransitionOutcome {
    /// The active action ended: report it, restart its cooldown as its
    /// lifecycle asks, and set it back to idle.
    pub completed: Option<(u64, ActionLifecycle)>,
    /// This action is interrupted: mark it cancelled, restart its cooldown
    /// on cancel.
    pub cancelled: Option<u64>,
    /// This action is requested to run.
    pub requested: Option<u64>,
    /// The action that holds the agent after this step (the trace's winner).
    pub winner: Option<u64>,
    /// Why the step ended as it did, if anything happened.
    pub switch_reason: Option<ActionChangeReason>,
    /// Present exactly when the winner differs from the previous action.
    pub change: Option<ActionChange>,
    /// The agent's record after the step.
    pub active: ActiveSlot,
}

/// Why a better-scoring action does not replace the current one, if it does not.
pub open spec fn hold_reason(current: CurrentAction) -> Option<ActionChangeReason> {
    if !current.interruptible {
        Some(ActionChangeReason::NonInterruptible)
    } else if current.within_commitment {
        Some(ActionChangeReason::CommitmentHold)
    } else if current.within_hysteresis {
        Some(ActionChangeReason::HysteresisHold)
    } else {
        None
    }
}

/// The active action has ended (success, failure or cancellation).
pub open spec fn finished(active: Option<u64>, current: Option<CurrentAction>) -> bool {
    &&& active is Some
    &&& current matches Some(c) && c.lifecycle.terminal()
}

/// One transition step, as a decision table over the agent's active
/// action, what is known of it, and the action selection picked.
/// `None` when the active action can no longer be read while a different
/// action was picked: the agent is left untouched this time.
pub open spec fn transition_of(
    active: ActiveSlot,
    current: Option<CurrentAction>,
    selected: Option<u64>,
    selected_label: Option<String>,
) -> Option<TransitionOutcome> {
    let done = finished(active.action, current);
    let completed = if done {
        Some((active.action->0, current->0.lifecycle))
    } else {
        None::<(u64, ActionLifecycle)>
    };
    let held = if done {
        None::<u64>
    } else {
        active.action
    };
    let held_label = if done {
        None::<String>
    } else {
        active.label
    };
    let finish_reason = if done {
        Some(ActionChangeReason::ActionFinished)
    } else {
        None
    };
    // (winner, winner label, reason, cancelled, requested), or None to skip
    let step: Option<(Option<u64>, Option<String>, Option<ActionChangeReason>, Option<u64>, Option<u64>)> =
        match (held, selected) {
        (Some(c), Some(s)) => if c == s {
            Some((held, held_label, finish_reason, None, None))
        } else {
            match current {
                None => None,
                Some(info) => match hold_reason(info) {
                    Some(why) => Some((held, held_label, Some(why), None, None)),
                    None => Some(
                        (
                            Some(s),
                            selected_label,
                            Some(ActionChangeReason::BetterScore),
                            Some(c),
                            Some(s),
                        ),
                    ),
                },
            }
        },
        (Some(_), None) => Some(
            (held, held_label, Some(ActionChangeReason::NoBetterChoice), None, None),
        ),
        (None, Some(s)) => Some(
            (
                Some(s),
                selected_label,
                if done {
                    Some(ActionChangeReason::ActionFinished)
                } else {
                    Some(ActionChangeReason::InitialSelection)
                },
                None,
                Some(s),
            ),
        ),
        (None, None) => Some((None, held_label, finish_reason, None, None)),
    };
    match step {
        None => None,
        Some((winner, winner_label, reason, cancelled, requested)) => {
            let changed = winner != active.action;
            Some(
                TransitionOutcome {
                    completed,
                    cancelled,
                    requested,
                    winner,
                    switch_reason: reason,
                    change: if changed {
                        Some(
                            ActionChange {
                                previous_action: active.action,
                                next_action: winner,
                                previous_label: active.label,
                                next_label: winner_label,
                                reason: match reason {
                                    Some(why) => why,
                                    None => ActionChangeReason::InitialSelection,
                                },
                            },
                        )
                    } else {
                        None
                    },
                    active: ActiveSlot {
                        action: winner,
                        label: winner_label,
                        switch_count: if !changed {
                            active.switch_count
                        } else if active.switch_count == u32::MAX {
                            u32::MAX
                        } else {
                            (active.switch_count + 1) as u32
                        },
                    },
                },
            )
        },
    }
}

fn copy_label(label: &Option<String>) -> (r: Option<String>)
    ensures
        r == *label,
{
    match label {
        Some(text) => Some(text.clone()),
        None => None,
    }
}

/// Decides one transition step for an agent: finishes an ended action,
/// keeps or replaces the active action (respecting interruptibility,
/// minimum commitment and hysteresis) and reports a change when the
/// active action actually changes.
pub fn decide_transition(
    active: &ActiveSlot,
    current: Option<CurrentAction>,
    selected: Option<u64>,
    selected_label: &Option<String>,
) -> (r: Option<TransitionOutcome>)
    ensures
        r == transition_of(*active, current, selected, *selected_label),
{
    let done = match (active.action, current) {
        (Some(_), Some(info)) => info.lifecycle.is_terminal(),
        _ => false,
    };
    let completed = if done {
        match (active.action, current) {
            (Some(a), Some(info)) => Some((a, info.lifecycle)),
            _ => None,
        }
    } else {
        None
    };
    let held = if done {
        None
    } else {
        active.action
    };
    let held_label = if done {
        None
    } else {
        copy_label(&active.label)
    };
    let mut winner = held;
    let mut winner_label = held_label;
    let mut reason = if done {
        Some(ActionChangeReason::ActionFinished)
    } else {
        None
    };
    let mut cancelled: Option<u64> = None;
    let mut requested: Option<u64> = None;
    match (held, selected) {
        (Some(c), Some(s)) => {
            if c != s {
                match current {
                    None => {
                        return None;
                    },
                    Some(info) => {
                        if !info.interruptible {
                            reason = Some(ActionChangeReason::NonInterruptible);
                        } else if info.within_commitment {
                            reason = Some(ActionChangeReason::CommitmentHold);
                        } else if info.within_hysteresis {
                            reason = Some(ActionChangeReason::HysteresisHold);
                        } else {
                            cancelled = Some(c);
                            requested = Some(s);
                            winner = Some(s);
                            winner_label = copy_label(selected_label);
                            reason = Some(ActionChangeReason::BetterScore);
                        }
                    },
                }
            }
        },
        (Some(_), None) => {
            reason = Some(ActionChangeReason::NoBetterChoice);
        },
        (None, Some(s)) => {
            requested = Some(s);
            winner = Some(s);
            winner_label = copy_label(selected_label);
            if !done {
                reason = Some(ActionChangeReason::InitialSelection);
            }
        },
        (None, None) => {},
    }
    let changed = winner != active.action;
    let change = if changed {
        Some(
            ActionChange {
                previous_action: active.action,
                next_action: winner,
                previous_label: copy_label(&active.label),
                next_label: copy_label(&winner_label),
                reason: match reason {
                    Some(why) => why,
                    None => ActionChangeReason::InitialSelection,
                },
            },
        )
    } else {
        None
    };
    let slot = ActiveSlot {
        action: winner,
        label: winner_label,
        switch_count: if changed {
            active.switch_count.saturating_add(1)
        } else {
            active.switch_count
        },
    };
    Some(
        TransitionOutcome {
            completed,
            cancelled,
            requested,
            winner,
            switch_reason: reason,
            change,
            active: slot,
        },
    )
}

/// A change is announced exactly when the action holding the agent after
/// the step differs from the one before it, and the switch counter moves
/// by one (saturating) exactly then.
pub proof fn lemma_change_announced_iff_action_changes(
    active: ActiveSlot,
    current: Option<CurrentAction>,
    selected: Option<u64>,
    selected_label: Option<String>,
)
    ensures
        transition_of(active, current, selected, selected_label) matches Some(o) ==> {
            &&& (o.change is Some <==> o.winner != active.action)
            &&& o.change matches Some(c) ==> c.previous_action == active.action && c.next_action
                == o.winner && o.active.action == o.winner
            &&& o.change is Some ==> o.active.switch_count == (if active.switch_count == u32::MAX {
                u32::MAX
            } else {
                (active.switch_count + 1) as u32
            })
            &&& o.change is None ==> o.active.switch_count == active.switch_count
            &&& o.active.action == o.winner
        },
{
}

/// An active action that has not ended and refuses to be replaced (it is
/// not interruptible, still within its minimum commitment, or the new
/// score does not clear the hysteresis band) stays active: it is neither
/// cancelled nor replaced, and no change is announced.
pub proof fn lemma_held_action_stays(
    active: ActiveSlot,
    info: CurrentAction,
    selected: Option<u64>,
    selected_label: Option<String>,
)
    requires
        active.action is Some,
        !info.lifecycle.terminal(),
        hold_reason(info) is Some,
    ensures
        transition_of(active, Some(info), selected, selected_label) matches Some(o) && o.cancelled
            is None && o.change is None && o.active.action == active.action && o.active.label
            == active.label,
{
}

/// An active action that has not ended (whatever its non-terminal
/// lifecycle, executing included), is interruptible, is past its minimum
/// commitment and outside the hysteresis band gives way to a different
/// pick: it is cancelled, the pick is requested and becomes the active
/// action, and the change is announced with reason `BetterScore`.
pub proof fn lemma_interruptible_action_yields_to_different_pick(
    active: ActiveSlot,
    info: CurrentAction,
    pick: u64,
    selected_label: Option<String>,
)
    requires
        active.action is Some,
        active.action != Some(pick),
        !info.lifecycle.terminal(),
        info.interruptible,
        !info.within_commitment,
        !info.within_hysteresis,
    ensures
        transition_of(active, Some(info), Some(pick), selected_label) matches Some(o) && {
            &&& o.completed is None
            &&& o.cancelled == active.action
            &&& o.requested == Some(pick)
            &&& o.winner == Some(pick)
            &&& o.switch_reason == Some(ActionChangeReason::BetterScore)
            &&& o.active.action == Some(pick)
            &&& o.active.label == selected_label
            &&& o.change matches Some(ch) && ch.previous_action == active.action && ch.next_action
                == Some(pick) && ch.reason == ActionChangeReason::BetterScore
        },
{
}

/// An active action that has not ended and is picked against keeps the
/// agent when it is not interruptible, still within its minimum commitment,
/// or the pick does not clear the hysteresis band; the reason reported is
/// the first of these that applies, in that order. Nothing is cancelled or
/// requested and no change is announced.
pub proof fn lemma_hold_reason_order(
    active: ActiveSlot,
    info: CurrentAction,
    pick: u64,
    selected_label: Option<String>,
)
    requires
        active.action is Some,
        active.action != Some(pick),
        !info.lifecycle.terminal(),
        !info.interruptible || info.within_commitment || info.within_hysteresis,
    ensures
        transition_of(active, Some(info), Some(pick), selected_label) matches Some(o) && {
            &&& o.cancelled is None
            &&& o.requested is None
            &&& o.winner == active.action
            &&& o.change is None
            &&& o.active.action == active.action
            &&& o.switch_reason == Some(
                if !info.interruptible {
                    ActionChangeReason::NonInterruptible
                } else if info.within_commitment {
                    ActionChangeReason::CommitmentHold
                } else {
                    ActionChangeReason::HysteresisHold
                },
            )
        },
{
}

/// An agent with no active action takes up whatever is picked: the pick is
/// requested and becomes the active action, announced as the initial
/// selection; with nothing picked nothing happens.
pub proof fn lemma_idle_agent_takes_the_pick(
    active: ActiveSlot,
    current: Option<CurrentAction>,
    selected: Option<u64>,
    selected_label: Option<String>,
)
    requires
        active.action is None,
    ensures
        transition_of(active, current, selected, selected_label) matches Some(o) && {
            &&& o.completed is None
            &&& o.cancelled is None
            &&& o.requested == selected
            &&& o.winner == selected
            &&& o.active.action == selected
            &&& (selected is Some ==> o.switch_reason == Some(ActionChangeReason::InitialSelection))
            &&& (selected is Some ==> (o.change matches Some(ch) && ch.previous_action is None
                && ch.next_action == selected && ch.reason == ActionChangeReason::InitialSelection))
            &&& (selected is None ==> o.switch_reason is None && o.change is None)
        },
{
}

/// An active action that has not ended stays when nothing is picked
/// (reason `NoBetterChoice`) or when it is itself the pick (no reason); in
/// both cases nothing is cancelled or requested and no change is announced.
pub proof fn lemma_running_action_stays_without_rival(
    active: ActiveSlot,
    current: Option<CurrentAction>,
    selected: Option<u64>,
    selected_label: Option<String>,
)
    requires
        active.action is Some,
        selected is None || selected == active.action,
        current matches Some(info) ==> !info.lifecycle.terminal(),
    ensures
        transition_of(active, current, selected, selected_label) matches Some(o) && {
            &&& o.completed is None
            &&& o.cancelled is None
            &&& o.requested is None
            &&& o.winner == active.action
            &&& o.active.action == active.action
            &&& o.active.label == active.label
            &&& o.active.switch_count == active.switch_count
            &&& o.change is None
            &&& o.switch_reason == (if selected is None {
                Some(ActionChangeReason::NoBetterChoice)
            } else {
                None
            })
        },
{
}

/// Only a better-scoring pick cancels the active action, and then the pick
/// is requested and becomes the winner.
pub proof fn lemma_cancel_only_for_better_score(
    active: ActiveSlot,
    current: Option<CurrentAction>,
    selected: Option<u64>,
    selected_label: Option<String>,
)
    ensures
        transition_of(active, current, selected, selected_label) matches Some(o) ==> (
        o.cancelled matches Some(c) ==> {
            &&& active.action == Some(c)
            &&& selected is Some && selected != Some(c)
            &&& current matches Some(info) && hold_reason(info) is None && !info.lifecycle.terminal()
            &&& o.requested == selected && o.winner == selected
            &&& o.switch_reason == Some(ActionChangeReason::BetterScore)
        }),
{
}

/// An ended action is always reported. The agent's record then holds
/// the new pick (none if nothing was picked); when the ended action itself
/// is picked again it is requested anew and stays active, with no change
/// announced since the active action did not change.
pub proof fn lemma_finished_action_released(
    active: ActiveSlot,
    info: CurrentAction,
    selected: Option<u64>,
    selected_label: Option<String>,
)
    requires
        active.action is Some,
        info.lifecycle.terminal(),
    ensures
        transition_of(active, Some(info), selected, selected_label) matches Some(o) && o.completed
            == Some((active.action->0, info.lifecycle)) && o.cancelled is None && (if selected
            == active.action {
            // picked again: it is requested anew and stays the active action, with no change
            o.requested == selected && o.active.action == active.action && o.active.label
                == selected_label && o.change is None
        } else {
            o.active.action != active.action && o.active.action == selected
        }),
{
}

/// Hold reasons explain why nothing changed; they never appear on an
/// announced change.
pub proof fn lemma_change_reason_never_a_hold(
    active: ActiveSlot,
    current: Option<CurrentAction>,
    selected: Option<u64>,
    selected_label: Option<String>,
)
    ensures
        transition_of(active, current, selected, selected_label) matches Some(o) ==> (
        o.change matches Some(c) ==> c.reason != ActionChangeReason::NonInterruptible && c.reason
            != ActionChangeReason::CommitmentHold && c.reason != ActionChangeReason::HysteresisHold),
{
}

/// The step skips the agent only when a different action was picked while
/// the active one can no longer be read.
pub proof fn lemma_skip_only_when_current_unreadable(
    active: ActiveSlot,
    current: Option<CurrentAction>,
    selected: Option<u64>,
    selected_label: Option<String>,
)
    ensures
        transition_of(active, current, selected, selected_label) is None <==> (active.action is Some
            && current is None && selected is Some && selected != active.action),
{
}

} // verus!
