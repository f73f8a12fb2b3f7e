use saddle_ai_utility_ai::tracing::{push_history, trim_history};
use saddle_ai_utility_ai::{UtilityAgent, SelectionStrategy};

#[test]
fn history_keeps_most_recent_entries() {
    let mut history = vec![1, 2, 3, 4, 5];
    trim_history(&mut history, 3);
    assert_eq!(history, vec![3, 4, 5]);
    push_history(&mut history, 6, 3);
    assert_eq!(history, vec![4, 5, 6]);
    push_history(&mut history, 7, 5);
    assert_eq!(history, vec![4, 5, 6, 7]);
}

#[test]
fn zero_capacity_keeps_nothing() {
    let mut history = vec!["a", "b"];
    push_history(&mut history, "c", 0);
    assert!(history.is_empty());
}

#[test]
fn agent_defaults() {
    let agent = UtilityAgent::default();
    assert!(agent.enabled);
    assert_eq!(agent.selection_strategy, SelectionStrategy::HighestScore);
    assert_eq!(agent.selection_seed, 1);
    assert_eq!(agent.trace_capacity, 8);
    assert_eq!(agent.evaluation_seed(3), 1 ^ 3);
}
