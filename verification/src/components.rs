use vstd::prelude::*;

use crate::selection::SelectionStrategy;

verus! {

/// Stable external identifier of a target candidate.
#[derive(Clone, Copy, Debug, PartialEq, Eq, Structural, Hash)]
pub struct TargetKey(pub u64);

/// How an agent schedules its evaluations.
#[derive(Clone, Copy, Debug, PartialEq, Eq, Structural, Hash)]
pub enum EvaluationMode {
    Interval,
    Manual,
}

/// Authoring hint used to evaluate cheap considerations before expensive ones.
#[derive(Clone, Copy, Debug, PartialEq, Eq, Structural, Hash)]
pub enum ConsiderationCost {
    Cheap,
    SharedCache,
    Expensive,
    TargetDependent,
}

impl ConsiderationCost {
    /// The rank of a cost class: cheaper classes have smaller ranks.
    pub open spec fn rank(self) -> u8 {
        match self {
            ConsiderationCost::Cheap => 0,
            ConsiderationCost::SharedCache => 1,
            ConsiderationCost::Expensive => 2,
            ConsiderationCost::TargetDependent => 3,
        }
    }

    pub fn order(self) -> (r: u8)
        ensures
            r == self.rank(),
    {
        match self {
            ConsiderationCost::Cheap => 0,
            ConsiderationCost::SharedCache => 1,
            ConsiderationCost::Expensive => 2,
            ConsiderationCost::TargetDependent => 3,
        }
    }
}

/// Cost classes are ranked cheapest first: cheap, then shared cache, then
/// expensive, then target dependent.
pub proof fn lemma_cost_classes_cheapest_first()
    ensures
        ConsiderationCost::Cheap.rank() < ConsiderationCost::SharedCache.rank(),
        ConsiderationCost::SharedCache.rank() < ConsiderationCost::Expensive.rank(),
        ConsiderationCost::Expensive.rank() < ConsiderationCost::TargetDependent.rank(),
        forall|c: ConsiderationCost| #[trigger] c.rank() <= 3,
{
}

/// Whether an action needs a valid target to be selectable.
#[derive(Clone, Copy, Debug, PartialEq, Eq, Structural, Hash)]
pub enum TargetRequirement {
    Optional,
    Required,
}

/// Execution state of an action, owned jointly by the runtime and its consumer.
#[derive(Clone, Copy, Debug, PartialEq, Eq, Structural, Hash)]
pub enum ActionLifecycle {
    Idle,
    Requested,
    Executing,
    Success,
    Failure,
    Cancelled,
}

impl ActionLifecycle {
    /// A lifecycle is terminal once the action has ended, one way or another.
    pub open spec fn terminal(self) -> bool {
        self is Success || self is Failure || self is Cancelled
    }

    pub fn is_terminal(self) -> (r: bool)
        ensures
            r == self.terminal(),
    {
        match self {
            ActionLifecycle::Success | ActionLifecycle::Failure | ActionLifecycle::Cancelled => true,
            _ => false,
        }
    }
}

/// Why an action was kept out of selection.
#[derive(Clone, Copy, Debug, PartialEq, Eq, Structural, Hash)]
pub enum ActionSuppressionReason {
    Disabled,
    Cooldown,
    NoTarget,
    BelowMinimumScore,
    ZeroScore,
    InvalidInput,
}

/// Why the active action changed, or was held.
#[derive(Clone, Copy, Debug, PartialEq, Eq, Structural, Hash)]
pub enum ActionChangeReason {
    InitialSelection,
    BetterScore,
    ActionFinished,
    Cancelled,
    ExplicitRequest,
    HysteresisHold,
    CommitmentHold,
    NonInterruptible,
    NoBetterChoice,
}

/// Agent-level settings: whether the agent evaluates at all, how it picks
/// among its actions, the seed of its seeded choices, and how much action
/// history it keeps.
#[derive(Clone, Copy, Debug, PartialEq, Eq, Structural)]
pub struct UtilityAgent {
    pub enabled: bool,
    pub selection_strategy: SelectionStrategy,
    pub selection_seed: u64,
    pub trace_capacity: usize,
}

impl Default for UtilityAgent {
    fn default() -> (r: Self)
        ensures
            r.enabled,
            r.selection_strategy == SelectionStrategy::HighestScore,
            r.selection_seed == 1,
            r.trace_capacity == 8,
    {
        UtilityAgent {
            enabled: true,
            selection_strategy: SelectionStrategy::HighestScore,
            selection_seed: 1,
            trace_capacity: 8,
        }
    }
}

impl UtilityAgent {
    /// The seed of the agent's seeded choices at its `evaluation_count`-th
    /// evaluation (action selection and cadence jitter alike).
    pub fn evaluation_seed(&self, evaluation_count: u64) -> (r: u64)
        ensures
            r == self.selection_seed ^ evaluation_count,
    {
        self.selection_seed ^ evaluation_count
    }
}

/// The seed of an action's target selection: the agent's and the action's
/// identities combined.
pub fn target_seed(agent: u64, action: u64) -> (r: u64)
    ensures
        r == agent ^ action,
{
    agent ^ action
}

/// Frame budget: how many due agents are evaluated in one update.
#[derive(Clone, Copy, Debug, PartialEq, Eq, Structural)]
pub struct UtilityAiBudget {
    pub max_agents_per_update: usize,
}

impl Default for UtilityAiBudget {
    fn default() -> (r: Self)
        ensures
            r.max_agents_per_update == 128,
    {
        UtilityAiBudget { max_agents_per_update: 128 }
    }
}

} // verus!
