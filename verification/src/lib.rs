//! Decision core of a utility-AI runtime for ECS agents: which agents are
//! due, which action each one picks (priority tiers, selection strategies,
//! fallbacks), when the active action changes, and the bookkeeping around
//! it, all stated over plain values and proved. Scores, thresholds and
//! times are carried in their binary32 encoding and only ever ordered and
//! classified here.

pub mod arbitration;
pub mod binary32;
pub mod components;
pub mod scheduling;
pub mod scoring;
pub mod selection;
pub mod sorting;
pub mod tracing;
pub mod transition;

pub use binary32::Real32;
pub use components::{
    ActionChangeReason, ActionLifecycle, ActionSuppressionReason, ConsiderationCost,
    EvaluationMode, TargetKey, TargetRequirement, UtilityAgent, UtilityAiBudget,
};
pub use selection::{PriorityTier, SelectionStrategy};
