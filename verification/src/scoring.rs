use vstd::prelude::*;

use crate::binary32::Real32;
use crate::components::{
    ActionLifecycle, ActionSuppressionReason, ConsiderationCost, TargetKey, TargetRequirement,
};
use crate::sorting::{
    ascending_members, key_before, keyed_listing, lemma_keyed_listing_unique, lemma_sorted_members_listing,
    sort_by_keys,
};

verus! {

/// How consideration scores are combined into one action score.
#[derive(Clone, Copy, Debug, PartialEq, Eq, Structural)]
pub enum CompositionStrategy {
    Multiplicative,
    GeometricMean,
    Additive,
    Minimum,
    CompensatedProduct { compensation_factor: Real32 },
}

impl Default for CompositionStrategy {
    fn default() -> (r: Self)
        ensures
            r == CompositionStrategy::GeometricMean,
    {
        CompositionStrategy::GeometricMean
    }
}

pub open spec fn cost_keys(costs: Seq<ConsiderationCost>) -> Seq<i64> {
    Seq::new(costs.len(), |i: int| costs[i].rank() as i64)
}

pub open spec fn no_tiebreak(costs: Seq<ConsiderationCost>) -> Seq<u64> {
    Seq::new(costs.len(), |i: int| 0u64)
}

pub open spec fn every_position() -> spec_fn(int) -> bool {
    |i: int| true
}

/// The evaluation order of considerations: cheaper cost classes first,
/// declaration order within a class.
pub open spec fn cost_order(costs: Seq<ConsiderationCost>) -> Seq<usize> {
    choose|r: Seq<usize>| #[trigger] keyed_listing(cost_keys(costs), no_tiebreak(costs), r, every_position())
}

/// Orders considerations cheap-first; within one cost class the
/// declaration order is kept.
pub fn evaluation_order(costs: &Vec<ConsiderationCost>) -> (r: Vec<usize>)
    ensures
        r@ == cost_order(costs@),
        r.len() == costs.len(),
        // every consideration is evaluated exactly once
        r@.no_duplicates(),
        forall|k: int| 0 <= k < r.len() ==> #[trigger] r[k] < costs.len(),
        // cheap before expensive, declaration order within a cost class
        forall|a: int, b: int|
            0 <= a < b < r.len() ==> costs@[#[trigger] r[a] as int].rank() < costs@[#[trigger] r[b] as int].rank()
                || (costs@[r[a] as int].rank() == costs@[r[b] as int].rank() && r[a] < r[b]),
{
    let n = costs.len();
    let mut primary: Vec<i64> = Vec::new();
    let mut secondary: Vec<u64> = Vec::new();
    let mut members: Vec<usize> = Vec::new();
    for i in 0..n
        invariant
            n == costs.len(),
            primary.len() == i,
            secondary.len() == i,
            members.len() == i,
            forall|k: int| 0 <= k < i ==> #[trigger] primary[k] == cost_keys(costs@)[k],
            forall|k: int| 0 <= k < i ==> #[trigger] secondary[k] == no_tiebreak(costs@)[k],
            forall|k: int| 0 <= k < i ==> #[trigger] members[k] == k,
    {
        primary.push(costs[i].order() as i64);
        secondary.push(0);
        members.push(i);
    }
    proof {
        assert(primary@ =~= cost_keys(costs@));
        assert(secondary@ =~= no_tiebreak(costs@));
        assert forall|j: usize| 0 <= j < n && every_position()(j as int) implies #[trigger] members@.contains(
            j,
        ) by {
            assert(members@[j as int] == j);
        }
        assert(ascending_members(primary@.len() as int, members@, every_position()));
    }
    let r = sort_by_keys(&primary, &secondary, &members);
    proof {
        lemma_sorted_members_listing(primary@, secondary@, members@, r@, every_position());
        lemma_keyed_listing_unique(primary@, secondary@, r@, cost_order(costs@), every_position());
        r@.unique_seq_to_set();
        members@.unique_seq_to_set();
        assert forall|a: int, b: int|
            0 <= a < b < r.len() implies costs@[#[trigger] r[a] as int].rank() < costs@[#[trigger] r[b] as int].rank()
                || (costs@[r[a] as int].rank() == costs@[r[b] as int].rank() && r[a] < r[b]) by {
            assert(key_before(primary@, secondary@, r@[a] as int, r@[b] as int));
            assert(r@[a] != r@[b]);
        }
        assert(r@.to_set() =~= members@.to_set()) by {
            assert forall|x: usize| r@.to_set().contains(x) <==> members@.to_set().contains(x) by {
                if members@.contains(x) {
                    let w = choose|w: int| 0 <= w < members.len() && members@[w] == x;
                    assert(x < n);
                }
            }
        }
    }
    r
}

/// How many operands are enabled (`.0` of each operand).
pub open spec fn enabled_count(operands: Seq<(bool, Real32)>) -> nat
    decreases operands.len(),
{
    if operands.len() == 0 {
        0
    } else {
        enabled_count(operands.drop_last()) + if operands.last().0 {
            1nat
        } else {
            0nat
        }
    }
}

/// Some enabled operand has a weighted score (`.1`) of zero or less.
pub open spec fn zero_hit_in(operands: Seq<(bool, Real32)>) -> bool {
    exists|i: int|
        0 <= i < operands.len() && operands[i].0 && #[trigger] operands[i].1.at_most(Real32::zero())
}

/// What a composition reports besides its score: how many operands took
/// part, and whether any of them scored zero or less after weighting.
#[derive(Clone, Copy, Debug, PartialEq, Eq, Structural)]
pub struct CompositionCensus {
    pub evaluated_count: usize,
    pub zero_hit: bool,
}

/// Counts the enabled operands and looks for a weighted score of zero or
/// less among them. Each operand is (enabled, weighted score).
pub fn composition_census(operands: &Vec<(bool, Real32)>) -> (r: CompositionCensus)
    ensures
        r.evaluated_count == enabled_count(operands@),
        r.zero_hit == zero_hit_in(operands@),
{
    let n = operands.len();
    let mut count: usize = 0;
    let mut zero_hit = false;
    for i in 0..n
        invariant
            n == operands.len(),
            count == enabled_count(operands@.take(i as int)),
            count <= i,
            zero_hit == zero_hit_in(operands@.take(i as int)),
    {
        proof {
            assert(operands@.take(i + 1).drop_last() =~= operands@.take(i as int));
        }
        let ghost before = zero_hit;
        let (enabled, weighted) = operands[i];
        if enabled {
            count = count + 1;
            if weighted.le(Real32(0)) {
                zero_hit = true;
            }
        }
        proof {
            let prefix = operands@.take(i as int);
            let next = operands@.take(i + 1);
            assert(next[i as int] == operands@[i as int]);
            if zero_hit {
                if before {
                    let j = choose|j: int|
                        0 <= j < prefix.len() && prefix[j].0 && #[trigger] prefix[j].1.at_most(Real32::zero());
                    assert(next[j] == prefix[j]);
                } else {
                    assert(next[i as int].1.at_most(Real32::zero()));
                }
            } else {
                assert forall|j: int| 0 <= j < next.len() && next[j].0 implies !#[trigger] next[j].1.at_most(
                    Real32::zero(),
                ) by {
                    if j < i {
                        assert(next[j] == prefix[j]);
                        assert(!(prefix[j].0 && prefix[j].1.at_most(Real32::zero())));
                    }
                }
            }
        }
    }
    proof {
        assert(operands@.take(n as int) =~= operands@);
    }
    CompositionCensus { evaluated_count: count, zero_hit }
}

/// A zero is hit exactly when some enabled operand has a weighted score that
/// is not NaN and not above zero; the count of enabled operands never exceeds
/// the operands, is all of them when all are enabled and none when none is.
pub proof fn lemma_census_reads_enabled_operands(operands: Seq<(bool, Real32)>)
    ensures
        zero_hit_in(operands) <==> exists|i: int|
            0 <= i < operands.len() && operands[i].0 && !(#[trigger] operands[i].1).nan()
                && operands[i].1.rank() <= 0,
        enabled_count(operands) <= operands.len(),
        (forall|i: int| 0 <= i < operands.len() ==> (#[trigger] operands[i]).0) ==> enabled_count(
            operands,
        ) == operands.len(),
        (forall|i: int| 0 <= i < operands.len() ==> !(#[trigger] operands[i]).0) ==> enabled_count(
            operands,
        ) == 0,
    decreases operands.len(),
{
    crate::binary32::lemma_magnitude_bound(0u32);
    if exists|i: int|
        0 <= i < operands.len() && operands[i].0 && !(#[trigger] operands[i].1).nan()
            && operands[i].1.rank() <= 0 {
        let i = choose|i: int|
            0 <= i < operands.len() && operands[i].0 && !(#[trigger] operands[i].1).nan()
                && operands[i].1.rank() <= 0;
        assert(operands[i].1.at_most(Real32::zero()));
    }
    if operands.len() > 0 {
        let rest = operands.drop_last();
        lemma_census_reads_enabled_operands(rest);
        if forall|i: int| 0 <= i < operands.len() ==> (#[trigger] operands[i]).0 {
            assert forall|i: int| 0 <= i < rest.len() implies (#[trigger] rest[i]).0 by {
                assert(rest[i] == operands[i]);
            }
            assert(operands[operands.len() - 1].0);
        }
        if forall|i: int| 0 <= i < operands.len() ==> !(#[trigger] operands[i]).0 {
            assert forall|i: int| 0 <= i < rest.len() implies !(#[trigger] rest[i]).0 by {
                assert(rest[i] == operands[i]);
            }
            assert(!operands[operands.len() - 1].0);
        }
    }
}

/// Under multiplicative composition one counted zero decides the score,
/// so the remaining considerations need not be evaluated.
pub open spec fn short_circuits(strategy: CompositionStrategy, counts: bool, score: Real32) -> bool {
    strategy is Multiplicative && counts && score.at_most(Real32::zero())
}

pub fn should_short_circuit(strategy: &CompositionStrategy, counts: bool, score: Real32) -> (r: bool)
    ensures
        r == short_circuits(*strategy, counts, score),
{
    match strategy {
        CompositionStrategy::Multiplicative => counts && score.le(Real32(0)),
        _ => false,
    }
}

/// How a consideration takes part in scoring.
#[derive(Clone, Copy, Debug, PartialEq, Eq, Structural)]
pub enum ConsiderationUse {
    /// Disabled, or without an input value: traced as disabled, left out.
    Skipped,
    /// Its curve is evaluated; it counts in the composition only when the
    /// input was a finite number.
    Evaluated { counts: bool },
}

pub open spec fn consideration_use_of(
    consideration_enabled: bool,
    input_enabled: bool,
    value: Option<Real32>,
) -> ConsiderationUse {
    if !consideration_enabled || !input_enabled {
        ConsiderationUse::Skipped
    } else {
        match value {
            None => ConsiderationUse::Skipped,
            Some(v) => ConsiderationUse::Evaluated { counts: v.finite() },
        }
    }
}

pub fn consideration_use(
    consideration_enabled: bool,
    input_enabled: bool,
    value: Option<Real32>,
) -> (r: ConsiderationUse)
    ensures
        r == consideration_use_of(consideration_enabled, input_enabled, value),
{
    if !consideration_enabled || !input_enabled {
        ConsiderationUse::Skipped
    } else {
        match value {
            None => ConsiderationUse::Skipped,
            Some(v) => ConsiderationUse::Evaluated { counts: v.is_finite() },
        }
    }
}

/// What suppression reads of a scored action.
#[derive(Clone, Copy, Debug, PartialEq, Eq, Structural)]
pub struct SuppressionFacts {
    pub enabled: bool,
    pub is_fallback: bool,
    pub target_requirement: TargetRequirement,
    pub cooldown_remaining: Real32,
    pub minimum_score: Real32,
    /// The action has target candidates.
    pub has_target_candidates: bool,
    /// No target candidate was selected.
    pub missing_selected_target: bool,
    /// The action's final score.
    pub score: Real32,
}

/// The first reason, in this order, that keeps an action out of selection:
/// disabled, cooling down, missing a required target, a non-finite score,
/// a score of zero or less (unless it is a fallback), a score below the
/// action's minimum.
pub open spec fn suppression_of(f: SuppressionFacts) -> Option<ActionSuppressionReason> {
    if !f.enabled {
        Some(ActionSuppressionReason::Disabled)
    } else if Real32::zero().below(f.cooldown_remaining) {
        Some(ActionSuppressionReason::Cooldown)
    } else if f.target_requirement is Required && (!f.has_target_candidates
        || f.missing_selected_target) {
        Some(ActionSuppressionReason::NoTarget)
    } else if !f.score.finite() {
        Some(ActionSuppressionReason::InvalidInput)
    } else if f.score.at_most(Real32::zero()) && !f.is_fallback {
        Some(ActionSuppressionReason::ZeroScore)
    } else if f.score.below(f.minimum_score) {
        Some(ActionSuppressionReason::BelowMinimumScore)
    } else {
        None
    }
}

pub fn action_suppression_reason(f: &SuppressionFacts) -> (r: Option<ActionSuppressionReason>)
    ensures
        r == suppression_of(*f),
{
    let zero = Real32(0);
    if !f.enabled {
        Some(ActionSuppressionReason::Disabled)
    } else if zero.lt(f.cooldown_remaining) {
        Some(ActionSuppressionReason::Cooldown)
    } else if f.target_requirement == TargetRequirement::Required && (!f.has_target_candidates
        || f.missing_selected_target) {
        Some(ActionSuppressionReason::NoTarget)
    } else if !f.score.is_finite() {
        Some(ActionSuppressionReason::InvalidInput)
    } else if f.score.le(zero) && !f.is_fallback {
        Some(ActionSuppressionReason::ZeroScore)
    } else if f.score.lt(f.minimum_score) {
        Some(ActionSuppressionReason::BelowMinimumScore)
    } else {
        None
    }
}

/// An action that is not suppressed is enabled, not cooling down, has
/// its required target, and has a finite score that reaches its minimum
/// and is above zero unless the action is a fallback.
pub proof fn lemma_unsuppressed_action_is_selectable(f: SuppressionFacts)
    requires
        suppression_of(f) is None,
    ensures
        f.enabled,
        !Real32::zero().below(f.cooldown_remaining),
        f.target_requirement is Required ==> f.has_target_candidates && !f.missing_selected_target,
        f.score.finite(),
        Real32::zero().below(f.score) || f.is_fallback,
        !f.score.below(f.minimum_score),
{
    crate::binary32::lemma_magnitude_bound(0u32);
}

/// The converse: an action that is enabled, not cooling down, has its
/// required target (candidates present and one selected, or no target
/// required), and whose score is finite, above zero (or the action is a
/// fallback) and not below its minimum, is not suppressed. So the reason is
/// absent exactly when all of these hold.
pub proof fn lemma_selectable_action_is_not_suppressed(f: SuppressionFacts)
    ensures
        suppression_of(f) is None <==> {
            &&& f.enabled
            &&& !Real32::zero().below(f.cooldown_remaining)
            &&& (f.target_requirement is Required ==> f.has_target_candidates
                && !f.missing_selected_target)
            &&& f.score.finite()
            &&& (Real32::zero().below(f.score) || f.is_fallback)
            &&& !f.score.below(f.minimum_score)
        },
{
    crate::binary32::lemma_magnitude_bound(0u32);
}

/// Each reason, stated by itself: the earlier checks pass and its own
/// check fails. A target-requiring action is missing its target only when it
/// has no candidates or none was selected.
pub proof fn lemma_suppression_reason_conditions(f: SuppressionFacts)
    ensures
        suppression_of(f) == Some(ActionSuppressionReason::Disabled) <==> !f.enabled,
        suppression_of(f) == Some(ActionSuppressionReason::Cooldown) <==> f.enabled
            && Real32::zero().below(f.cooldown_remaining),
        suppression_of(f) == Some(ActionSuppressionReason::NoTarget) <==> {
            &&& f.enabled
            &&& !Real32::zero().below(f.cooldown_remaining)
            &&& f.target_requirement is Required
            &&& (!f.has_target_candidates || f.missing_selected_target)
        },
        suppression_of(f) == Some(ActionSuppressionReason::InvalidInput) <==> {
            &&& f.enabled
            &&& !Real32::zero().below(f.cooldown_remaining)
            &&& (f.target_requirement is Required ==> f.has_target_candidates
                && !f.missing_selected_target)
            &&& !f.score.finite()
        },
        suppression_of(f) == Some(ActionSuppressionReason::ZeroScore) <==> {
            &&& f.enabled
            &&& !Real32::zero().below(f.cooldown_remaining)
            &&& (f.target_requirement is Required ==> f.has_target_candidates
                && !f.missing_selected_target)
            &&& f.score.finite()
            &&& !Real32::zero().below(f.score)
            &&& !f.is_fallback
        },
        suppression_of(f) == Some(ActionSuppressionReason::BelowMinimumScore) <==> {
            &&& f.enabled
            &&& !Real32::zero().below(f.cooldown_remaining)
            &&& (f.target_requirement is Required ==> f.has_target_candidates
                && !f.missing_selected_target)
            &&& f.score.finite()
            &&& (Real32::zero().below(f.score) || f.is_fallback)
            &&& f.score.below(f.minimum_score)
        },
{
    crate::binary32::lemma_magnitude_bound(0u32);
}

/// An enabled consideration with an input value is evaluated, and it counts
/// in the composition exactly when the value is finite (neither NaN nor
/// infinite): zero and negative finite inputs count. Anything else is skipped.
pub proof fn lemma_consideration_counts_iff_finite(
    consideration_enabled: bool,
    input_enabled: bool,
    value: Option<Real32>,
)
    ensures
        consideration_use_of(consideration_enabled, input_enabled, value) is Evaluated
            <==> consideration_enabled && input_enabled && value is Some,
        consideration_use_of(consideration_enabled, input_enabled, value) is Skipped
            <==> !consideration_enabled || !input_enabled || value is None,
        consideration_use_of(consideration_enabled, input_enabled, value) matches ConsiderationUse::Evaluated { counts }
            ==> (counts <==> value->0.magnitude() < 0x7f80_0000),
        consideration_enabled && input_enabled && value is Some && value->0.finite()
            ==> consideration_use_of(consideration_enabled, input_enabled, value)
            == (ConsiderationUse::Evaluated { counts: true }),
{
}

/// Under multiplicative composition a counted score of zero or less (not
/// NaN) ends the evaluation; no other strategy ever stops early.
pub proof fn lemma_short_circuit_conditions(strategy: CompositionStrategy, counts: bool, score: Real32)
    ensures
        short_circuits(strategy, counts, score) <==> strategy is Multiplicative && counts
            && !score.nan() && score.rank() <= 0,
{
}

/// A picked target candidate is kept only when enabled and scored above zero.
pub open spec fn target_kept(enabled: bool, score: Real32) -> bool {
    enabled && Real32::zero().below(score)
}

pub fn keeps_target(enabled: bool, score: Real32) -> (r: bool)
    ensures
        r == target_kept(enabled, score),
        r <==> enabled && !score.nan() && score.rank() > 0,
{
    enabled && Real32(0).lt(score)
}

/// A picked target is kept exactly when it is enabled and its score is
/// strictly above zero (not NaN); in particular every enabled target scoring
/// in `(0, 1]`, such as a full score of one, is kept.
pub proof fn lemma_target_kept_iff_enabled_and_positive(enabled: bool, score: Real32)
    ensures
        target_kept(enabled, score) <==> enabled && !score.nan() && score.rank() > 0,
        enabled && !score.sign_set() && 0 < score.magnitude() <= 0x3f80_0000 ==> target_kept(
            enabled,
            score,
        ),
        !enabled ==> !target_kept(enabled, score),
{
    crate::binary32::lemma_magnitude_bound(0u32);
}

/// Whether an action ending with `lifecycle` restarts its cooldown.
pub open spec fn cooldown_restarts(
    lifecycle: ActionLifecycle,
    on_success: bool,
    on_failure: bool,
    on_cancel: bool,
) -> bool {
    match lifecycle {
        ActionLifecycle::Success => on_success,
        ActionLifecycle::Failure => on_failure,
        ActionLifecycle::Cancelled => on_cancel,
        _ => false,
    }
}

pub fn restarts_cooldown(
    lifecycle: ActionLifecycle,
    on_success: bool,
    on_failure: bool,
    on_cancel: bool,
) -> (r: bool)
    ensures
        r == cooldown_restarts(lifecycle, on_success, on_failure, on_cancel),
{
    match lifecycle {
        ActionLifecycle::Success => on_success,
        ActionLifecycle::Failure => on_failure,
        ActionLifecycle::Cancelled => on_cancel,
        _ => false,
    }
}

/// Success, failure and cancellation restart the cooldown as their own
/// flag says; an action that has not ended never restarts it.
pub proof fn lemma_cooldown_restart_conditions(
    lifecycle: ActionLifecycle,
    on_success: bool,
    on_failure: bool,
    on_cancel: bool,
)
    ensures
        cooldown_restarts(lifecycle, on_success, on_failure, on_cancel) <==> (lifecycle is Success
            && on_success) || (lifecycle is Failure && on_failure) || (lifecycle is Cancelled
            && on_cancel),
        !lifecycle.terminal() ==> !cooldown_restarts(lifecycle, on_success, on_failure, on_cancel),
{
}

/// Identity of a scored target candidate.
#[derive(Clone, Copy, Debug, PartialEq, Eq, Structural)]
pub struct CandidateIdentity {
    pub key: TargetKey,
    pub entity: Option<u64>,
}

/// Where the trace of an action's selected target comes from.
#[derive(Clone, Copy, Debug, PartialEq, Eq, Structural)]
pub enum TargetTraceSource {
    /// The action has no selected target.
    NoTarget,
    /// The trace of the scored candidate at this position.
    Candidate(usize),
    /// No scored candidate matches: rebuild the trace from the stored target.
    StoredTarget,
}

/// Position `q` holds the first candidate equal to `wanted`.
pub open spec fn first_match_at(candidates: Seq<CandidateIdentity>, wanted: CandidateIdentity, q: int) -> bool {
    0 <= q < candidates.len() && candidates[q] == wanted && forall|j: int|
        0 <= j < q ==> candidates[j] != wanted
}

pub open spec fn first_match(candidates: Seq<CandidateIdentity>, wanted: CandidateIdentity) -> int {
    choose|q: int| first_match_at(candidates, wanted, q)
}

pub open spec fn target_trace_source_of(
    key: Option<TargetKey>,
    entity: Option<u64>,
    has_label: bool,
    candidates: Seq<CandidateIdentity>,
) -> TargetTraceSource {
    match key {
        None => TargetTraceSource::NoTarget,
        Some(k) => if candidates.contains(CandidateIdentity { key: k, entity }) {
            TargetTraceSource::Candidate(
                first_match(candidates, CandidateIdentity { key: k, entity }) as usize,
            )
        } else if has_label {
            TargetTraceSource::StoredTarget
        } else {
            TargetTraceSource::NoTarget
        },
    }
}

/// Finds the trace of an action's selected target: the first scored
/// candidate with the stored key and entity, else the stored target itself
/// when it has a label.
pub fn target_trace_source(
    key: Option<TargetKey>,
    entity: Option<u64>,
    has_label: bool,
    candidates: &Vec<CandidateIdentity>,
) -> (r: TargetTraceSource)
    ensures
        r == target_trace_source_of(key, entity, has_label, candidates@),
        r matches TargetTraceSource::Candidate(q) ==> key matches Some(k) && q < candidates.len()
            && candidates@[q as int] == (CandidateIdentity { key: k, entity }) && forall|j: int|
            0 <= j < q ==> candidates@[j] != (CandidateIdentity { key: k, entity }),
        r is StoredTarget <==> (key matches Some(k) && has_label && forall|j: int|
            0 <= j < candidates.len() ==> candidates@[j] != (CandidateIdentity { key: k, entity })),
        r is NoTarget <==> (key is None || (key matches Some(k) && !has_label && forall|j: int|
            0 <= j < candidates.len() ==> candidates@[j] != (CandidateIdentity { key: k, entity }))),
{
    match key {
        None => TargetTraceSource::NoTarget,
        Some(k) => {
            let wanted = CandidateIdentity { key: k, entity };
            let n = candidates.len();
            for i in 0..n
                invariant
                    n == candidates.len(),
                    key == Some(k),
                    wanted == (CandidateIdentity { key: k, entity }),
                    forall|j: int| 0 <= j < i ==> candidates@[j] != wanted,
            {
                if candidates[i] == wanted {
                    proof {
                        let w = i as int;
                        assert(first_match_at(candidates@, wanted, w));
                        let found = first_match(candidates@, wanted);
                        assert(first_match_at(candidates@, wanted, found));
                        if found < w {
                            assert(candidates@[found] != wanted);
                        } else if found > w {
                            assert(candidates@[w] != wanted);
                        }
                        assert(found == w);
                        assert(candidates@.contains(wanted));
                    }
                    return TargetTraceSource::Candidate(i);
                }
            }
            proof {
                assert(!candidates@.contains(wanted));
            }
            if has_label {
                TargetTraceSource::StoredTarget
            } else {
                TargetTraceSource::NoTarget
            }
        },
    }
}

} // verus!
