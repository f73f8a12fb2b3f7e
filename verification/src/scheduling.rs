use vstd::prelude::*;

use crate::binary32::Real32;
use crate::components::EvaluationMode;
use crate::sorting::{
    ascending_members, flagged_positions, key_before, keyed_listing, sorted_by_keys, lemma_keyed_listing_unique, lemma_sorted_members_listing,
    sort_by_keys,
};

verus! {

/// What the scheduler reads of one agent.
#[derive(Clone, Copy, Debug, PartialEq, Eq, Structural)]
pub struct DueCandidate {
    /// Stable identity of the agent (its entity bits).
    pub agent: u64,
    pub enabled: bool,
    pub pending_request: bool,
    pub mode: EvaluationMode,
    pub next_evaluation_at: Real32,
}

impl DueCandidate {
    /// An enabled agent is due when a re-evaluation was requested, or when
    /// it runs on an interval and its deadline has come.
    pub open spec fn due_at(self, now: Real32) -> bool {
        self.enabled && (self.pending_request || (self.mode is Interval
            && self.next_evaluation_at.at_most(now)))
    }

    pub fn is_due_at(&self, now: Real32) -> (r: bool)
        ensures
            r == self.due_at(now),
    {
        self.enabled && (self.pending_request || (match self.mode {
            EvaluationMode::Interval => true,
            EvaluationMode::Manual => false,
        } && self.next_evaluation_at.le(now)))
    }
}

/// The agents evaluated in one update, and how many due agents the budget
/// left for later.
#[derive(Debug, PartialEq, Eq)]
pub struct DueBatch {
    /// Positions (into the candidate list) of the agents to evaluate, most
    /// overdue first.
    pub due: Vec<usize>,
    pub skipped_due_to_budget: usize,
}

/// Sort key of a candidate: its deadline in the total order of the encoding.
pub open spec fn deadline_keys(c: Seq<DueCandidate>) -> Seq<i64> {
    Seq::new(c.len(), |i: int| c[i].next_evaluation_at.total_rank() as i64)
}

/// Tie-break key of a candidate: its identity.
pub open spec fn agent_keys(c: Seq<DueCandidate>) -> Seq<u64> {
    Seq::new(c.len(), |i: int| c[i].agent)
}

/// Every due candidate, earliest deadline first, then by identity, then by
/// position.
pub open spec fn due_order(c: Seq<DueCandidate>, now: Real32) -> Seq<usize> {
    choose|r: Seq<usize>| #[trigger] keyed_listing(deadline_keys(c), agent_keys(c), r, due_member(c, now))
}

/// Membership test of the due candidates.
pub open spec fn due_member(c: Seq<DueCandidate>, now: Real32) -> spec_fn(int) -> bool {
    |i: int| c[i].due_at(now)
}

/// The positions of the due candidates.
pub open spec fn due_set(c: Seq<DueCandidate>, now: Real32) -> Set<usize> {
    Set::new(|i: usize| i < c.len() && c[i as int].due_at(now))
}

/// An enabled agent on an interval, with no pending request, is due exactly
/// when its deadline is not later than now (neither being NaN).
pub proof fn lemma_interval_deadline_rule(c: DueCandidate, now: Real32)
    requires
        c.enabled,
        !c.pending_request,
        c.mode is Interval,
    ensures
        c.due_at(now) <==> !c.next_evaluation_at.nan() && !now.nan()
            && c.next_evaluation_at.rank() <= now.rank(),
{
}

/// How many of `due` agents fit in a budget of `max`.
pub open spec fn within_budget(due: int, max: usize) -> int {
    if due < max {
        due
    } else {
        max as int
    }
}

/// Picks the agents to evaluate now: the due ones, most overdue first
/// (ties by identity), as many as the budget allows.
pub fn collect_due_agents(
    candidates: &Vec<DueCandidate>,
    now: Real32,
    max_agents_per_update: usize,
) -> (r: DueBatch)
    ensures
        ({
            let order = due_order(candidates@, now);
            let taken = within_budget(order.len() as int, max_agents_per_update);
            &&& r.due@ == order.take(taken)
            &&& r.skipped_due_to_budget == order.len() - taken
        }),
        // the budget is respected, and every due agent is either evaluated or counted as skipped
        r.due.len() <= max_agents_per_update,
        r.due.len() + r.skipped_due_to_budget == due_set(candidates@, now).len(),
        r.due@.no_duplicates(),
        forall|k: int|
            0 <= k < r.due.len() ==> #[trigger] r.due[k] < candidates.len() && candidates@[r.due[k] as int].due_at(now),
        // the evaluated agents come in (deadline, identity, position) order
        sorted_by_keys(deadline_keys(candidates@), agent_keys(candidates@), r.due@),
        keyed_listing(deadline_keys(candidates@), agent_keys(candidates@), due_order(candidates@, now), due_member(candidates@, now)),
        // overdue work first: no skipped agent has an earlier deadline than an evaluated one
        forall|k: int, j: usize|
            0 <= k < r.due.len() && #[trigger] due_set(candidates@, now).contains(j) && !r.due@.contains(j)
                ==> deadline_keys(candidates@)[#[trigger] r.due[k] as int] <= deadline_keys(candidates@)[j as int],
{
    let n = candidates.len();
    let mut primary: Vec<i64> = Vec::new();
    let mut secondary: Vec<u64> = Vec::new();
    let mut flags: Vec<bool> = Vec::new();
    let ghost member = due_member(candidates@, now);
    for i in 0..n
        invariant
            n == candidates.len(),
            member == due_member(candidates@, now),
            primary.len() == i,
            secondary.len() == i,
            flags.len() == i,
            forall|k: int| 0 <= k < i ==> #[trigger] primary[k] == deadline_keys(candidates@)[k],
            forall|k: int| 0 <= k < i ==> #[trigger] secondary[k] == agent_keys(candidates@)[k],
            forall|k: int| 0 <= k < i ==> #[trigger] flags[k] == member(k),
    {
        let c = &candidates[i];
        primary.push(c.next_evaluation_at.total_rank_value());
        secondary.push(c.agent);
        flags.push(c.is_due_at(now));
    }
    proof {
        assert(primary@ =~= deadline_keys(candidates@));
        assert(secondary@ =~= agent_keys(candidates@));
    }
    let members = flagged_positions(&flags, Ghost(member));
    let order = sort_by_keys(&primary, &secondary, &members);
    proof {
        lemma_sorted_members_listing(primary@, secondary@, members@, order@, member);
        lemma_keyed_listing_unique(
            primary@,
            secondary@,
            order@,
            due_order(candidates@, now),
            member,
        );
    }
    let taken = if order.len() < max_agents_per_update {
        order.len()
    } else {
        max_agents_per_update
    };
    let mut due: Vec<usize> = Vec::new();
    let mut k: usize = 0;
    while k < taken
        invariant
            0 <= k <= taken,
            taken <= order.len(),
            due@ == order@.take(k as int),
        decreases taken - k,
    {
        due.push(order[k]);
        k = k + 1;
        proof {
            assert(due@ =~= order@.take(k as int));
        }
    }
    proof {
        let o = order@;
        o.unique_seq_to_set();
        assert(o.to_set() =~= due_set(candidates@, now)) by {
            assert forall|x: usize| o.to_set().contains(x) <==> due_set(candidates@, now).contains(x) by {
                if o.contains(x) {
                    let w = choose|w: int| 0 <= w < o.len() && o[w] == x;
                    assert(o[w] < primary.len() && member(o[w] as int));
                }
                if due_set(candidates@, now).contains(x) {
                    assert(member(x as int));
                }
            }
        }
        assert forall|a: int, b: int| 0 <= a < b < due.len() implies due@[a] != due@[b] by {
            assert(due@[a] == o[a] && due@[b] == o[b]);
        }
        assert forall|k: int| 0 <= k < due.len() implies #[trigger] due[k] < candidates.len()
            && candidates@[due[k] as int].due_at(now) by {
            assert(due@[k] == o[k]);
            assert(member(o[k] as int));
        }
        assert forall|k: int, j: usize|
            0 <= k < due.len() && #[trigger] due_set(candidates@, now).contains(j) && !due@.contains(j)
                implies deadline_keys(candidates@)[#[trigger] due[k] as int] <= deadline_keys(
            candidates@,
        )[j as int] by {
            assert(member(j as int));
            assert(o.contains(j));
            let q = choose|q: int| 0 <= q < o.len() && o[q] == j;
            if q < taken {
                assert(due@[q] == j);
            }
            assert(due@[k] == o[k]);
            assert(k < q);
            assert(key_before(primary@, secondary@, o[k] as int, o[q] as int));
        }
    }
    DueBatch { due, skipped_due_to_budget: order.len() - taken }
}

/// When the clock next makes an agent due.
#[derive(Clone, Copy, Debug, PartialEq, Eq, Structural)]
pub enum NextDeadline {
    /// Never: the agent evaluates only on request.
    Never,
    /// One (jittered) interval after this evaluation.
    AfterInterval,
}

/// The budget takes as many due agents as it allows and no more: all of
/// them when they fit, otherwise exactly `max`; the rest are counted as
/// skipped.
pub proof fn lemma_budget_takes_what_fits(due: int, max: usize)
    requires
        0 <= due,
    ensures
        0 <= within_budget(due, max) <= due,
        within_budget(due, max) <= max,
        due <= max ==> within_budget(due, max) == due,
        due > max ==> within_budget(due, max) == max && due - within_budget(due, max) == due - max,
{
}

/// An agent's evaluation bookkeeping once an evaluation is done.
#[derive(Clone, Copy, Debug, PartialEq, Eq, Structural)]
pub struct EvaluationBookkeeping {
    pub pending_request: bool,
    pub evaluation_count: u64,
    pub next_deadline: NextDeadline,
}

/// Closes an evaluation: the request is served, the count moves on by one
/// (saturating), and the next deadline follows the agent's mode.
pub fn finish_evaluation(mode: EvaluationMode, evaluation_count: u64) -> (r: EvaluationBookkeeping)
    ensures
        !r.pending_request,
        r.evaluation_count == (if evaluation_count == u64::MAX {
            u64::MAX
        } else {
            (evaluation_count + 1) as u64
        }),
        r.next_deadline == (match mode {
            EvaluationMode::Manual => NextDeadline::Never,
            EvaluationMode::Interval => NextDeadline::AfterInterval,
        }),
{
    EvaluationBookkeeping {
        pending_request: false,
        evaluation_count: evaluation_count.saturating_add(1),
        next_deadline: match mode {
            EvaluationMode::Manual => NextDeadline::Never,
            EvaluationMode::Interval => NextDeadline::AfterInterval,
        },
    }
}

/// A disabled agent is never due; in manual mode an agent is due only when
/// a re-evaluation was requested; an enabled agent with a pending request
/// is always due.
pub proof fn lemma_due_rules(c: DueCandidate, now: Real32)
    ensures
        !c.enabled ==> !c.due_at(now),
        c.mode is Manual && !c.pending_request ==> !c.due_at(now),
        c.enabled && c.pending_request ==> c.due_at(now),
{
}

} // verus!
