use vstd::prelude::*;

use crate::binary32::Real32;
use crate::selection::PriorityTier;
use crate::sorting::{
    ascending_members, flagged_positions, keyed_listing, lemma_keyed_listing_unique,
    lemma_sorted_members_listing, sort_by_keys, sorted_by_keys,
};

verus! {

/// What arbitration reads of one action of an agent, in child order.
#[derive(Clone, Copy, Debug, PartialEq, Eq, Structural)]
pub struct ActionStanding {
    pub is_fallback: bool,
    /// The latest scoring suppressed the action.
    pub suppressed: bool,
    pub priority: PriorityTier,
    pub priority_threshold: Real32,
    pub momentum_score: Real32,
}

impl ActionStanding {
    /// Unsuppressed, with a momentum-adjusted score above zero.
    pub open spec fn eligible(self) -> bool {
        !self.suppressed && Real32::zero().below(self.momentum_score)
    }

    /// The score reaches the action's tier threshold (clamped to `[0, 1]`).
    pub open spec fn meets_tier_threshold(self) -> bool {
        self.priority_threshold.unit_clamped().at_most(self.momentum_score)
    }

    /// May stand in when nothing else is eligible.
    pub open spec fn fallback_candidate(self) -> bool {
        self.is_fallback && !self.suppressed
    }

    pub fn is_eligible(&self) -> (r: bool)
        ensures
            r == self.eligible(),
    {
        !self.suppressed && Real32(0).lt(self.momentum_score)
    }

    pub fn reaches_tier_threshold(&self) -> (r: bool)
        ensures
            r == self.meets_tier_threshold(),
    {
        self.priority_threshold.clamp_unit().le(self.momentum_score)
    }
}

/// An action reaches its tier threshold exactly when its score is at least
/// the threshold clamped to `[0, 1]`: a threshold of zero or less asks for a
/// score of at least zero, one within `[0, 1]` asks for itself, one above one
/// asks for a score of at least one, and a NaN threshold or score is never
/// reached. So every eligible action (score above zero) reaches a threshold
/// of zero.
pub proof fn lemma_tier_threshold_against_clamp(s: ActionStanding)
    ensures
        s.priority_threshold.nan() || s.momentum_score.nan() ==> !s.meets_tier_threshold(),
        !s.priority_threshold.nan() && s.priority_threshold.rank() <= 0 ==> (s.meets_tier_threshold()
            <==> !s.momentum_score.nan() && s.momentum_score.rank() >= 0),
        !s.priority_threshold.nan() && 0 <= s.priority_threshold.rank() <= 0x3f80_0000 ==> (
        s.meets_tier_threshold() <==> !s.momentum_score.nan() && s.priority_threshold.rank()
            <= s.momentum_score.rank()),
        !s.priority_threshold.nan() && s.priority_threshold.rank() > 0x3f80_0000 ==> (
        s.meets_tier_threshold() <==> !s.momentum_score.nan() && s.momentum_score.rank()
            >= 0x3f80_0000),
        s.eligible() && !s.priority_threshold.nan() && s.priority_threshold.rank() <= 0
            ==> s.meets_tier_threshold(),
{
    crate::binary32::lemma_magnitude_bound(0u32);
    crate::binary32::lemma_magnitude_bound(0x3f80_0000u32);
}

/// The actions a strategy picks from, and the stand-in when there are none.
#[derive(Debug, PartialEq, Eq)]
pub struct SelectionPool {
    /// Positions (into the standings) of the candidates, by tier, and
    /// within a tier in declaration (child) order.
    pub pool: Vec<usize>,
    /// Position of the first unsuppressed fallback action.
    pub fallback: Option<usize>,
}

pub open spec fn tier_keys(a: Seq<ActionStanding>) -> Seq<i64> {
    Seq::new(a.len(), |i: int| a[i].priority.0 as i64)
}

/// No key between tier and position: within a tier, declaration order rules.
pub open spec fn no_keys(a: Seq<ActionStanding>) -> Seq<u64> {
    Seq::new(a.len(), |i: int| 0u64)
}

pub open spec fn eligible_member(a: Seq<ActionStanding>) -> spec_fn(int) -> bool {
    |i: int| a[i].eligible()
}

pub open spec fn tier_member(a: Seq<ActionStanding>, tier: u8) -> spec_fn(int) -> bool {
    |i: int| a[i].eligible() && a[i].priority.0 == tier
}

/// Some eligible action reaches its tier threshold.
pub open spec fn some_tier_met(a: Seq<ActionStanding>) -> bool {
    exists|i: int| 0 <= i < a.len() && a[i].eligible() && a[i].meets_tier_threshold()
}

/// `tier` is the lowest tier in which an eligible action reaches its threshold.
pub open spec fn lowest_met_tier(a: Seq<ActionStanding>, tier: u8) -> bool {
    &&& exists|i: int|
        0 <= i < a.len() && a[i].eligible() && a[i].meets_tier_threshold() && a[i].priority.0 == tier
    &&& forall|i: int|
        0 <= i < a.len() && a[i].eligible() && a[i].meets_tier_threshold() ==> tier <= a[i].priority.0
}

/// The listing, by key, of the positions `member` admits.
pub open spec fn listing_of(a: Seq<ActionStanding>, member: spec_fn(int) -> bool) -> Seq<usize> {
    choose|r: Seq<usize>| #[trigger] keyed_listing(tier_keys(a), no_keys(a), r, member)
}

/// The pool: the eligible actions of the lowest tier that reaches its
/// threshold, or, when no tier does, every eligible action.
pub open spec fn pool_of(a: Seq<ActionStanding>) -> Seq<usize> {
    if some_tier_met(a) {
        listing_of(a, tier_member(a, choose|t: u8| lowest_met_tier(a, t)))
    } else {
        listing_of(a, eligible_member(a))
    }
}

/// `f` is the first fallback candidate, or `None` when there is none.
pub open spec fn fallback_choice(a: Seq<ActionStanding>, f: Option<usize>) -> bool {
    match f {
        None => forall|i: int| 0 <= i < a.len() ==> !a[i].fallback_candidate(),
        Some(k) => k < a.len() && a[k as int].fallback_candidate() && forall|i: int|
            0 <= i < k ==> !a[i].fallback_candidate(),
    }
}

/// Ascending positions of the standings that `member` admits, with the
/// sort keys of every standing.
fn keys_and_members(
    standings: &Vec<ActionStanding>,
    tier: Option<u8>,
) -> (r: (Vec<i64>, Vec<u64>, Vec<usize>))
    ensures
        r.0@ == tier_keys(standings@),
        r.1@ == no_keys(standings@),
        ascending_members(
            standings@.len() as int,
            r.2@,
            match tier {
                None => eligible_member(standings@),
                Some(t) => tier_member(standings@, t),
            },
        ),
{
    let n = standings.len();
    let ghost member = match tier {
        None => eligible_member(standings@),
        Some(t) => tier_member(standings@, t),
    };
    let mut primary: Vec<i64> = Vec::new();
    let mut secondary: Vec<u64> = Vec::new();
    let mut flags: Vec<bool> = Vec::new();
    for i in 0..n
        invariant
            n == standings.len(),
            member == (match tier {
                None => eligible_member(standings@),
                Some(t) => tier_member(standings@, t),
            }),
            primary.len() == i,
            secondary.len() == i,
            flags.len() == i,
            forall|k: int| 0 <= k < i ==> #[trigger] primary[k] == tier_keys(standings@)[k],
            forall|k: int| 0 <= k < i ==> #[trigger] secondary[k] == no_keys(standings@)[k],
            forall|k: int| 0 <= k < i ==> #[trigger] flags[k] == member(k),
    {
        let s = &standings[i];
        primary.push(s.priority.0 as i64);
        secondary.push(0);
        let e = s.is_eligible();
        flags.push(
            match tier {
                None => e,
                Some(t) => e && s.priority.0 == t,
            },
        );
    }
    proof {
        assert(primary@ =~= tier_keys(standings@));
        assert(secondary@ =~= no_keys(standings@));
    }
    let members = flagged_positions(&flags, Ghost(member));
    (primary, secondary, members)
}

/// The keyed listing of the standings admitted by the eligibility test
/// (`tier` is `None`) or by eligibility within one tier.
fn listing(standings: &Vec<ActionStanding>, tier: Option<u8>) -> (r: Vec<usize>)
    ensures
        r@ == listing_of(
            standings@,
            match tier {
                None => eligible_member(standings@),
                Some(t) => tier_member(standings@, t),
            },
        ),
        keyed_listing(
            tier_keys(standings@),
            no_keys(standings@),
            r@,
            match tier {
                None => eligible_member(standings@),
                Some(t) => tier_member(standings@, t),
            },
        ),
{
    let (primary, secondary, members) = keys_and_members(standings, tier);
    let ghost member = match tier {
        None => eligible_member(standings@),
        Some(t) => tier_member(standings@, t),
    };
    let r = sort_by_keys(&primary, &secondary, &members);
    proof {
        lemma_sorted_members_listing(primary@, secondary@, members@, r@, member);
        lemma_keyed_listing_unique(
            primary@,
            secondary@,
            r@,
            listing_of(standings@, member),
            member,
        );
    }
    r
}

/// Groups the eligible actions by tier and keeps the first tier (lowest
/// value) in which some action reaches its threshold; without such a tier
/// every eligible action stays in. Also finds the fallback action.
pub fn selection_pool(standings: &Vec<ActionStanding>) -> (r: SelectionPool)
    ensures
        r.pool@ == pool_of(standings@),
        fallback_choice(standings@, r.fallback),
        r.pool@.no_duplicates(),
        // only eligible actions compete
        forall|k: int|
            0 <= k < r.pool.len() ==> #[trigger] r.pool[k] < standings.len() && standings@[r.pool[k] as int].eligible(),
        // every eligible action of the chosen tier competes, and nothing from another tier
        forall|t: u8| #[trigger] lowest_met_tier(standings@, t) ==> forall|k: int|
            0 <= k < r.pool.len() ==> standings@[#[trigger] r.pool[k] as int].priority.0 == t,
        forall|t: u8| #[trigger] lowest_met_tier(standings@, t) ==> forall|i: usize|
            i < standings.len() && standings@[i as int].eligible() && standings@[i as int].priority.0 == t
                ==> #[trigger] r.pool@.contains(i),
        !some_tier_met(standings@) ==> forall|i: usize|
            i < standings.len() && standings@[i as int].eligible() ==> #[trigger] r.pool@.contains(i),
        // by tier, then in declaration order (so the first action listed wins ties)
        sorted_by_keys(tier_keys(standings@), no_keys(standings@), r.pool@),
{
    let n = standings.len();
    let mut fallback: Option<usize> = None;
    let mut i: usize = 0;
    while i < n
        invariant
            n == standings.len(),
            0 <= i <= n,
            fallback is None ==> forall|j: int| 0 <= j < i ==> !standings@[j].fallback_candidate(),
            fallback matches Some(k) ==> k < n && standings@[k as int].fallback_candidate() && forall|
                j: int,
            |
                0 <= j < k ==> !standings@[j].fallback_candidate(),
        decreases n - i,
    {
        if fallback.is_none() && standings[i].is_fallback && !standings[i].suppressed {
            fallback = Some(i);
        }
        i = i + 1;
    }

    let eligible = listing(standings, None);
    let mut found: Option<u8> = None;
    let mut k: usize = 0;
    while k < eligible.len()
        invariant
            0 <= k <= eligible.len(),
            keyed_listing(tier_keys(standings@), no_keys(standings@), eligible@, eligible_member(standings@)),
            found is None ==> forall|q: int|
                0 <= q < k ==> !standings@[eligible@[q] as int].meets_tier_threshold(),
            found matches Some(t) ==> lowest_met_tier(standings@, t),
        decreases eligible.len() - k,
    {
        if found.is_none() {
            let s = &standings[eligible[k]];
            if s.reaches_tier_threshold() {
                found = Some(s.priority.0);
                proof {
                    let e = eligible@;
                    let pos = k as int;
                    assert(*s == standings@[e[pos] as int]);
                    assert(e[pos] < standings@.len());
                    assert(eligible_member(standings@)(e[pos] as int));
                    assert forall|j: int|
                        0 <= j < standings@.len() && standings@[j].eligible()
                            && standings@[j].meets_tier_threshold() implies s.priority.0
                        <= standings@[j].priority.0 by {
                        assert(0 <= j < standings.len());
                        assert(eligible_member(standings@)((j as usize) as int));
                        assert(e.contains(j as usize));
                        let q = choose|q: int| 0 <= q < e.len() && e[q] == j as usize;
                        if q < pos {
                            assert(!standings@[e[q] as int].meets_tier_threshold());
                        } else if q > pos {
                            assert(tier_keys(standings@)[e[pos] as int] <= tier_keys(
                                standings@,
                            )[e[q] as int]);
                        }
                    }
                }
            }
        }
        k = k + 1;
    }
    let pool = match found {
        Some(t) => {
            proof {
                assert(some_tier_met(standings@));
                let chosen = choose|t2: u8| lowest_met_tier(standings@, t2);
                assert(lowest_met_tier(standings@, chosen));
                assert(chosen == t);
            }
            let p = listing(standings, Some(t));
            proof {
                assert forall|t2: u8| #[trigger] lowest_met_tier(standings@, t2) implies forall|k: int|
                    0 <= k < p.len() ==> standings@[#[trigger] p[k] as int].priority.0 == t2 by {
                    assert forall|k: int| 0 <= k < p.len() implies standings@[#[trigger] p[k] as int].priority.0
                        == t2 by {
                        assert(tier_member(standings@, t)(p@[k] as int));
                    }
                }
                assert forall|k: int| 0 <= k < p.len() implies #[trigger] p[k] < standings.len()
                    && standings@[p[k] as int].eligible() by {
                    assert(tier_member(standings@, t)(p@[k] as int));
                }
                assert forall|t2: u8| #[trigger] lowest_met_tier(standings@, t2) implies forall|i: usize|
                    i < standings.len() && standings@[i as int].eligible() && standings@[i as int].priority.0
                        == t2 ==> #[trigger] p@.contains(i) by {
                    assert forall|i: usize|
                        i < standings.len() && standings@[i as int].eligible() && standings@[i as int].priority.0
                            == t2 implies #[trigger] p@.contains(i) by {
                        assert(tier_member(standings@, t)(i as int));
                    }
                }
            }
            p
        },
        None => {
            proof {
                if some_tier_met(standings@) {
                    let j = choose|j: int|
                        0 <= j < standings@.len() && standings@[j].eligible()
                            && standings@[j].meets_tier_threshold();
                    assert(0 <= j < standings.len());
                    assert(eligible_member(standings@)((j as usize) as int));
                    assert(eligible@.contains(j as usize));
                    let q = choose|q: int| 0 <= q < eligible@.len() && eligible@[q] == j as usize;
                    assert(!standings@[eligible@[q] as int].meets_tier_threshold());
                }
            }
            proof {
                assert forall|k: int| 0 <= k < eligible.len() implies #[trigger] eligible[k] < standings.len()
                    && standings@[eligible[k] as int].eligible() by {
                    assert(eligible_member(standings@)(eligible@[k] as int));
                }
                assert forall|t2: u8| #[trigger] lowest_met_tier(standings@, t2) implies false by {}
                assert forall|i: usize| i < standings.len() && standings@[i as int].eligible() implies #[trigger] eligible@.contains(i) by {
                    assert(eligible_member(standings@)(i as int));
                }
            }
            eligible
        },
    };
    SelectionPool { pool, fallback }
}

/// The action picked for an agent: with an empty pool, the fallback;
/// otherwise the pool entry at the index a strategy picked, if any.
pub fn chosen_action(pool: &SelectionPool, pick: Option<usize>) -> (r: Option<usize>)
    ensures
        pool.pool.len() == 0 ==> r == pool.fallback,
        pool.pool.len() > 0 ==> r == (match pick {
            Some(i) => if i < pool.pool.len() {
                Some(pool.pool[i as int])
            } else {
                None
            },
            None => None,
        }),
{
    if pool.pool.len() == 0 {
        pool.fallback
    } else {
        match pick {
            Some(i) => if i < pool.pool.len() {
                Some(pool.pool[i])
            } else {
                None
            },
            None => None,
        }
    }
}

/// With thresholds of zero or less every eligible action reaches its tier,
/// so the pool is exactly the eligible actions of the lowest tier that has
/// any, listed in declaration order.
pub proof fn lemma_zero_thresholds_keep_lowest_eligible_tier(a: Seq<ActionStanding>, t: u8)
    requires
        forall|i: int|
            0 <= i < a.len() ==> !(#[trigger] a[i]).priority_threshold.nan()
                && a[i].priority_threshold.rank() <= 0,
        exists|i: int| 0 <= i < a.len() && (#[trigger] a[i]).eligible() && a[i].priority.0 == t,
        forall|i: int| 0 <= i < a.len() && (#[trigger] a[i]).eligible() ==> t <= a[i].priority.0,
    ensures
        some_tier_met(a),
        lowest_met_tier(a, t),
        pool_of(a) == listing_of(a, tier_member(a, t)),
{
    let w = choose|i: int| 0 <= i < a.len() && (#[trigger] a[i]).eligible() && a[i].priority.0 == t;
    lemma_tier_threshold_against_clamp(a[w]);
    assert forall|i: int| 0 <= i < a.len() && (#[trigger] a[i]).eligible() implies a[i].meets_tier_threshold() by {
        lemma_tier_threshold_against_clamp(a[i]);
    }
    assert(lowest_met_tier(a, t));
    assert(some_tier_met(a));
    let chosen = choose|t2: u8| lowest_met_tier(a, t2);
    assert(lowest_met_tier(a, chosen));
    let wc = choose|i: int|
        0 <= i < a.len() && a[i].eligible() && a[i].meets_tier_threshold() && a[i].priority.0 == chosen;
    assert(t <= chosen);
    assert(chosen <= t);
}

/// A suppressed action is never chosen: the chosen action is either a pool
/// member (eligible, so unsuppressed) or the unsuppressed fallback.
pub proof fn lemma_chosen_action_unsuppressed(
    standings: Seq<ActionStanding>,
    pool: Seq<usize>,
    fallback: Option<usize>,
    pick: Option<usize>,
    chosen: Option<usize>,
)
    requires
        forall|k: int| 0 <= k < pool.len() ==> #[trigger] pool[k] < standings.len() && standings[pool[k] as int].eligible(),
        fallback_choice(standings, fallback),
        pool.len() == 0 ==> chosen == fallback,
        pool.len() > 0 ==> chosen == (match pick {
            Some(i) => if i < pool.len() {
                Some(pool[i as int])
            } else {
                None
            },
            None => None,
        }),
    ensures
        chosen matches Some(c) ==> c < standings.len() && !standings[c as int].suppressed,
{
    if pool.len() > 0 {
        if let Some(i) = pick {
            if i < pool.len() {
                assert(pool[i as int] < standings.len() && standings[pool[i as int] as int].eligible());
            }
        }
    }
}

/// When no action is eligible the pool is empty, so the fallback (if any)
/// is what gets chosen.
pub proof fn lemma_fallback_stands_in_when_nothing_competes(standings: Seq<ActionStanding>)
    requires
        forall|i: int| 0 <= i < standings.len() ==> !(#[trigger] standings[i]).eligible(),
    ensures
        pool_of(standings) == Seq::<usize>::empty(),
{
    let empty = Seq::<usize>::empty();
    assert(!some_tier_met(standings));
    assert forall|i: usize| 0 <= i < tier_keys(standings).len() && eligible_member(standings)(i as int) implies #[trigger] empty.contains(i) by {
        assert(!standings[i as int].eligible());
    }
    assert(keyed_listing(tier_keys(standings), no_keys(standings), empty, eligible_member(standings)));
    lemma_keyed_listing_unique(
        tier_keys(standings),
        no_keys(standings),
        empty,
        listing_of(standings, eligible_member(standings)),
        eligible_member(standings),
    );
}

} // verus!
