use vstd::prelude::*;
use crate::binary32::{lemma_magnitude_bound, Real32};
use crate::sorting::{
    ascending_members, flagged_positions, key_before, keyed_listing, lemma_keyed_listing_unique, lemma_sorted_members_listing,
    sort_by_keys,
};

verus! {

/// Priority tier of an action: lower tiers are considered first.
#[derive(Clone, Copy, Debug, PartialEq, Eq, Structural, Hash, PartialOrd, Ord)]
pub struct PriorityTier(pub u8);

impl PriorityTier {
    /// Emergency overrides such as flee or heal.
    pub fn critical() -> (r: PriorityTier)
        ensures
            r.0 == 0,
    {
        PriorityTier(0)
    }

    /// The default tier of an action.
    pub fn tactical() -> (r: PriorityTier)
        ensures
            r.0 == 10,
    {
        PriorityTier(10)
    }

    /// Idle and ambient behaviour.
    pub fn flavor() -> (r: PriorityTier)
        ensures
            r.0 == 20,
    {
        PriorityTier(20)
    }
}

/// How one entry is picked among scored candidates.
#[derive(Clone, Copy, Debug, PartialEq, Eq, Structural)]
pub enum SelectionStrategy {
    HighestScore,
    WeightedRandom,
    TopNRandom { count: usize },
    ThresholdFirst { threshold: Real32 },
    TopBandRandom { percent_within_best: Real32 },
}

impl Default for SelectionStrategy {
    fn default() -> (r: Self)
        ensures
            r == SelectionStrategy::HighestScore,
    {
        SelectionStrategy::HighestScore
    }
}

pub open spec fn wrap_add(x: u64, y: u64) -> u64 {
    ((x + y) % 0x1_0000_0000_0000_0000int) as u64
}

pub open spec fn wrap_mul(x: u64, y: u64) -> u64 {
    ((x * y) % 0x1_0000_0000_0000_0000int) as u64
}

/// The seed mixer (SplitMix64 finaliser) that drives every seeded choice.
pub open spec fn mixed(state: u64) -> u64 {
    let s0 = wrap_add(state, 0x9E37_79B9_7F4A_7C15);
    let s1 = wrap_mul(s0 ^ (s0 >> 30u64), 0xBF58_476D_1CE4_E5B9);
    let s2 = wrap_mul(s1 ^ (s1 >> 27u64), 0x94D0_49BB_1331_11EB);
    s2 ^ (s2 >> 31u64)
}

pub fn mix_u64(state: u64) -> (r: u64)
    ensures
        r == mixed(state),
{
    let s0 = state.wrapping_add(0x9E37_79B9_7F4A_7C15);
    let s1 = (s0 ^ (s0 >> 30u64)).wrapping_mul(0xBF58_476D_1CE4_E5B9);
    let s2 = (s1 ^ (s1 >> 27u64)).wrapping_mul(0x94D0_49BB_1331_11EB);
    s2 ^ (s2 >> 31u64)
}


/// Index `i` holds a finite score strictly above zero.
pub open spec fn positive_at(scores: Seq<Real32>, i: int) -> bool {
    0 <= i < scores.len() && scores[i].positive()
}

/// Some index holds a positive score.
pub open spec fn any_positive(scores: Seq<Real32>) -> bool {
    exists|i: int| positive_at(scores, i)
}

/// Index `i` is ranked no later than index `j`: the higher score first,
/// and on equal scores the lower index first.
pub open spec fn ranked_before(scores: Seq<Real32>, i: int, j: int) -> bool {
    scores[i].total_rank() > scores[j].total_rank() || (scores[i].total_rank()
        == scores[j].total_rank() && i <= j)
}

/// `r` lists every index with a positive score exactly once, best first.
pub open spec fn ranked_order(scores: Seq<Real32>, r: Seq<usize>) -> bool {
    &&& r.no_duplicates()
    &&& forall|k: int| 0 <= k < r.len() ==> positive_at(scores, #[trigger] r[k] as int)
    &&& forall|i: usize| positive_at(scores, i as int) ==> #[trigger] r.contains(i)
    &&& forall|a: int, b: int|
        0 <= a < b < r.len() ==> ranked_before(scores, #[trigger] r[a] as int, #[trigger] r[b] as int)
}

/// The positive indices, best first (the ranking is unique: see
/// `lemma_ranked_order_unique`).
pub open spec fn ranked_positive(scores: Seq<Real32>) -> Seq<usize> {
    choose|r: Seq<usize>| ranked_order(scores, r)
}

/// `k` is the best positive index: no positive index is ranked ahead of it.
pub open spec fn is_best(scores: Seq<Real32>, k: int) -> bool {
    positive_at(scores, k) && forall|j: int| positive_at(scores, j) ==> ranked_before(scores, k, j)
}

/// Index `i` meets the threshold: a finite score at or above it.
pub open spec fn meets_threshold(scores: Seq<Real32>, threshold: Real32, i: int) -> bool {
    0 <= i < scores.len() && scores[i].finite() && threshold.at_most(scores[i])
}

/// The slot of a seeded uniform pick among `n` entries.
pub open spec fn uniform_slot(seed: u64, n: int) -> int {
    (mixed(seed) as usize) as int % n
}

/// The number of best-ranked entries a top-N pick draws from.
pub open spec fn top_count(count: usize, available: int) -> int {
    let wanted = if count == 0 { 1 } else { count as int };
    if wanted < available { wanted } else { available }
}

/// `c` lists every index with a positive score, in increasing order.
pub open spec fn ascending_positive(scores: Seq<Real32>, c: Seq<usize>) -> bool {
    &&& forall|a: int, b: int| 0 <= a < b < c.len() ==> c[a] < c[b]
    &&& forall|k: int| 0 <= k < c.len() ==> positive_at(scores, #[trigger] c[k] as int)
    &&& forall|i: usize| positive_at(scores, i as int) ==> #[trigger] c.contains(i)
}

/// `c` is the first index meeting the threshold, or `None` when no index does.
pub open spec fn threshold_choice(scores: Seq<Real32>, threshold: Real32, c: Option<usize>) -> bool {
    match c {
        None => forall|j: int| !meets_threshold(scores, threshold, j),
        Some(k) => meets_threshold(scores, threshold, k as int) && forall|j: int|
            0 <= j < k ==> !meets_threshold(scores, threshold, j),
    }
}

/// Indices of the positive scores, in increasing order.
pub fn positive_indices(scores: &[Real32]) -> (r: Vec<usize>)
    ensures
        ascending_positive(scores@, r@),
{
    let n = scores.len();
    let mut flags: Vec<bool> = Vec::new();
    for i in 0..n
        invariant
            n == scores.len(),
            flags.len() == i,
            forall|k: int| 0 <= k < i ==> #[trigger] flags[k] == positive_member(scores@)(k),
    {
        flags.push(scores[i].is_positive());
    }
    let r = flagged_positions(&flags, Ghost(positive_member(scores@)));
    proof {
        assert forall|k: int| 0 <= k < r.len() implies positive_at(scores@, #[trigger] r[k] as int) by {
            assert(positive_member(scores@)(r[k] as int));
        }
        assert forall|i: usize| positive_at(scores@, i as int) implies #[trigger] r@.contains(i) by {
            assert(positive_member(scores@)(i as int));
        }
    }
    r
}

/// The best positive index: the highest score, the lowest index on ties.
pub fn highest_score_index(scores: &[Real32]) -> (r: Option<usize>)
    ensures
        r is None <==> !any_positive(scores@),
        r matches Some(k) ==> is_best(scores@, k as int),
{
    let mut best: Option<usize> = None;
    let n = scores.len();
    for i in 0..n
        invariant
            n == scores.len(),
            best is None ==> forall|j: int| 0 <= j < i ==> !positive_at(scores@, j),
            best matches Some(k) ==> {
                &&& k < i
                &&& positive_at(scores@, k as int)
                &&& forall|j: int| 0 <= j < i && positive_at(scores@, j) ==> ranked_before(scores@, k as int, j)
            },
    {
        if scores[i].is_positive() {
            match best {
                None => {
                    best = Some(i);
                },
                Some(k) => {
                    if scores[i].total_rank_value() > scores[k].total_rank_value() {
                        best = Some(i);
                    }
                },
            }
        }
    }
    proof {
        if best is None {
            assert forall|j: int| !positive_at(scores@, j) by {}
        } else {
            let k = best->0;
            assert(any_positive(scores@));
        }
    }
    best
}

/// The first index (in declaration order) whose score meets the threshold.
pub fn threshold_first(scores: &[Real32], threshold: Real32) -> (r: Option<usize>)
    ensures
        threshold_choice(scores@, threshold, r),
{
    let n = scores.len();
    for i in 0..n
        invariant
            n == scores.len(),
            forall|j: int| 0 <= j < i ==> !meets_threshold(scores@, threshold, j),
    {
        if scores[i].is_finite() && threshold.le(scores[i]) {
            return Some(i);
        }
    }
    None
}

/// A seeded uniform pick: the entry at slot `mix(seed) mod len`.
pub fn uniform_pick(indices: &Vec<usize>, seed: u64) -> (r: Option<usize>)
    ensures
        indices.len() == 0 ==> r is None,
        indices.len() > 0 ==> r == Some(indices[uniform_slot(seed, indices.len() as int)]),
{
    if indices.len() == 0 {
        return None;
    }
    let m = mix_u64(seed);
    let slot = (m as usize) % indices.len();
    Some(indices[slot])
}

/// Sort keys under which `sort_by_keys` ranks positions best first.
pub open spec fn descending_score_keys(scores: Seq<Real32>) -> Seq<i64> {
    Seq::new(scores.len(), |i: int| (-scores[i].total_rank()) as i64)
}

pub open spec fn zero_keys(scores: Seq<Real32>) -> Seq<u64> {
    Seq::new(scores.len(), |i: int| 0u64)
}

pub open spec fn positive_member(scores: Seq<Real32>) -> spec_fn(int) -> bool {
    |i: int| positive_at(scores, i)
}

/// A ranking is the keyed listing of the positive positions under
/// descending-score keys.
proof fn lemma_ranked_order_is_keyed_listing(scores: Seq<Real32>, r: Seq<usize>)
    requires
        scores.len() <= usize::MAX,
    ensures
        ranked_order(scores, r) <==> keyed_listing(
            descending_score_keys(scores),
            zero_keys(scores),
            r,
            positive_member(scores),
        ),
{
    let p = descending_score_keys(scores);
    let z = zero_keys(scores);
    assert forall|i: int, j: int| 0 <= i < scores.len() && 0 <= j < scores.len() implies (
    key_before(p, z, i, j) <==> ranked_before(scores, i, j)) by {
        lemma_magnitude_bound(scores[i].0);
        lemma_magnitude_bound(scores[j].0);
    }
    if ranked_order(scores, r) {
        assert forall|a: int, b: int| 0 <= a < b < r.len() implies key_before(
            p,
            z,
            #[trigger] r[a] as int,
            #[trigger] r[b] as int,
        ) by {
            assert(positive_at(scores, r[a] as int) && positive_at(scores, r[b] as int));
        }
        assert forall|i: usize| 0 <= i < p.len() && positive_member(scores)(i as int) implies #[trigger] r.contains(i) by {
            assert(positive_at(scores, i as int));
        }
    }
    if keyed_listing(p, z, r, positive_member(scores)) {
        assert forall|k: int| 0 <= k < r.len() implies positive_at(scores, #[trigger] r[k] as int) by {
            assert(positive_member(scores)(r[k] as int));
        }
        assert forall|a: int, b: int| 0 <= a < b < r.len() implies ranked_before(
            scores,
            #[trigger] r[a] as int,
            #[trigger] r[b] as int,
        ) by {
            assert(r[a] < p.len() && r[b] < p.len());
            assert(key_before(p, z, r[a] as int, r[b] as int));
        }
        assert forall|i: usize| positive_at(scores, i as int) implies #[trigger] r.contains(i) by {
            assert(positive_member(scores)(i as int));
        }
    }
}

/// Two rankings of the same scores are the same sequence.
pub proof fn lemma_ranked_order_unique(scores: Seq<Real32>, r1: Seq<usize>, r2: Seq<usize>)
    requires
        scores.len() <= usize::MAX,
        ranked_order(scores, r1),
        ranked_order(scores, r2),
    ensures
        r1 == r2,
{
    lemma_ranked_order_is_keyed_listing(scores, r1);
    lemma_ranked_order_is_keyed_listing(scores, r2);
    lemma_keyed_listing_unique(
        descending_score_keys(scores),
        zero_keys(scores),
        r1,
        r2,
        positive_member(scores),
    );
}

/// Every positive index, best first.
pub fn ranked_positive_indices(scores: &[Real32]) -> (r: Vec<usize>)
    ensures
        ranked_order(scores@, r@),
        r@ == ranked_positive(scores@),
{
    let n = scores.len();
    let mut primary: Vec<i64> = Vec::new();
    let mut secondary: Vec<u64> = Vec::new();
    for i in 0..n
        invariant
            n == scores.len(),
            primary.len() == i,
            secondary.len() == i,
            forall|k: int| 0 <= k < i ==> #[trigger] primary[k] == descending_score_keys(scores@)[k],
            forall|k: int| 0 <= k < i ==> #[trigger] secondary[k] == zero_keys(scores@)[k],
    {
        primary.push(-scores[i].total_rank_value());
        secondary.push(0);
    }
    let p = positive_indices(scores);
    proof {
        assert(primary@ =~= descending_score_keys(scores@));
        assert(secondary@ =~= zero_keys(scores@));
        assert(ascending_members(primary@.len() as int, p@, positive_member(scores@))) by {
            assert forall|k: int| 0 <= k < p.len() implies #[trigger] p[k] < primary@.len()
                && positive_member(scores@)(p[k] as int) by {
                assert(positive_at(scores@, p[k] as int));
            }
            assert forall|i: usize| 0 <= i < primary@.len() && positive_member(scores@)(i as int) implies #[trigger] p@.contains(i) by {
                assert(positive_at(scores@, i as int));
            }
        }
    }
    let r = sort_by_keys(&primary, &secondary, &p);
    proof {
        lemma_sorted_members_listing(primary@, secondary@, p@, r@, positive_member(scores@));
        lemma_ranked_order_is_keyed_listing(scores@, r@);
        lemma_ranked_order_unique(scores@, r@, ranked_positive(scores@));
    }
    r
}

/// What a selection strategy makes of a list of scores. Strategies that
/// weigh scores against each other leave a seeded draw to be made.
#[derive(Debug, PartialEq, Eq)]
pub enum SelectionPlan {
    /// The choice is made: an index into the scores, or none.
    Chosen(Option<usize>),
    /// A seeded draw among `candidates`, each weighted by its score.
    Weighted { candidates: Vec<usize> },
    /// Keep the `candidates` whose score is within `percent_within_best`
    /// (clamped to the unit interval) of `best`, then draw among them
    /// weighted by score.
    Band { candidates: Vec<usize>, best: Real32, percent_within_best: Real32 },
}

/// The plan that `strategy` makes for `scores` under `seed`.
pub open spec fn plan_meets(
    scores: Seq<Real32>,
    strategy: SelectionStrategy,
    seed: u64,
    plan: SelectionPlan,
) -> bool {
    if !any_positive(scores) {
        plan == SelectionPlan::Chosen(None)
    } else {
        match strategy {
            SelectionStrategy::HighestScore => plan matches SelectionPlan::Chosen(Some(k)) && is_best(
                scores,
                k as int,
            ),
            SelectionStrategy::TopNRandom { count } => exists|ranked: Seq<usize>|
                #[trigger] ranked_order(scores, ranked) && plan == SelectionPlan::Chosen(
                    Some(ranked[uniform_slot(seed, top_count(count, ranked.len() as int))]),
                ),
            SelectionStrategy::ThresholdFirst { threshold } => plan matches SelectionPlan::Chosen(c)
                && threshold_choice(scores, threshold, c),
            SelectionStrategy::WeightedRandom => plan matches SelectionPlan::Weighted { candidates }
                && ascending_positive(scores, candidates@),
            SelectionStrategy::TopBandRandom { percent_within_best } => plan matches SelectionPlan::Band {
                candidates,
                best,
                percent_within_best: p,
            } && ascending_positive(scores, candidates@) && p == percent_within_best && exists|k: int|
                is_best(scores, k) && best == scores[k],
        }
    }
}

/// Applies a selection strategy to a list of scores. Only finite scores
/// above zero take part; with none of them nothing is chosen.
pub fn plan_selection(scores: &[Real32], strategy: &SelectionStrategy, seed: u64) -> (r:
    SelectionPlan)
    ensures
        plan_meets(scores@, *strategy, seed, r),
{
    let positive = positive_indices(scores);
    if positive.len() == 0 {
        proof {
            if any_positive(scores@) {
                let i = choose|i: int| positive_at(scores@, i);
                assert(0 <= i < scores.len());
                assert(positive_at(scores@, (i as usize) as int));
                assert(positive@.contains(i as usize));
            }
        }
        return SelectionPlan::Chosen(None);
    }
    proof {
        assert(positive_at(scores@, positive[0] as int));
    }
    match strategy {
        SelectionStrategy::HighestScore => SelectionPlan::Chosen(highest_score_index(scores)),
        SelectionStrategy::TopNRandom { count } => {
            let ranked = ranked_positive_indices(scores);
            let wanted = if *count == 0 { 1 } else { *count };
            let take = if wanted < ranked.len() { wanted } else { ranked.len() };
            let mut top: Vec<usize> = Vec::new();
            let mut k: usize = 0;
            proof {
                assert(ranked@.contains(positive[0]));
            }
            while k < take
                invariant
                    0 <= k <= take,
                    take <= ranked.len(),
                    top@ == ranked@.take(k as int),
                decreases take - k,
            {
                top.push(ranked[k]);
                k = k + 1;
                proof {
                    assert(top@ =~= ranked@.take(k as int));
                }
            }
            SelectionPlan::Chosen(uniform_pick(&top, seed))
        },
        SelectionStrategy::ThresholdFirst { threshold } => SelectionPlan::Chosen(
            threshold_first(scores, *threshold),
        ),
        SelectionStrategy::WeightedRandom => SelectionPlan::Weighted { candidates: positive },
        SelectionStrategy::TopBandRandom { percent_within_best } => {
            let h = highest_score_index(scores);
            match h {
                Some(k) => SelectionPlan::Band {
                    candidates: positive,
                    best: scores[k],
                    percent_within_best: *percent_within_best,
                },
                None => SelectionPlan::Chosen(None),
            }
        },
    }
}

/// No strategy picks an index outside the scores: a chosen index, and
/// every candidate left for a seeded draw, is a valid position. Apart
/// from a threshold pick (which takes any finite score that meets the
/// threshold), each of them holds a positive score.
pub proof fn lemma_plan_stays_in_range(
    scores: Seq<Real32>,
    strategy: SelectionStrategy,
    seed: u64,
    plan: SelectionPlan,
)
    requires
        scores.len() <= usize::MAX,
        plan_meets(scores, strategy, seed, plan),
    ensures
        plan matches SelectionPlan::Chosen(Some(k)) ==> k < scores.len() && (!(
        strategy is ThresholdFirst) ==> positive_at(scores, k as int)),
        plan matches SelectionPlan::Weighted { candidates } ==> forall|q: int|
            0 <= q < candidates.len() ==> positive_at(scores, #[trigger] candidates@[q] as int),
        plan matches SelectionPlan::Band { candidates, .. } ==> forall|q: int|
            0 <= q < candidates.len() ==> positive_at(scores, #[trigger] candidates@[q] as int),
{
    if any_positive(scores) {
        if let SelectionStrategy::TopNRandom { count } = strategy {
            let ranked = choose|ranked: Seq<usize>|
                #[trigger] ranked_order(scores, ranked) && plan == SelectionPlan::Chosen(
                    Some(ranked[uniform_slot(seed, top_count(count, ranked.len() as int))]),
                );
            let i = choose|i: int| positive_at(scores, i);
            assert(0 <= i < scores.len());
            assert(ranked_order(scores, ranked));
            assert(ranked.contains(i as usize));
            let n = top_count(count, ranked.len() as int);
            assert(n >= 1);
            let slot = uniform_slot(seed, n);
            assert(0 <= slot < n);
            assert(positive_at(scores, ranked[slot] as int));
        }
    }
}

/// The best positive index has the highest score, and among equal scores
/// it is the lowest index.
pub proof fn lemma_best_is_highest_then_first(scores: Seq<Real32>, k: int)
    requires
        is_best(scores, k),
    ensures
        forall|j: int| positive_at(scores, j) ==> (#[trigger] scores[j]).rank() <= scores[k].rank(),
        forall|j: int|
            positive_at(scores, j) && (#[trigger] scores[j]).rank() == scores[k].rank() ==> k <= j,
{
    assert forall|j: int| positive_at(scores, j) implies (#[trigger] scores[j]).rank() <= scores[k].rank() by {
        assert(ranked_before(scores, k, j));
    }
    assert forall|j: int| positive_at(scores, j) && (#[trigger] scores[j]).rank() == scores[k].rank() implies k <= j by {
        assert(ranked_before(scores, k, j));
    }
}

/// A score meets a threshold exactly when it is finite and not below the
/// threshold (a NaN threshold is never met).
pub proof fn lemma_threshold_met_conditions(scores: Seq<Real32>, threshold: Real32, i: int)
    ensures
        meets_threshold(scores, threshold, i) <==> 0 <= i < scores.len() && scores[i].finite()
            && !threshold.nan() && threshold.rank() <= scores[i].rank(),
{
}

/// A top-N draw is made among `N` entries (one when `N` is zero), or among
/// all of them when fewer are available.
pub proof fn lemma_top_count_bounds(count: usize, available: int)
    requires
        available >= 1,
    ensures
        1 <= top_count(count, available) <= available,
        count == 0 ==> top_count(count, available) == 1,
        1 <= count <= available ==> top_count(count, available) == count,
        count >= available ==> top_count(count, available) == available,
{
}

/// A top-N pick is one of the N best positive indices (all of them when
/// fewer than N are positive; at least the best one when N is zero).
pub proof fn lemma_top_n_pick_is_among_best(
    scores: Seq<Real32>,
    count: usize,
    seed: u64,
    plan: SelectionPlan,
)
    requires
        scores.len() <= usize::MAX,
        any_positive(scores),
        plan_meets(scores, SelectionStrategy::TopNRandom { count }, seed, plan),
    ensures
        plan matches SelectionPlan::Chosen(Some(k)) && ranked_positive(scores).take(
            top_count(count, ranked_positive(scores).len() as int),
        ).contains(k),
{
    let ranked = choose|ranked: Seq<usize>|
        #[trigger] ranked_order(scores, ranked) && plan == SelectionPlan::Chosen(
            Some(ranked[uniform_slot(seed, top_count(count, ranked.len() as int))]),
        );
    lemma_ranked_order_unique(scores, ranked, ranked_positive(scores));
    let i = choose|i: int| positive_at(scores, i);
    assert(0 <= i < scores.len());
    assert(ranked.contains(i as usize));
    let n = top_count(count, ranked.len() as int);
    let slot = uniform_slot(seed, n);
    assert(0 <= slot < n);
    assert(ranked.take(n)[slot] == ranked[slot]);
}

pub open spec fn flat_keys(scores: Seq<Real32>) -> Seq<i64> {
    Seq::new(scores.len(), |i: int| 0i64)
}

/// An ascending listing of the positive positions is unique.
proof fn lemma_ascending_positive_unique(scores: Seq<Real32>, c1: Seq<usize>, c2: Seq<usize>)
    requires
        scores.len() <= usize::MAX,
        ascending_positive(scores, c1),
        ascending_positive(scores, c2),
    ensures
        c1 == c2,
{
    let p = flat_keys(scores);
    let z = zero_keys(scores);
    assert forall|c: Seq<usize>| ascending_positive(scores, c) implies keyed_listing(
        p,
        z,
        c,
        positive_member(scores),
    ) by {
        assert forall|a: int, b: int| 0 <= a < b < c.len() implies key_before(
            p,
            z,
            #[trigger] c[a] as int,
            #[trigger] c[b] as int,
        ) by {
            assert(positive_at(scores, c[a] as int) && positive_at(scores, c[b] as int));
        }
        assert forall|k: int| 0 <= k < c.len() implies #[trigger] c[k] < p.len() && positive_member(
            scores,
        )(c[k] as int) by {
            assert(positive_at(scores, c[k] as int));
        }
        assert forall|i: usize| 0 <= i < p.len() && positive_member(scores)(i as int) implies #[trigger] c.contains(i) by {
            assert(positive_at(scores, i as int));
        }
    }
    lemma_keyed_listing_unique(p, z, c1, c2, positive_member(scores));
}

/// Selection is repeatable: the same scores, strategy and seed always give
/// the same plan (the same pick, or the same draw to make).
pub proof fn lemma_plans_are_repeatable(
    scores: Seq<Real32>,
    strategy: SelectionStrategy,
    seed: u64,
    first: SelectionPlan,
    second: SelectionPlan,
)
    requires
        scores.len() <= usize::MAX,
        plan_meets(scores, strategy, seed, first),
        plan_meets(scores, strategy, seed, second),
    ensures
        first matches SelectionPlan::Chosen(c) ==> second == SelectionPlan::Chosen(c),
        first matches SelectionPlan::Weighted { candidates } ==> second matches SelectionPlan::Weighted {
            candidates: other,
        } && other@ == candidates@,
        first matches SelectionPlan::Band { candidates, best, percent_within_best } ==> second matches SelectionPlan::Band {
            candidates: other,
            best: other_best,
            percent_within_best: other_percent,
        } && other@ == candidates@ && other_best == best && other_percent == percent_within_best,
{
    if any_positive(scores) {
        match strategy {
            SelectionStrategy::HighestScore => {
                let k1 = first->0->0;
                let k2 = second->0->0;
                assert(ranked_before(scores, k1 as int, k2 as int));
                assert(ranked_before(scores, k2 as int, k1 as int));
            },
            SelectionStrategy::TopNRandom { count } => {
                let r1 = choose|ranked: Seq<usize>|
                    #[trigger] ranked_order(scores, ranked) && first == SelectionPlan::Chosen(
                        Some(ranked[uniform_slot(seed, top_count(count, ranked.len() as int))]),
                    );
                let r2 = choose|ranked: Seq<usize>|
                    #[trigger] ranked_order(scores, ranked) && second == SelectionPlan::Chosen(
                        Some(ranked[uniform_slot(seed, top_count(count, ranked.len() as int))]),
                    );
                lemma_ranked_order_unique(scores, r1, r2);
            },
            SelectionStrategy::ThresholdFirst { threshold } => {
                let c1 = first->0;
                let c2 = second->0;
                if c1 is Some && c2 is Some {
                    let k1 = c1->0;
                    let k2 = c2->0;
                    assert(k1 == k2) by {
                        if k1 < k2 {
                            assert(!meets_threshold(scores, threshold, k1 as int));
                        } else if k2 < k1 {
                            assert(!meets_threshold(scores, threshold, k2 as int));
                        }
                    }
                } else if c1 is Some {
                    assert(!meets_threshold(scores, threshold, c1->0 as int));
                } else if c2 is Some {
                    assert(!meets_threshold(scores, threshold, c2->0 as int));
                }
            },
            SelectionStrategy::WeightedRandom => {
                lemma_ascending_positive_unique(scores, first->Weighted_candidates@, second->Weighted_candidates@);
            },
            SelectionStrategy::TopBandRandom { percent_within_best } => {
                lemma_ascending_positive_unique(
                    scores,
                    first->Band_candidates@,
                    second->Band_candidates@,
                );
                let k1 = choose|k: int| is_best(scores, k) && first->best == scores[k];
                let k2 = choose|k: int| is_best(scores, k) && second->best == scores[k];
                assert(ranked_before(scores, k1, k2));
                assert(ranked_before(scores, k2, k1));
            },
        }
    }
}

} // verus!
