use vstd::prelude::*;
use vstd::seq_lib::*;

verus! {

/// Entry `i` sorts no later than entry `j` under the key
/// (primary, secondary, position), compared lexicographically.
pub open spec fn key_before(primary: Seq<i64>, secondary: Seq<u64>, i: int, j: int) -> bool {
    primary[i] < primary[j] || (primary[i] == primary[j] && (secondary[i] < secondary[j] || (
    secondary[i] == secondary[j] && i <= j)))
}

/// Positions of `r` are sorted by `key_before`.
pub open spec fn sorted_by_keys(primary: Seq<i64>, secondary: Seq<u64>, r: Seq<usize>) -> bool {
    forall|a: int, b: int|
        0 <= a < b < r.len() ==> key_before(primary, secondary, #[trigger] r[a] as int, #[trigger] r[b] as int)
}

/// `c` lists, in increasing order, every position below `len` that is a member.
pub open spec fn ascending_members(len: int, c: Seq<usize>, member: spec_fn(int) -> bool) -> bool {
    &&& forall|a: int, b: int| 0 <= a < b < c.len() ==> c[a] < c[b]
    &&& forall|k: int| 0 <= k < c.len() ==> #[trigger] c[k] < len && member(c[k] as int)
    &&& forall|i: usize| 0 <= i < len && member(i as int) ==> #[trigger] c.contains(i)
}

/// `r` lists every member position exactly once, sorted by key.
pub open spec fn keyed_listing(
    primary: Seq<i64>,
    secondary: Seq<u64>,
    r: Seq<usize>,
    member: spec_fn(int) -> bool,
) -> bool {
    &&& r.no_duplicates()
    &&& forall|k: int| 0 <= k < r.len() ==> #[trigger] r[k] < primary.len() && member(r[k] as int)
    &&& forall|i: usize| 0 <= i < primary.len() && member(i as int) ==> #[trigger] r.contains(i)
    &&& sorted_by_keys(primary, secondary, r)
}

proof fn lemma_key_before_total(primary: Seq<i64>, secondary: Seq<u64>, i: int, j: int)
    ensures
        key_before(primary, secondary, i, j) || key_before(primary, secondary, j, i),
        key_before(primary, secondary, i, j) && key_before(primary, secondary, j, i) ==> i == j,
{
}

/// A keyed listing of a set of positions is unique.
pub proof fn lemma_keyed_listing_unique(
    primary: Seq<i64>,
    secondary: Seq<u64>,
    r1: Seq<usize>,
    r2: Seq<usize>,
    member: spec_fn(int) -> bool,
)
    requires
        keyed_listing(primary, secondary, r1, member),
        keyed_listing(primary, secondary, r2, member),
    ensures
        r1 == r2,
{
    assert forall|x: usize| r1.contains(x) <==> r2.contains(x) by {
        if r1.contains(x) {
            let w = choose|w: int| 0 <= w < r1.len() && r1[w] == x;
            assert(x < primary.len() && member(x as int));
        }
        if r2.contains(x) {
            let w = choose|w: int| 0 <= w < r2.len() && r2[w] == x;
            assert(x < primary.len() && member(x as int));
        }
    }
    lemma_sorted_unique(primary, secondary, r1, r2);
}

proof fn lemma_sorted_unique(primary: Seq<i64>, secondary: Seq<u64>, r1: Seq<usize>, r2: Seq<usize>)
    requires
        r1.no_duplicates(),
        r2.no_duplicates(),
        forall|x: usize| r1.contains(x) <==> r2.contains(x),
        sorted_by_keys(primary, secondary, r1),
        sorted_by_keys(primary, secondary, r2),
    ensures
        r1 == r2,
    decreases r1.len() + r2.len(),
{
    if r1.len() == 0 {
        if r2.len() > 0 {
            assert(r2.contains(r2[0]));
        }
        assert(r1 =~= r2);
    } else if r2.len() == 0 {
        assert(r1.contains(r1[0]));
    } else {
        let h1 = r1[0];
        let h2 = r2[0];
        assert(r1.contains(h1));
        assert(r2.contains(h2));
        let q = choose|q: int| 0 <= q < r2.len() && r2[q] == h1;
        let q2 = choose|q: int| 0 <= q < r1.len() && r1[q] == h2;
        if q2 > 0 {
            assert(key_before(primary, secondary, r1[0] as int, r1[q2] as int));
        }
        if q > 0 {
            assert(key_before(primary, secondary, r2[0] as int, r2[q] as int));
        }
        lemma_key_before_total(primary, secondary, h1 as int, h2 as int);
        assert(h1 == h2);
        let t1 = r1.drop_first();
        let t2 = r2.drop_first();
        assert forall|x: usize| t1.contains(x) <==> t2.contains(x) by {
            if t1.contains(x) {
                let w = choose|w: int| 0 <= w < t1.len() && t1[w] == x;
                assert(r1[w + 1] == x);
                assert(r1.contains(x));
                let v = choose|v: int| 0 <= v < r2.len() && r2[v] == x;
                assert(v != 0);
                assert(t2[v - 1] == x);
            }
            if t2.contains(x) {
                let w = choose|w: int| 0 <= w < t2.len() && t2[w] == x;
                assert(r2[w + 1] == x);
                assert(r2.contains(x));
                let v = choose|v: int| 0 <= v < r1.len() && r1[v] == x;
                assert(v != 0);
                assert(t1[v - 1] == x);
            }
        }
        assert forall|a: int, b: int| 0 <= a < b < t1.len() implies key_before(
            primary,
            secondary,
            #[trigger] t1[a] as int,
            #[trigger] t1[b] as int,
        ) by {
            assert(t1[a] == r1[a + 1] && t1[b] == r1[b + 1]);
        }
        assert forall|a: int, b: int| 0 <= a < b < t2.len() implies key_before(
            primary,
            secondary,
            #[trigger] t2[a] as int,
            #[trigger] t2[b] as int,
        ) by {
            assert(t2[a] == r2[a + 1] && t2[b] == r2[b + 1]);
        }
        lemma_sorted_unique(primary, secondary, t1, t2);
        assert(r1 =~= r2) by {
            assert forall|k: int| 0 <= k < r1.len() implies r1[k] == r2[k] by {
                if k > 0 {
                    assert(r1[k] == t1[k - 1]);
                    assert(r2[k] == t2[k - 1]);
                }
            }
        }
    }
}

/// Whether entry `i` sorts no later than entry `j`.
fn keys_ahead(primary: &Vec<i64>, secondary: &Vec<u64>, i: usize, j: usize) -> (r: bool)
    requires
        i < primary.len(),
        j < primary.len(),
        primary.len() == secondary.len(),
    ensures
        r == key_before(primary@, secondary@, i as int, j as int),
{
    primary[i] < primary[j] || (primary[i] == primary[j] && (secondary[i] < secondary[j] || (
    secondary[i] == secondary[j] && i <= j)))
}

/// Sorts positions by (primary, secondary, position): the order a stable
/// sort by (primary, secondary) leaves them in.
pub fn sort_by_keys(primary: &Vec<i64>, secondary: &Vec<u64>, items: &Vec<usize>) -> (r: Vec<usize>)
    requires
        primary.len() == secondary.len(),
        forall|k: int| 0 <= k < items.len() ==> #[trigger] items[k] < primary.len(),
    ensures
        r@.to_multiset() == items@.to_multiset(),
        forall|k: int| 0 <= k < r.len() ==> #[trigger] r[k] < primary.len(),
        sorted_by_keys(primary@, secondary@, r@),
{
    let mut r: Vec<usize> = Vec::new();
    let n = items.len();
    proof {
        assert(items@.take(0) =~= r@);
    }
    for i in 0..n
        invariant
            n == items.len(),
            primary.len() == secondary.len(),
            forall|k: int| 0 <= k < items.len() ==> #[trigger] items[k] < primary.len(),
            r@.to_multiset() == items@.take(i as int).to_multiset(),
            forall|k: int| 0 <= k < r.len() ==> #[trigger] r[k] < primary.len(),
            sorted_by_keys(primary@, secondary@, r@),
    {
        let x = items[i];
        let mut pos: usize = 0;
        while pos < r.len() && keys_ahead(primary, secondary, r[pos], x)
            invariant
                0 <= pos <= r.len(),
                x < primary.len(),
                primary.len() == secondary.len(),
                forall|k: int| 0 <= k < r.len() ==> #[trigger] r[k] < primary.len(),
                forall|q: int|
                    0 <= q < pos ==> key_before(primary@, secondary@, #[trigger] r[q] as int, x as int),
            decreases r.len() - pos,
        {
            pos = pos + 1;
        }
        let ghost old_r = r@;
        proof {
            assert forall|q: int| pos <= q < old_r.len() implies key_before(
                primary@,
                secondary@,
                x as int,
                #[trigger] old_r[q] as int,
            ) by {
                lemma_key_before_total(primary@, secondary@, x as int, old_r[pos as int] as int);
                if q > pos {
                    assert(key_before(primary@, secondary@, old_r[pos as int] as int, old_r[q] as int));
                }
            }
        }
        r.insert(pos, x);
        proof {
            assert(r@ == old_r.insert(pos as int, x));
            to_multiset_insert(old_r, pos as int, x);
            assert(p_take_push(items@, i as int));
            to_multiset_build(items@.take(i as int), x);
            assert forall|a: int, b: int| 0 <= a < b < r.len() implies key_before(
                primary@,
                secondary@,
                #[trigger] r[a] as int,
                #[trigger] r[b] as int,
            ) by {
                if b < pos {
                    assert(r[a] == old_r[a] && r[b] == old_r[b]);
                } else if b == pos {
                    assert(r[a] == old_r[a]);
                } else if a == pos {
                    assert(r[b] == old_r[b - 1]);
                } else if a < pos {
                    assert(r[a] == old_r[a] && r[b] == old_r[b - 1]);
                } else {
                    assert(r[a] == old_r[a - 1] && r[b] == old_r[b - 1]);
                }
            }
        }
    }
    proof {
        assert(items@.take(n as int) =~= items@);
    }
    r
}

spec fn p_take_push(s: Seq<usize>, i: int) -> bool {
    0 <= i < s.len() ==> s.take(i + 1) =~= s.take(i).push(s[i])
}

/// The positions whose flag is set, in increasing order; `member` names
/// what the flags record.
pub(crate) fn flagged_positions(flags: &Vec<bool>, Ghost(member): Ghost<spec_fn(int) -> bool>) -> (r:
    Vec<usize>)
    requires
        forall|i: int| 0 <= i < flags.len() ==> flags[i] == member(i),
    ensures
        ascending_members(flags.len() as int, r@, member),
{
    let n = flags.len();
    let mut r: Vec<usize> = Vec::new();
    for i in 0..n
        invariant
            n == flags.len(),
            forall|i: int| 0 <= i < flags.len() ==> flags[i] == member(i),
            forall|a: int, b: int| 0 <= a < b < r.len() ==> r[a] < r[b],
            forall|k: int| 0 <= k < r.len() ==> #[trigger] r[k] < i && member(r[k] as int),
            forall|j: usize| j < i && member(j as int) ==> #[trigger] r@.contains(j),
    {
        let ghost before = r@;
        if flags[i] {
            r.push(i);
        }
        proof {
            assert forall|j: usize| j < i + 1 && member(j as int) implies #[trigger] r@.contains(j) by {
                if j < i {
                    assert(before.contains(j));
                    let w = choose|w: int| 0 <= w < before.len() && before[w] == j;
                    assert(r@[w] == j);
                } else {
                    assert(flags[i as int]);
                    assert(r@[r.len() - 1] == i);
                }
            }
        }
    }
    r
}

/// The positions whose flag is set, in increasing order.
pub fn set_positions(flags: &Vec<bool>) -> (r: Vec<usize>)
    ensures
        forall|a: int, b: int| 0 <= a < b < r.len() ==> r[a] < r[b],
        forall|k: int| 0 <= k < r.len() ==> #[trigger] r[k] < flags.len() && flags[r[k] as int],
        forall|i: usize| i < flags.len() && flags[i as int] ==> #[trigger] r@.contains(i),
{
    let ghost member = |i: int| flags@[i];
    let r = flagged_positions(flags, Ghost(member));
    proof {
        assert forall|k: int| 0 <= k < r.len() implies #[trigger] r[k] < flags.len() && flags[r[k] as int] by {
            assert(member(r[k] as int));
        }
        assert forall|i: usize| i < flags.len() && flags[i as int] implies #[trigger] r@.contains(i) by {
            assert(member(i as int));
        }
    }
    r
}

/// Sorting an ascending listing of members gives their keyed listing.
pub proof fn lemma_sorted_members_listing(
    primary: Seq<i64>,
    secondary: Seq<u64>,
    c: Seq<usize>,
    r: Seq<usize>,
    member: spec_fn(int) -> bool,
)
    requires
        ascending_members(primary.len() as int, c, member),
        r.to_multiset() == c.to_multiset(),
        sorted_by_keys(primary, secondary, r),
    ensures
        keyed_listing(primary, secondary, r, member),
{
    broadcast use vstd::seq_lib::group_to_multiset_ensures;

    assert(c.no_duplicates());
    c.lemma_multiset_has_no_duplicates();
    assert forall|x: usize| r.contains(x) <==> c.contains(x) by {
        assert(r.contains(x) <==> r.to_multiset().count(x) > 0);
        assert(c.contains(x) <==> c.to_multiset().count(x) > 0);
    }
    assert forall|x: usize| r.to_multiset().contains(x) implies r.to_multiset().count(x) == 1 by {
        assert(c.to_multiset().contains(x));
    }
    r.lemma_multiset_has_no_duplicates_conv();
    assert forall|k: int| 0 <= k < r.len() implies #[trigger] r[k] < primary.len() && member(
        r[k] as int,
    ) by {
        assert(r.contains(r[k]));
        assert(c.contains(r[k]));
        let w = choose|w: int| 0 <= w < c.len() && c[w] == r[k];
        assert(c[w] < primary.len() && member(c[w] as int));
    }
    assert forall|i: usize| 0 <= i < primary.len() && member(i as int) implies #[trigger] r.contains(i) by {
        assert(c.contains(i));
    }
}

} // verus!
