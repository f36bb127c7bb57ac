//! Grouping the positions `0..k` of a point list by an equivalence relation:
//! one group per class, groups ordered by the first position of their class,
//! each group listing the points of its class in position order.
use vstd::prelude::*;

verus! {

/// The positions among `0..k` that come first in their class, in order.
pub open spec fn class_leaders(eq: spec_fn(int, int) -> bool, k: int) -> Seq<int>
    decreases k,
{
    if k <= 0 {
        seq![]
    } else if forall|j: int| 0 <= j < k - 1 ==> !#[trigger] eq(j, k - 1) {
        class_leaders(eq, k - 1).push(k - 1)
    } else {
        class_leaders(eq, k - 1)
    }
}

/// The points at the positions among `0..k` that are in the class of `lead`.
pub open spec fn class_members(points: Seq<usize>, eq: spec_fn(int, int) -> bool, lead: int, k: int) -> Seq<usize>
    decreases k,
{
    if k <= 0 {
        seq![]
    } else if eq(lead, k - 1) {
        class_members(points, eq, lead, k - 1).push(points[k - 1])
    } else {
        class_members(points, eq, lead, k - 1)
    }
}

/// One group per class of the positions `0..k`.
pub open spec fn group_by_class(points: Seq<usize>, eq: spec_fn(int, int) -> bool, k: int) -> Seq<Seq<usize>> {
    class_leaders(eq, k).map_values(|lead: int| class_members(points, eq, lead, k))
}

/// `eq` is an equivalence relation on `0..n`.
pub open spec fn is_equivalence(eq: spec_fn(int, int) -> bool, n: int) -> bool {
    &&& forall|i: int| 0 <= i < n ==> #[trigger] eq(i, i)
    &&& forall|i: int, j: int| 0 <= i < n && 0 <= j < n && #[trigger] eq(i, j) ==> eq(j, i)
    &&& forall|i: int, j: int, l: int|
        0 <= i < n && 0 <= j < n && 0 <= l < n && #[trigger] eq(i, j) && #[trigger] eq(j, l)
            ==> eq(i, l)
}

/// Two relations agree on `0..n`.
pub open spec fn agree_on(eq1: spec_fn(int, int) -> bool, eq2: spec_fn(int, int) -> bool, n: int) -> bool {
    forall|i: int, j: int| 0 <= i < n && 0 <= j < n ==> #[trigger] eq1(i, j) == eq2(i, j)
}

/// Relations that agree on the first `k` positions pick the same leaders there.
pub proof fn lemma_leaders_agree(eq1: spec_fn(int, int) -> bool, eq2: spec_fn(int, int) -> bool, k: int)
    requires
        agree_on(eq1, eq2, k),
    ensures
        class_leaders(eq1, k) == class_leaders(eq2, k),
    decreases k,
{
    if k > 0 {
        lemma_leaders_agree(eq1, eq2, k - 1);
        assert forall|j: int| #![trigger eq1(j, k - 1)] #![trigger eq2(j, k - 1)] 0 <= j < k - 1 implies eq1(j, k - 1) == eq2(j, k - 1) by {
            assert(eq1(j, k - 1) == eq2(j, k - 1));
        }
        assert((forall|j: int| 0 <= j < k - 1 ==> !#[trigger] eq1(j, k - 1)) == (forall|j: int|
            0 <= j < k - 1 ==> !#[trigger] eq2(j, k - 1)));
    }
}

/// Relations that agree on the first `n` positions give each leader the same members.
pub proof fn lemma_members_agree(
    points: Seq<usize>,
    eq1: spec_fn(int, int) -> bool,
    eq2: spec_fn(int, int) -> bool,
    lead: int,
    n: int,
    k: int,
)
    requires
        agree_on(eq1, eq2, n),
        0 <= lead < n,
        k <= n,
    ensures
        class_members(points, eq1, lead, k) == class_members(points, eq2, lead, k),
    decreases k,
{
    if k > 0 {
        lemma_members_agree(points, eq1, eq2, lead, n, k - 1);
        assert(eq1(lead, k - 1) == eq2(lead, k - 1));
    }
}

/// Leaders are increasing positions below `k`, each first in its class.
pub proof fn lemma_leaders_basic(eq: spec_fn(int, int) -> bool, k: int)
    ensures
        forall|m: int|
            0 <= m < class_leaders(eq, k).len() ==> 0 <= #[trigger] class_leaders(eq, k)[m] < k,
        forall|m: int, j: int|
            0 <= m < class_leaders(eq, k).len() && 0 <= j < class_leaders(eq, k)[m] ==> !#[trigger] eq(
                j,
                #[trigger] class_leaders(eq, k)[m],
            ),
        forall|m1: int, m2: int|
            0 <= m1 < m2 < class_leaders(eq, k).len() ==> #[trigger] class_leaders(eq, k)[m1]
                < #[trigger] class_leaders(eq, k)[m2],
        class_leaders(eq, k).len() <= if k < 0 {
            0
        } else {
            k
        },
    decreases k,
{
    if k > 0 {
        lemma_leaders_basic(eq, k - 1);
    }
}

/// Every position below `k` is in the class of some leader.
pub proof fn lemma_leader_exists(eq: spec_fn(int, int) -> bool, n: int, k: int, i: int)
    requires
        is_equivalence(eq, n),
        0 <= i < k <= n,
    ensures
        exists|m: int|
            0 <= m < class_leaders(eq, k).len() && #[trigger] eq(class_leaders(eq, k)[m], i),
    decreases k,
{
    lemma_leaders_basic(eq, k);
    if i < k - 1 {
        lemma_leader_exists(eq, n, k - 1, i);
        let m = choose|m: int|
            0 <= m < class_leaders(eq, k - 1).len() && #[trigger] eq(class_leaders(eq, k - 1)[m], i);
        if forall|j: int| 0 <= j < k - 1 ==> !#[trigger] eq(j, k - 1) {
            assert(class_leaders(eq, k)[m] == class_leaders(eq, k - 1)[m]);
        }
        assert(eq(class_leaders(eq, k)[m], i));
    } else {
        if forall|j: int| 0 <= j < k - 1 ==> !#[trigger] eq(j, k - 1) {
            let m = class_leaders(eq, k - 1).len() as int;
            assert(class_leaders(eq, k)[m] == i);
            assert(eq(i, i));
        } else {
            let j = choose|j: int| 0 <= j < k - 1 && #[trigger] eq(j, k - 1);
            lemma_leader_exists(eq, n, k - 1, j);
            let m = choose|m: int|
                0 <= m < class_leaders(eq, k - 1).len() && #[trigger] eq(
                    class_leaders(eq, k - 1)[m],
                    j,
                );
            lemma_leaders_basic(eq, k - 1);
            assert(eq(class_leaders(eq, k - 1)[m], i));
        }
    }
}

/// Members of a class up to `k` are exactly the points of the positions below
/// `k` in that class.
pub proof fn lemma_members_contain(points: Seq<usize>, eq: spec_fn(int, int) -> bool, lead: int, k: int, j: int)
    requires
        0 <= j < k <= points.len(),
        eq(lead, j),
    ensures
        class_members(points, eq, lead, k).contains(points[j]),
    decreases k,
{
    if j < k - 1 {
        lemma_members_contain(points, eq, lead, k - 1, j);
        let s = class_members(points, eq, lead, k - 1);
        let t = choose|t: int| 0 <= t < s.len() && s[t] == points[j];
        if eq(lead, k - 1) {
            assert(class_members(points, eq, lead, k)[t] == points[j]);
        }
    } else {
        let s = class_members(points, eq, lead, k);
        assert(s[s.len() - 1] == points[j]);
    }
}

/// A leader related to itself has at least one member.
pub proof fn lemma_members_len(points: Seq<usize>, eq: spec_fn(int, int) -> bool, lead: int, k: int)
    requires
        0 <= lead < k,
        eq(lead, lead),
    ensures
        class_members(points, eq, lead, k).len() > 0,
    decreases k,
{
    if lead < k - 1 {
        lemma_members_len(points, eq, lead, k - 1);
    }
}

} // verus!
