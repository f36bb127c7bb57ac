//! Point lists of an overlapping cover, and the coverage check: every data
//! point must lie in at least one interval.
use vstd::prelude::*;

verus! {

/// The points among the first `k` whose row marks interval `j`, in
/// increasing order.
pub open spec fn members_upto(in_interval: Seq<Vec<bool>>, j: int, k: int) -> Seq<usize>
    decreases k,
{
    if k <= 0 {
        Seq::empty()
    } else {
        let s = members_upto(in_interval, j, k - 1);
        if in_interval[k - 1]@[j] {
            s.push((k - 1) as usize)
        } else {
            s
        }
    }
}

/// The point list of each interval: row `i` of `in_interval` says which of
/// the `num_intervals` intervals hold point `i`; interval `j` gets, in
/// increasing order, every point whose row marks it.
pub fn assign_points(in_interval: &Vec<Vec<bool>>, num_intervals: usize) -> (sets: Vec<Vec<usize>>)
    requires
        forall|i: int| 0 <= i < in_interval@.len() ==> #[trigger] in_interval@[i]@.len() == num_intervals,
    ensures
        sets@.len() == num_intervals,
        forall|j: int|
            0 <= j < num_intervals ==> #[trigger] sets@[j]@ == members_upto(
                in_interval@,
                j,
                in_interval@.len() as int,
            ),
{
    let mut sets: Vec<Vec<usize>> = Vec::new();
    let mut j: usize = 0;
    while j < num_intervals
        invariant
            j <= num_intervals,
            sets@.len() == j,
            forall|i: int| 0 <= i < in_interval@.len() ==> #[trigger] in_interval@[i]@.len() == num_intervals,
            forall|q: int|
                0 <= q < j ==> #[trigger] sets@[q]@ == members_upto(
                    in_interval@,
                    q,
                    in_interval@.len() as int,
                ),
        decreases num_intervals - j,
    {
        let mut members: Vec<usize> = Vec::new();
        let mut i: usize = 0;
        while i < in_interval.len()
            invariant
                j < num_intervals,
                i <= in_interval@.len(),
                forall|r: int| 0 <= r < in_interval@.len() ==> #[trigger] in_interval@[r]@.len() == num_intervals,
                members@ == members_upto(in_interval@, j as int, i as int),
            decreases in_interval@.len() - i,
        {
            if in_interval[i][j] {
                members.push(i);
            }
            i = i + 1;
        }
        sets.push(members);
        j = j + 1;
    }
    sets
}

/// An interval's point list holds exactly the points whose row marks the
/// interval, each once, in increasing order.
pub proof fn lemma_members(in_interval: Seq<Vec<bool>>, j: int, k: int)
    requires
        0 <= k <= in_interval.len(),
        k <= usize::MAX + 1,
    ensures
        forall|x: usize|
            #[trigger] members_upto(in_interval, j, k).contains(x) <==> (x < k && in_interval[x as int]@[j]),
        forall|a: int, b: int|
            0 <= a < b < members_upto(in_interval, j, k).len() ==> #[trigger] members_upto(
                in_interval,
                j,
                k,
            )[a] < #[trigger] members_upto(in_interval, j, k)[b],
        forall|a: int|
            0 <= a < members_upto(in_interval, j, k).len() ==> #[trigger] members_upto(
                in_interval,
                j,
                k,
            )[a] < k,
    decreases k,
{
    if k > 0 {
        lemma_members(in_interval, j, k - 1);
        let s = members_upto(in_interval, j, k - 1);
        let t = members_upto(in_interval, j, k);
        assert forall|x: usize| #[trigger] t.contains(x) <==> (x < k && in_interval[x as int]@[j]) by {
            if in_interval[k - 1]@[j] {
                assert(t == s.push((k - 1) as usize));
                if t.contains(x) {
                    let w = choose|w: int| 0 <= w < t.len() && t[w] == x;
                    if w < s.len() {
                        assert(s[w] == x);
                        assert(s.contains(x));
                    }
                }
                if x < k && in_interval[x as int]@[j] {
                    if x < k - 1 {
                        assert(s.contains(x));
                        let w = choose|w: int| 0 <= w < s.len() && s[w] == x;
                        assert(t[w] == x);
                    } else {
                        assert(t[s.len() as int] == x);
                    }
                }
            } else {
                assert(t == s);
                if x < k && in_interval[x as int]@[j] {
                    assert(x != k - 1);
                }
            }
        }
    }
}

/// Point `i` lies in one of the interval point lists.
pub open spec fn is_covered(point_sets: Seq<Vec<usize>>, i: usize) -> bool {
    exists|k: int| 0 <= k < point_sets.len() && #[trigger] point_sets[k]@.contains(i)
}

/// Whether every point `0..num_points` lies in at least one of the interval
/// point lists (indices at or beyond `num_points` are ignored).
pub fn covers_all_points(point_sets: &Vec<Vec<usize>>, num_points: usize) -> (b: bool)
    ensures
        b == forall|i: usize| i < num_points ==> #[trigger] is_covered(point_sets@, i),
{
    let mut covered: Vec<bool> = Vec::new();
    let mut i: usize = 0;
    while i < num_points
        invariant
            i <= num_points,
            covered@.len() == i,
            forall|j: int| 0 <= j < i ==> !#[trigger] covered@[j],
        decreases num_points - i,
    {
        covered.push(false);
        i = i + 1;
    }
    let mut k: usize = 0;
    while k < point_sets.len()
        invariant
            k <= point_sets@.len(),
            covered@.len() == num_points,
            forall|j: int|
                0 <= j < num_points ==> (#[trigger] covered@[j] <==> exists|q: int|
                    0 <= q < k && #[trigger] point_sets@[q]@.contains(j as usize)),
        decreases point_sets@.len() - k,
    {
        let set = &point_sets[k];
        let mut t: usize = 0;
        while t < set.len()
            invariant
                k < point_sets@.len(),
                *set == point_sets@[k as int],
                t <= set@.len(),
                covered@.len() == num_points,
                forall|j: int|
                    0 <= j < num_points ==> (#[trigger] covered@[j] <==> (exists|q: int|
                        0 <= q < k && #[trigger] point_sets@[q]@.contains(j as usize)) || set@.subrange(
                        0,
                        t as int,
                    ).contains(j as usize)),
            decreases set@.len() - t,
        {
            let idx = set[t];
            let ghost before = covered@;
            if idx < num_points {
                covered.set(idx, true);
            }
            proof {
                assert forall|j: int| 0 <= j < num_points implies (#[trigger] covered@[j] <==> (exists|
                    q: int,
                |
                    0 <= q < k && #[trigger] point_sets@[q]@.contains(j as usize)) || set@.subrange(
                    0,
                    t + 1,
                ).contains(j as usize)) by {
                    let pre = set@.subrange(0, t as int);
                    let post = set@.subrange(0, t + 1);
                    if pre.contains(j as usize) {
                        let w = choose|w: int| 0 <= w < pre.len() && pre[w] == j as usize;
                        assert(post[w] == j as usize);
                    }
                    if post.contains(j as usize) {
                        let w = choose|w: int| 0 <= w < post.len() && post[w] == j as usize;
                        if w < t {
                            assert(pre[w] == j as usize);
                        }
                    }
                    if j == idx {
                        assert(post[t as int] == j as usize);
                    }
                }
            }
            t = t + 1;
        }
        proof {
            assert(set@.subrange(0, set@.len() as int) =~= set@);
            assert forall|j: int| 0 <= j < num_points implies (#[trigger] covered@[j] <==> exists|q: int|
                0 <= q < k + 1 && #[trigger] point_sets@[q]@.contains(j as usize)) by {
                if exists|q: int| 0 <= q < k + 1 && #[trigger] point_sets@[q]@.contains(j as usize) {
                    let q = choose|q: int|
                        0 <= q < k + 1 && #[trigger] point_sets@[q]@.contains(j as usize);
                    if q < k {
                        assert(point_sets@[q]@.contains(j as usize));
                    }
                }
            }
        }
        k = k + 1;
    }
    let mut all = true;
    let mut j: usize = 0;
    while j < num_points
        invariant
            j <= num_points,
            covered@.len() == num_points,
            forall|x: int|
                0 <= x < num_points ==> (#[trigger] covered@[x] <==> exists|q: int|
                    0 <= q < point_sets@.len() && #[trigger] point_sets@[q]@.contains(x as usize)),
            all == forall|x: usize| x < j ==> #[trigger] is_covered(point_sets@, x),
        decreases num_points - j,
    {
        proof {
            lemma_covered_flag(point_sets@, covered@, num_points, j);
        }
        if !covered[j] {
            all = false;
        }
        proof {
            assert forall|x: usize| x < j + 1 && all implies #[trigger] is_covered(point_sets@, x) by {
                lemma_covered_flag(point_sets@, covered@, num_points, x);
            }
            if !covered@[j as int] {
                assert(!is_covered(point_sets@, j));
            }
        }
        j = j + 1;
    }
    all
}

proof fn lemma_covered_flag(point_sets: Seq<Vec<usize>>, covered: Seq<bool>, num_points: usize, x: usize)
    requires
        x < num_points,
        covered.len() == num_points,
        forall|y: int|
            0 <= y < num_points ==> (#[trigger] covered[y] <==> exists|q: int|
                0 <= q < point_sets.len() && #[trigger] point_sets[q]@.contains(y as usize)),
    ensures
        covered[x as int] == is_covered(point_sets, x),
{
    let y = x as int;
    assert(y as usize == x);
    if covered[y] {
        let q = choose|q: int| 0 <= q < point_sets.len() && #[trigger] point_sets[q]@.contains(y as usize);
        assert(point_sets[q]@.contains(x));
    }
    if is_covered(point_sets, x) {
        let q = choose|q: int| 0 <= q < point_sets.len() && #[trigger] point_sets[q]@.contains(x);
        assert(point_sets[q]@.contains(y as usize));
    }
}

/// After assignment, a point is covered exactly when its row marks some
/// interval.
pub proof fn lemma_assigned_coverage(
    in_interval: Seq<Vec<bool>>,
    num_intervals: int,
    sets: Seq<Vec<usize>>,
    x: usize,
)
    requires
        in_interval.len() <= usize::MAX + 1,
        x < in_interval.len(),
        forall|i: int| 0 <= i < in_interval.len() ==> #[trigger] in_interval[i]@.len() == num_intervals,
        sets.len() == num_intervals,
        forall|j: int|
            0 <= j < num_intervals ==> #[trigger] sets[j]@ == members_upto(
                in_interval,
                j,
                in_interval.len() as int,
            ),
    ensures
        is_covered(sets, x) <==> exists|j: int| 0 <= j < num_intervals && #[trigger] in_interval[x as int]@[j],
{
    let k = in_interval.len() as int;
    if is_covered(sets, x) {
        let j = choose|j: int| 0 <= j < sets.len() && #[trigger] sets[j]@.contains(x);
        lemma_members(in_interval, j, k);
        assert(in_interval[x as int]@[j]);
    }
    if exists|j: int| 0 <= j < num_intervals && #[trigger] in_interval[x as int]@[j] {
        let j = choose|j: int| 0 <= j < num_intervals && #[trigger] in_interval[x as int]@[j];
        lemma_members(in_interval, j, k);
        assert(members_upto(in_interval, j, k).contains(x));
        assert(sets[j]@.contains(x));
    }
}

} // verus!
