//! The order in which simplices are listed: by size (dimension) first, then
//! lexicographically; and sorted lists of simplices without repetition.
use vstd::prelude::*;

use crate::cluster::copy_indices;

verus! {

/// `a` and `b` agree on their first `i` entries.
pub open spec fn agree_below(a: Seq<usize>, b: Seq<usize>, i: int) -> bool {
    forall|j: int| 0 <= j < i ==> #[trigger] a[j] == b[j]
}

/// Lexicographic order on sequences of the same length.
pub open spec fn lex_lt(a: Seq<usize>, b: Seq<usize>) -> bool {
    exists|i: int| 0 <= i < a.len() && #[trigger] agree_below(a, b, i) && a[i] < b[i]
}

/// Order of simplices: fewer vertices first, then lexicographic.
pub open spec fn simplex_lt(a: Seq<usize>, b: Seq<usize>) -> bool {
    a.len() < b.len() || (a.len() == b.len() && lex_lt(a, b))
}

/// The contents of a list of vertex lists.
pub open spec fn simplices_view(s: Seq<Vec<usize>>) -> Seq<Seq<usize>> {
    s.map_values(|v: Vec<usize>| v@)
}

/// Strictly increasing in the simplex order (so without repetition).
pub open spec fn sorted_simplices(s: Seq<Seq<usize>>) -> bool {
    forall|i: int, j: int| 0 <= i < j < s.len() ==> simplex_lt(#[trigger] s[i], #[trigger] s[j])
}

/// Two sequences of one length differ first at one place only.
pub proof fn lemma_lex_unique(a: Seq<usize>, b: Seq<usize>, i: int, i2: int)
    requires
        a.len() == b.len(),
        0 <= i < a.len(),
        0 <= i2 < a.len(),
        agree_below(a, b, i),
        a[i] != b[i],
        agree_below(a, b, i2),
        a[i2] != b[i2],
    ensures
        i == i2,
{
    if i < i2 {
        assert(a[i] == b[i]);
    } else if i2 < i {
        assert(a[i2] == b[i2]);
    }
}

/// The simplex order is a strict total order: irreflexive, transitive, and
/// any two different vertex lists are comparable.
pub proof fn lemma_simplex_order()
    ensures
        forall|a: Seq<usize>| !#[trigger] simplex_lt(a, a),
        forall|a: Seq<usize>, b: Seq<usize>, c: Seq<usize>|
            #[trigger] simplex_lt(a, b) && #[trigger] simplex_lt(b, c) ==> simplex_lt(a, c),
        forall|a: Seq<usize>, b: Seq<usize>|
            a != b ==> #[trigger] simplex_lt(a, b) || #[trigger] simplex_lt(b, a),
{
    assert forall|a: Seq<usize>, b: Seq<usize>, c: Seq<usize>|
        #[trigger] simplex_lt(a, b) && #[trigger] simplex_lt(b, c) implies simplex_lt(a, c) by {
        if a.len() == b.len() && b.len() == c.len() {
            let i = choose|i: int| 0 <= i < a.len() && #[trigger] agree_below(a, b, i) && a[i] < b[i];
            let k = choose|k: int| 0 <= k < b.len() && #[trigger] agree_below(b, c, k) && b[k] < c[k];
            let m = if i < k {
                i
            } else {
                k
            };
            assert(agree_below(a, c, m));
            assert(a[m] < c[m]);
        }
    }
    assert forall|a: Seq<usize>, b: Seq<usize>| a != b implies #[trigger] simplex_lt(a, b)
        || #[trigger] simplex_lt(b, a) by {
        if a.len() == b.len() {
            let d = first_diff(a, b, 0);
            lemma_first_diff(a, b, 0);
            assert(agree_below(b, a, d));
        }
    }
}

/// The first index at or after `i` where `a` and `b` differ (`a.len()` if none).
pub open spec fn first_diff(a: Seq<usize>, b: Seq<usize>, i: int) -> int
    decreases a.len() - i,
{
    if i >= a.len() || i < 0 {
        a.len() as int
    } else if a[i] != b[i] {
        i
    } else {
        first_diff(a, b, i + 1)
    }
}

/// `first_diff` finds the first place of difference, and equal sequences
/// have none.
pub proof fn lemma_first_diff(a: Seq<usize>, b: Seq<usize>, i: int)
    requires
        a.len() == b.len(),
        0 <= i <= a.len(),
        agree_below(a, b, i),
    ensures
        i <= first_diff(a, b, i) <= a.len(),
        agree_below(a, b, first_diff(a, b, i)),
        first_diff(a, b, i) < a.len() ==> a[first_diff(a, b, i)] != b[first_diff(a, b, i)],
        first_diff(a, b, i) == a.len() ==> a == b,
    decreases a.len() - i,
{
    if i < a.len() && a[i] == b[i] {
        assert(agree_below(a, b, i + 1));
        lemma_first_diff(a, b, i + 1);
    }
    if first_diff(a, b, i) == a.len() {
        assert(a =~= b);
    }
}

/// Whether `a` comes before `b` in the simplex order.
pub fn simplex_less(a: &Vec<usize>, b: &Vec<usize>) -> (r: bool)
    ensures
        r == simplex_lt(a@, b@),
{
    if a.len() != b.len() {
        return a.len() < b.len();
    }
    let n = a.len();
    let mut i: usize = 0;
    while i < n && a[i] == b[i]
        invariant
            n == a@.len(),
            n == b@.len(),
            i <= n,
            agree_below(a@, b@, i as int),
        decreases n - i,
    {
        i = i + 1;
    }
    proof {
        if lex_lt(a@, b@) {
            let w = choose|w: int| 0 <= w < a@.len() && #[trigger] agree_below(a@, b@, w) && a@[w] < b@[w];
            if i < n {
                lemma_lex_unique(a@, b@, i as int, w);
            } else {
                assert(a@[w] == b@[w]);
            }
        }
    }
    if i == n {
        false
    } else {
        a[i] < b[i]
    }
}

/// `x` is one of `s[lo..hi]`.
pub open spec fn among(s: Seq<Seq<usize>>, lo: int, hi: int, x: Seq<usize>) -> bool {
    exists|t: int| lo <= t < hi && #[trigger] s[t] == x
}

/// Merge two sorted lists of simplices into one sorted list holding each
/// simplex of either once.
pub fn merge_simplices(a: &Vec<Vec<usize>>, b: &Vec<Vec<usize>>) -> (r: Vec<Vec<usize>>)
    requires
        sorted_simplices(simplices_view(a@)),
        sorted_simplices(simplices_view(b@)),
    ensures
        sorted_simplices(simplices_view(r@)),
        forall|x: Seq<usize>|
            #[trigger] simplices_view(r@).contains(x) <==> simplices_view(a@).contains(x)
                || simplices_view(b@).contains(x),
{
    proof {
        lemma_simplex_order();
    }
    let ghost av = simplices_view(a@);
    let ghost bv = simplices_view(b@);
    let mut r: Vec<Vec<usize>> = Vec::new();
    let mut i: usize = 0;
    let mut j: usize = 0;
    while i < a.len() || j < b.len()
        invariant
            av == simplices_view(a@),
            bv == simplices_view(b@),
            sorted_simplices(av),
            sorted_simplices(bv),
            i <= av.len(),
            j <= bv.len(),
            sorted_simplices(simplices_view(r@)),
            forall|k: int, i2: int|
                0 <= k < r@.len() && i <= i2 < av.len() ==> simplex_lt(
                    #[trigger] simplices_view(r@)[k],
                    #[trigger] av[i2],
                ),
            forall|k: int, j2: int|
                0 <= k < r@.len() && j <= j2 < bv.len() ==> simplex_lt(
                    #[trigger] simplices_view(r@)[k],
                    #[trigger] bv[j2],
                ),
            forall|x: Seq<usize>|
                #[trigger] among(simplices_view(r@), 0, r@.len() as int, x) <==> among(av, 0, i as int, x)
                    || among(bv, 0, j as int, x),
        decreases av.len() - i + bv.len() - j,
    {
        let ghost rv = simplices_view(r@);
        proof {
            lemma_simplex_order();
            if i < av.len() {
                assert(av[i as int] == a@[i as int]@);
            }
            if j < bv.len() {
                assert(bv[j as int] == b@[j as int]@);
            }
        }
        let take_a: bool;
        let take_b: bool;
        if i < a.len() && j < b.len() {
            if simplex_less(&a[i], &b[j]) {
                take_a = true;
                take_b = false;
            } else if simplex_less(&b[j], &a[i]) {
                take_a = false;
                take_b = true;
            } else {
                proof {
                    assert(!simplex_lt(av[i as int], bv[j as int]));
                    assert(!simplex_lt(bv[j as int], av[i as int]));
                    if av[i as int] !== bv[j as int] {
                        assert(simplex_lt(av[i as int], bv[j as int]) || simplex_lt(bv[j as int], av[i as int]));
                    }
                }
                take_a = true;
                take_b = true;
            }
        } else if i < a.len() {
            take_a = true;
            take_b = false;
        } else {
            take_a = false;
            take_b = true;
        }
        let c = if take_a {
            copy_indices(a[i].as_slice())
        } else {
            copy_indices(b[j].as_slice())
        };
        let ghost cv = c@;
        proof {
            if take_a && take_b {
                assert(av[i as int] === bv[j as int]);
            }
            if take_a {
                assert(cv == av[i as int]);
                if j < bv.len() && !take_b {
                    assert(simplex_lt(cv, bv[j as int]));
                }
            } else {
                assert(cv == bv[j as int]);
                if i < av.len() {
                    assert(simplex_lt(cv, av[i as int]));
                }
            }
        }
        r.push(c);
        let ni: usize = if take_a { i + 1 } else { i };
        let nj: usize = if take_b { j + 1 } else { j };
        proof {
            let nr = simplices_view(r@);
            assert(nr =~= rv.push(cv));
            assert forall|k: int, l: int| 0 <= k < l < nr.len() implies simplex_lt(
                #[trigger] nr[k],
                #[trigger] nr[l],
            ) by {
                if l < rv.len() {
                    assert(nr[k] == rv[k]);
                    assert(nr[l] == rv[l]);
                } else {
                    assert(nr[k] == rv[k]);
                    if take_a {
                        assert(simplex_lt(rv[k], av[i as int]));
                    } else {
                        assert(simplex_lt(rv[k], bv[j as int]));
                    }
                }
            }
            assert forall|k: int, i2: int| 0 <= k < r@.len() && ni <= i2 < av.len() implies simplex_lt(
                #[trigger] nr[k],
                #[trigger] av[i2],
            ) by {
                if k < rv.len() {
                    assert(nr[k] == rv[k]);
                    assert(simplex_lt(rv[k], av[i2]));
                } else if take_a {
                    assert(simplex_lt(av[i as int], av[i2]));
                } else {
                    assert(i2 >= i);
                    if i2 > i {
                        assert(simplex_lt(av[i as int], av[i2]));
                    }
                    assert(simplex_lt(cv, av[i as int]));
                }
            }
            assert forall|k: int, j2: int| 0 <= k < r@.len() && nj <= j2 < bv.len() implies simplex_lt(
                #[trigger] nr[k],
                #[trigger] bv[j2],
            ) by {
                if k < rv.len() {
                    assert(nr[k] == rv[k]);
                    assert(simplex_lt(rv[k], bv[j2]));
                } else if take_b {
                    assert(simplex_lt(bv[j as int], bv[j2]));
                } else {
                    if j2 > j {
                        assert(simplex_lt(bv[j as int], bv[j2]));
                    }
                    assert(simplex_lt(cv, bv[j as int]));
                }
            }
            assert forall|x: Seq<usize>| #[trigger] among(nr, 0, nr.len() as int, x) <==> among(
                av,
                0,
                ni as int,
                x,
            ) || among(bv, 0, nj as int, x) by {
                if among(nr, 0, nr.len() as int, x) {
                    let t = choose|t: int| 0 <= t < nr.len() && #[trigger] nr[t] == x;
                    if t < rv.len() {
                        assert(rv[t] == x);
                        assert(among(rv, 0, rv.len() as int, x));
                        if among(av, 0, i as int, x) {
                            let u = choose|u: int| 0 <= u < i && #[trigger] av[u] == x;
                            assert(av[u] == x);
                        } else {
                            let u = choose|u: int| 0 <= u < j && #[trigger] bv[u] == x;
                            assert(bv[u] == x);
                        }
                    } else if take_a {
                        assert(av[i as int] == x);
                    } else {
                        assert(bv[j as int] == x);
                    }
                }
                if among(av, 0, ni as int, x) {
                    let u = choose|u: int| 0 <= u < ni && #[trigger] av[u] == x;
                    if u < i {
                        assert(among(av, 0, i as int, x));
                        assert(among(rv, 0, rv.len() as int, x));
                        let t = choose|t: int| 0 <= t < rv.len() && #[trigger] rv[t] == x;
                        assert(nr[t] == x);
                    } else {
                        assert(nr[rv.len() as int] == x);
                    }
                }
                if among(bv, 0, nj as int, x) {
                    let u = choose|u: int| 0 <= u < nj && #[trigger] bv[u] == x;
                    if u < j {
                        assert(among(bv, 0, j as int, x));
                        assert(among(rv, 0, rv.len() as int, x));
                        let t = choose|t: int| 0 <= t < rv.len() && #[trigger] rv[t] == x;
                        assert(nr[t] == x);
                    } else {
                        assert(nr[rv.len() as int] == x);
                    }
                }
            }
        }
        i = ni;
        j = nj;
    }
    proof {
        let rv = simplices_view(r@);
        assert forall|x: Seq<usize>| #[trigger] rv.contains(x) <==> av.contains(x) || bv.contains(x) by {
            if rv.contains(x) {
                let t = choose|t: int| 0 <= t < rv.len() && rv[t] == x;
                assert(among(rv, 0, rv.len() as int, x));
            }
            if av.contains(x) {
                let t = choose|t: int| 0 <= t < av.len() && av[t] == x;
                assert(among(av, 0, av.len() as int, x));
            }
            if bv.contains(x) {
                let t = choose|t: int| 0 <= t < bv.len() && bv[t] == x;
                assert(among(bv, 0, bv.len() as int, x));
            }
            if among(rv, 0, rv.len() as int, x) {
                let t = choose|t: int| 0 <= t < rv.len() && #[trigger] rv[t] == x;
                assert(rv[t] == x);
            }
            if among(av, 0, av.len() as int, x) {
                let t = choose|t: int| 0 <= t < av.len() && #[trigger] av[t] == x;
                assert(av[t] == x);
            }
            if among(bv, 0, bv.len() as int, x) {
                let t = choose|t: int| 0 <= t < bv.len() && #[trigger] bv[t] == x;
                assert(bv[t] == x);
            }
        }
    }
    r
}

/// The simplices of `v[lo..hi]`, sorted, each once.
fn sort_range(v: &Vec<Vec<usize>>, lo: usize, hi: usize) -> (r: Vec<Vec<usize>>)
    requires
        lo <= hi <= v@.len(),
    ensures
        sorted_simplices(simplices_view(r@)),
        forall|x: Seq<usize>|
            #[trigger] simplices_view(r@).contains(x) <==> among(simplices_view(v@), lo as int, hi as int, x),
    decreases hi - lo,
{
    let ghost vv = simplices_view(v@);
    if hi - lo == 0 {
        let r: Vec<Vec<usize>> = Vec::new();
        proof {
            assert forall|x: Seq<usize>| #[trigger] simplices_view(r@).contains(x) <==> among(
                vv,
                lo as int,
                hi as int,
                x,
            ) by {
                if among(vv, lo as int, hi as int, x) {
                    let t = choose|t: int| lo <= t < hi && #[trigger] vv[t] == x;
                }
            }
        }
        return r;
    }
    if hi - lo == 1 {
        let mut r: Vec<Vec<usize>> = Vec::new();
        r.push(copy_indices(v[lo].as_slice()));
        proof {
            let rv = simplices_view(r@);
            assert(rv[0] == vv[lo as int]);
            assert forall|x: Seq<usize>| #[trigger] rv.contains(x) <==> among(vv, lo as int, hi as int, x) by {
                if rv.contains(x) {
                    let t = choose|t: int| 0 <= t < rv.len() && rv[t] == x;
                    assert(vv[lo as int] == x);
                }
                if among(vv, lo as int, hi as int, x) {
                    let t = choose|t: int| lo <= t < hi && #[trigger] vv[t] == x;
                    assert(rv[0] == x);
                }
            }
        }
        return r;
    }
    let mid = lo + (hi - lo) / 2;
    let left = sort_range(v, lo, mid);
    let right = sort_range(v, mid, hi);
    let r = merge_simplices(&left, &right);
    proof {
        assert forall|x: Seq<usize>| #[trigger] simplices_view(r@).contains(x) <==> among(
            vv,
            lo as int,
            hi as int,
            x,
        ) by {
            if among(vv, lo as int, hi as int, x) {
                let t = choose|t: int| lo <= t < hi && #[trigger] vv[t] == x;
                if t < mid {
                    assert(among(vv, lo as int, mid as int, x));
                    assert(simplices_view(left@).contains(x));
                } else {
                    assert(among(vv, mid as int, hi as int, x));
                    assert(simplices_view(right@).contains(x));
                }
            }
            if simplices_view(left@).contains(x) {
                let t = choose|t: int| lo <= t < mid && #[trigger] vv[t] == x;
                assert(among(vv, lo as int, hi as int, x));
            }
            if simplices_view(right@).contains(x) {
                let t = choose|t: int| mid <= t < hi && #[trigger] vv[t] == x;
                assert(among(vv, lo as int, hi as int, x));
            }
        }
    }
    r
}

/// The simplices of `v`, sorted by the simplex order, each once.
pub fn sort_simplices(v: &Vec<Vec<usize>>) -> (r: Vec<Vec<usize>>)
    ensures
        sorted_simplices(simplices_view(r@)),
        forall|x: Seq<usize>|
            #[trigger] simplices_view(r@).contains(x) <==> simplices_view(v@).contains(x),
{
    let r = sort_range(v, 0, v.len());
    proof {
        let vv = simplices_view(v@);
        assert forall|x: Seq<usize>| #[trigger] simplices_view(r@).contains(x) <==> vv.contains(x) by {
            if vv.contains(x) {
                let t = choose|t: int| 0 <= t < vv.len() && vv[t] == x;
                assert(among(vv, 0, vv.len() as int, x));
            }
            if among(vv, 0, vv.len() as int, x) {
                let t = choose|t: int| 0 <= t < vv.len() && #[trigger] vv[t] == x;
                assert(vv[t] == x);
            }
        }
    }
    r
}

} // verus!
