//! Iterative union-find with path compression and union by rank.
//!
//! The abstract state of a `UnionFind` over `n` elements is, for each element,
//! its representative (`root`) and, for each element, its rank. Two elements
//! are in the same set exactly when they have the same representative.
use vstd::prelude::*;

verus! {

/// Parent links stay inside `0..n`, ranks stay below `n`, and every link that
/// is not a self-loop goes to an element of strictly larger rank.  The last
/// clause is what makes every parent chain end in a root.
pub open spec fn links_ok(parent: Seq<usize>, rank: Seq<usize>) -> bool {
    &&& parent.len() == rank.len()
    &&& forall|i: int| #![trigger parent[i]] 0 <= i < parent.len() ==> parent[i] < parent.len()
    &&& forall|i: int| #![trigger rank[i]] 0 <= i < parent.len() ==> rank[i] < parent.len()
    &&& forall|i: int|
        #![trigger parent[i]]
        0 <= i < parent.len() && parent[i] != i ==> rank[i] < rank[parent[i] as int]
}

/// The element reached by following parent links from `i`.
pub open spec fn root_of(parent: Seq<usize>, rank: Seq<usize>, i: int) -> int
    decreases parent.len() - rank[i],
    when links_ok(parent, rank) && 0 <= i < parent.len()
{
    if parent[i] == i {
        i
    } else {
        root_of(parent, rank, parent[i] as int)
    }
}

/// Number of elements among the first `k` whose representative is `r`.
pub open spec fn class_count(parent: Seq<usize>, rank: Seq<usize>, r: int, k: int) -> nat
    decreases k,
{
    if k <= 0 {
        0
    } else {
        class_count(parent, rank, r, k - 1) + if root_of(parent, rank, k - 1) == r {
            1nat
        } else {
            0nat
        }
    }
}

/// Number of elements among the first `k` that are their own representative.
pub open spec fn root_count(parent: Seq<usize>, rank: Seq<usize>, k: int) -> nat
    decreases k,
{
    if k <= 0 {
        0
    } else {
        root_count(parent, rank, k - 1) + if root_of(parent, rank, k - 1) == k - 1 {
            1nat
        } else {
            0nat
        }
    }
}

/// The rank of a representative is smaller than the size of its set
/// (union by rank keeps this, and it bounds every rank below `n`).
pub open spec fn ranks_fit(parent: Seq<usize>, rank: Seq<usize>) -> bool {
    forall|r: int|
        0 <= r < parent.len() && #[trigger] root_of(parent, rank, r) == r ==> rank[r]
            < class_count(parent, rank, r, parent.len() as int)
}

/// Two states over the same elements with the same representative everywhere.
pub open spec fn same_roots(p1: Seq<usize>, k1: Seq<usize>, p2: Seq<usize>, k2: Seq<usize>) -> bool {
    &&& p1.len() == p2.len()
    &&& forall|i: int|
        0 <= i < p1.len() ==> #[trigger] root_of(p2, k2, i) == root_of(p1, k1, i)
}

proof fn lemma_root(parent: Seq<usize>, rank: Seq<usize>, i: int)
    requires
        links_ok(parent, rank),
        0 <= i < parent.len(),
    ensures
        0 <= root_of(parent, rank, i) < parent.len(),
        parent[root_of(parent, rank, i)] == root_of(parent, rank, i),
        root_of(parent, rank, root_of(parent, rank, i)) == root_of(parent, rank, i),
        rank[i] <= rank[root_of(parent, rank, i)],
        parent[i] != i ==> rank[i] < rank[root_of(parent, rank, i)],
        parent[i] == i ==> root_of(parent, rank, i) == i,
        parent[i] != i ==> root_of(parent, rank, i) != i,
        parent[i] != i ==> root_of(parent, rank, i) == root_of(parent, rank, parent[i] as int),
    decreases parent.len() - rank[i],
{
    if parent[i] != i {
        lemma_root(parent, rank, parent[i] as int);
    }
}

proof fn lemma_all_roots(parent: Seq<usize>, rank: Seq<usize>)
    requires
        links_ok(parent, rank),
    ensures
        forall|i: int|
            #![trigger root_of(parent, rank, i)]
            0 <= i < parent.len() ==> {
                &&& 0 <= root_of(parent, rank, i) < parent.len()
                &&& parent[root_of(parent, rank, i)] == root_of(parent, rank, i)
                &&& root_of(parent, rank, root_of(parent, rank, i)) == root_of(parent, rank, i)
                &&& rank[i] <= rank[root_of(parent, rank, i)]
                &&& (root_of(parent, rank, i) == i <==> parent[i] == i)
            },
{
    assert forall|i: int| #![trigger root_of(parent, rank, i)] 0 <= i < parent.len() implies {
        &&& 0 <= root_of(parent, rank, i) < parent.len()
        &&& parent[root_of(parent, rank, i)] == root_of(parent, rank, i)
        &&& root_of(parent, rank, root_of(parent, rank, i)) == root_of(parent, rank, i)
        &&& rank[i] <= rank[root_of(parent, rank, i)]
        &&& (root_of(parent, rank, i) == i <==> parent[i] == i)
    } by {
        lemma_root(parent, rank, i);
    }
}

/// Pointing a node straight at its representative changes no representative.
proof fn lemma_redirect(parent: Seq<usize>, rank: Seq<usize>, x: int, i: int)
    requires
        links_ok(parent, rank),
        0 <= x < parent.len(),
        0 <= i < parent.len(),
        links_ok(parent.update(x, root_of(parent, rank, x) as usize), rank),
    ensures
        root_of(parent.update(x, root_of(parent, rank, x) as usize), rank, i) == root_of(
            parent,
            rank,
            i,
        ),
    decreases parent.len() - rank[i],
{
    let r = root_of(parent, rank, x);
    let p2 = parent.update(x, r as usize);
    lemma_root(parent, rank, x);
    lemma_root(parent, rank, i);
    if i == x {
        if r != x {
            assert(p2[r] == r);
            assert(root_of(p2, rank, r) == r);
        }
    } else if parent[i] != i {
        lemma_redirect(parent, rank, x, parent[i] as int);
    }
}

/// Attaching root `lo` below root `hi` sends exactly the set of `lo` to `hi`.
proof fn lemma_link(parent: Seq<usize>, rank: Seq<usize>, rank2: Seq<usize>, lo: int, hi: int, i: int)
    requires
        links_ok(parent, rank),
        links_ok(parent.update(lo, hi as usize), rank2),
        0 <= lo < parent.len(),
        0 <= hi < parent.len(),
        lo != hi,
        parent[lo] == lo,
        parent[hi] == hi,
        0 <= i < parent.len(),
    ensures
        root_of(parent.update(lo, hi as usize), rank2, i) == if root_of(parent, rank, i) == lo {
            hi
        } else {
            root_of(parent, rank, i)
        },
    decreases parent.len() - rank[i],
{
    let p2 = parent.update(lo, hi as usize);
    lemma_root(parent, rank, i);
    if i == lo {
        assert(p2[hi] == hi);
        assert(root_of(p2, rank2, hi) == hi);
    } else if parent[i] != i {
        lemma_link(parent, rank, rank2, lo, hi, parent[i] as int);
    }
}

proof fn lemma_counts_same(p1: Seq<usize>, k1: Seq<usize>, p2: Seq<usize>, k2: Seq<usize>, r: int, k: int)
    requires
        same_roots(p1, k1, p2, k2),
        0 <= k <= p1.len(),
    ensures
        class_count(p2, k2, r, k) == class_count(p1, k1, r, k),
        root_count(p2, k2, k) == root_count(p1, k1, k),
    decreases k,
{
    if k > 0 {
        lemma_counts_same(p1, k1, p2, k2, r, k - 1);
        assert(root_of(p2, k2, k - 1) == root_of(p1, k1, k - 1));
    }
}

proof fn lemma_ranks_fit_same(p1: Seq<usize>, k1: Seq<usize>, p2: Seq<usize>)
    requires
        links_ok(p1, k1),
        links_ok(p2, k1),
        ranks_fit(p1, k1),
        same_roots(p1, k1, p2, k1),
    ensures
        ranks_fit(p2, k1),
        root_count(p2, k1, p2.len() as int) == root_count(p1, k1, p1.len() as int),
{
    let n = p1.len() as int;
    assert forall|r: int| 0 <= r < n && #[trigger] root_of(p2, k1, r) == r implies k1[r]
        < class_count(p2, k1, r, n) by {
        lemma_counts_same(p1, k1, p2, k1, r, n);
        assert(root_of(p1, k1, r) == r);
    }
    lemma_counts_same(p1, k1, p2, k1, 0, n);
}

proof fn lemma_two_classes(parent: Seq<usize>, rank: Seq<usize>, r1: int, r2: int, k: int)
    requires
        r1 != r2,
        0 <= k,
    ensures
        class_count(parent, rank, r1, k) + class_count(parent, rank, r2, k) <= k,
    decreases k,
{
    if k > 0 {
        lemma_two_classes(parent, rank, r1, r2, k - 1);
    }
}

proof fn lemma_class_count_own(parent: Seq<usize>, rank: Seq<usize>, r: int, k: int)
    requires
        links_ok(parent, rank),
        0 <= r < k <= parent.len(),
        root_of(parent, rank, r) == r,
    ensures
        class_count(parent, rank, r, k) >= 1,
    decreases k,
{
    if k - 1 > r {
        lemma_class_count_own(parent, rank, r, k - 1);
    }
}

/// Counts after attaching root `lo` below root `hi`.
proof fn lemma_link_counts(
    p1: Seq<usize>,
    k1: Seq<usize>,
    p2: Seq<usize>,
    k2: Seq<usize>,
    lo: int,
    hi: int,
    r: int,
    k: int,
)
    requires
        p1.len() == p2.len(),
        0 <= k <= p1.len(),
        lo != hi,
        forall|i: int|
            0 <= i < p1.len() ==> #[trigger] root_of(p2, k2, i) == if root_of(p1, k1, i) == lo {
                hi
            } else {
                root_of(p1, k1, i)
            },
        0 <= lo < p1.len(),
        root_of(p1, k1, lo) == lo,
        root_of(p1, k1, hi) == hi,
    ensures
        class_count(p2, k2, hi, k) == class_count(p1, k1, hi, k) + class_count(p1, k1, lo, k),
        r != hi && r != lo ==> class_count(p2, k2, r, k) == class_count(p1, k1, r, k),
        root_count(p2, k2, k) + (if lo < k {
            1int
        } else {
            0int
        }) == root_count(p1, k1, k),
    decreases k,
{
    if k > 0 {
        lemma_link_counts(p1, k1, p2, k2, lo, hi, r, k - 1);
        assert(root_of(p2, k2, k - 1) == if root_of(p1, k1, k - 1) == lo {
            hi
        } else {
            root_of(p1, k1, k - 1)
        });
    }
}

/// `i` lies on the path of parent links from `x` to its representative.
pub open spec fn on_path(parent: Seq<usize>, rank: Seq<usize>, x: int, i: int) -> bool
    decreases parent.len() - rank[x],
    when links_ok(parent, rank) && 0 <= x < parent.len()
{
    i == x || (parent[x] != x && on_path(parent, rank, parent[x] as int, i))
}

/// The parent links after path compression from `x`: every node on the path
/// from `x` links straight to the representative of `x`.
pub open spec fn compressed(parent: Seq<usize>, rank: Seq<usize>, x: int) -> Seq<usize> {
    Seq::new(
        parent.len(),
        |i: int|
            if on_path(parent, rank, x, i) {
                root_of(parent, rank, x) as usize
            } else {
                parent[i]
            },
    )
}

/// Compression from `x` done for the nodes before `cur` on the path.
pub open spec fn compressed_before(parent: Seq<usize>, rank: Seq<usize>, x: int, cur: int) -> Seq<usize> {
    Seq::new(
        parent.len(),
        |i: int|
            if on_path(parent, rank, x, i) && !on_path(parent, rank, cur, i) {
                root_of(parent, rank, x) as usize
            } else {
                parent[i]
            },
    )
}

proof fn lemma_on_path(parent: Seq<usize>, rank: Seq<usize>, x: int, i: int)
    requires
        links_ok(parent, rank),
        0 <= x < parent.len(),
    ensures
        on_path(parent, rank, x, i) ==> 0 <= i < parent.len() && rank[x] <= rank[i]
            && root_of(parent, rank, i) == root_of(parent, rank, x),
        on_path(parent, rank, x, i) && i != x ==> rank[x] < rank[i],
        on_path(parent, rank, x, root_of(parent, rank, x)),
    decreases parent.len() - rank[x],
{
    lemma_root(parent, rank, x);
    if parent[x] != x {
        lemma_on_path(parent, rank, parent[x] as int, i);
        lemma_root(parent, rank, parent[x] as int);
    }
}

proof fn lemma_on_path_trans(parent: Seq<usize>, rank: Seq<usize>, x: int, y: int, i: int)
    requires
        links_ok(parent, rank),
        0 <= x < parent.len(),
        0 <= y < parent.len(),
        on_path(parent, rank, x, y),
        on_path(parent, rank, y, i),
    ensures
        on_path(parent, rank, x, i),
    decreases parent.len() - rank[x],
{
    if x != y {
        lemma_on_path_trans(parent, rank, parent[x] as int, y, i);
    }
}

proof fn lemma_on_path_root(parent: Seq<usize>, rank: Seq<usize>, r: int, i: int)
    requires
        links_ok(parent, rank),
        0 <= r < parent.len(),
        parent[r] == r,
    ensures
        on_path(parent, rank, r, i) == (i == r),
{
}

/// Iterative union-find with path compression and union by rank.
#[derive(Clone, Debug)]
pub struct UnionFind {
    parent: Vec<usize>,
    rank: Vec<usize>,
}

impl UnionFind {
    /// Number of elements.
    pub closed spec fn size(&self) -> nat {
        self.parent@.len()
    }

    /// The internal links are consistent (kept by every operation).
    pub closed spec fn wf(&self) -> bool {
        &&& links_ok(self.parent@, self.rank@)
        &&& ranks_fit(self.parent@, self.rank@)
    }

    /// The representative of element `i`.
    pub closed spec fn root(&self, i: int) -> int {
        root_of(self.parent@, self.rank@, i)
    }

    /// The rank of element `i` (meaningful for representatives).
    pub closed spec fn rank_at(&self, i: int) -> int {
        self.rank@[i] as int
    }

    /// The parent link of each element.
    pub closed spec fn links(&self) -> Seq<usize> {
        self.parent@
    }

    /// The parent links after `union(a, b)`: the paths from `a` and then from
    /// `b` compressed, then the losing representative linked to the winner.
    pub closed spec fn union_links(&self, a: int, b: int) -> Seq<usize> {
        let p2 = compressed(compressed(self.parent@, self.rank@, a), self.rank@, b);
        if self.root(a) != self.root(b) {
            p2.update(self.union_loser(a, b), self.union_winner(a, b) as usize)
        } else {
            p2
        }
    }

    /// The parent links after compressing the path from `x`.
    pub closed spec fn compressed_links(&self, x: int) -> Seq<usize> {
        compressed(self.parent@, self.rank@, x)
    }

    /// Two elements are in the same set.
    pub open spec fn same_set(&self, i: int, j: int) -> bool {
        self.root(i) == self.root(j)
    }

    /// Number of distinct sets: each set has exactly one element that is its
    /// own representative.
    pub closed spec fn num_classes(&self) -> nat {
        root_count(self.parent@, self.rank@, self.parent@.len() as int)
    }

    /// The representative that survives `union(a, b)`.
    pub open spec fn union_winner(&self, a: int, b: int) -> int {
        if self.rank_at(self.root(a)) < self.rank_at(self.root(b)) {
            self.root(b)
        } else {
            self.root(a)
        }
    }

    /// The representative that `union(a, b)` attaches below the other one.
    pub open spec fn union_loser(&self, a: int, b: int) -> int {
        if self.rank_at(self.root(a)) < self.rank_at(self.root(b)) {
            self.root(a)
        } else {
            self.root(b)
        }
    }

    /// Facts about representatives that hold in every well-formed state.
    pub proof fn lemma_roots(&self)
        requires
            self.wf(),
        ensures
            forall|i: int|
                #![trigger self.root(i)]
                0 <= i < self.size() ==> {
                    &&& 0 <= self.root(i) < self.size()
                    &&& self.root(self.root(i)) == self.root(i)
                },
    {
        lemma_all_roots(self.parent@, self.rank@);
    }

    /// `n` singleton sets `{0}, …, {n-1}`.
    pub fn new(n: usize) -> (uf: Self)
        ensures
            uf.wf(),
            uf.size() == n,
            forall|i: int| 0 <= i < n ==> #[trigger] uf.root(i) == i,
            forall|i: int| 0 <= i < n ==> #[trigger] uf.rank_at(i) == 0,
            uf.num_classes() == n,
            uf.history_of(Seq::<(usize, usize)>::empty(), 0),
    {
        let mut parent: Vec<usize> = Vec::new();
        let mut rank: Vec<usize> = Vec::new();
        let mut i: usize = 0;
        while i < n
            invariant
                i <= n,
                parent@.len() == i,
                rank@.len() == i,
                forall|j: int| 0 <= j < i ==> #[trigger] parent@[j] == j,
                forall|j: int| 0 <= j < i ==> #[trigger] rank@[j] == 0,
            decreases n - i,
        {
            parent.push(i);
            rank.push(0);
            i = i + 1;
        }
        let uf = UnionFind { parent, rank };
        proof {
            let p = uf.parent@;
            let k = uf.rank@;
            assert(links_ok(p, k));
            assert forall|j: int| 0 <= j < n implies #[trigger] root_of(p, k, j) == j by {
                assert(p[j] == j);
            }
            assert forall|r: int| 0 <= r < n && #[trigger] root_of(p, k, r) == r implies k[r]
                < class_count(p, k, r, n as int) by {
                lemma_class_count_own(p, k, r, n as int);
            }
            assert forall|j: int| 0 <= j <= n implies #[trigger] root_count(p, k, j) == j by {
                lemma_root_count_identity(p, k, j);
            }
            uf.lemma_history_start();
        }
        uf
    }

    /// Find the representative of `x`, compressing the path from `x` to it.
    /// No representative and no rank changes.
    pub fn find(&mut self, x: usize) -> (r: usize)
        requires
            old(self).wf(),
            x < old(self).size(),
        ensures
            final(self).wf(),
            final(self).size() == old(self).size(),
            r == old(self).root(x as int),
            forall|i: int|
                0 <= i < old(self).size() ==> #[trigger] final(self).root(i) == old(self).root(i),
            forall|i: int|
                0 <= i < old(self).size() ==> #[trigger] final(self).rank_at(i) == old(self).rank_at(i),
            final(self).num_classes() == old(self).num_classes(),
            final(self).links() == old(self).compressed_links(x as int),
            old(self).find_step(*final(self)),
    {
        let ghost p0 = self.parent@;
        let ghost k0 = self.rank@;
        let n = self.parent.len();
        proof {
            lemma_all_roots(p0, k0);
        }
        let mut root = x;
        while self.parent[root] != root
            invariant
                self.parent@ == p0,
                self.rank@ == k0,
                links_ok(p0, k0),
                n == p0.len(),
                root < n,
                root_of(p0, k0, root as int) == root_of(p0, k0, x as int),
            decreases n - k0[root as int],
        {
            proof {
                lemma_root(p0, k0, root as int);
            }
            root = self.parent[root];
        }
        let mut cur = x;
        while self.parent[cur] != root
            invariant
                self.rank@ == k0,
                self.parent@.len() == n,
                n == p0.len(),
                links_ok(p0, k0),
                links_ok(self.parent@, k0),
                ranks_fit(p0, k0),
                ranks_fit(self.parent@, k0),
                same_roots(p0, k0, self.parent@, k0),
                root_count(self.parent@, k0, n as int) == root_count(p0, k0, n as int),
                root < n,
                root_of(p0, k0, x as int) == root,
                root_of(p0, k0, root as int) == root,
                self.parent@[root as int] == root,
                cur < n,
                root_of(self.parent@, k0, cur as int) == root,
                x < n,
                on_path(p0, k0, x as int, cur as int),
                self.parent@ == compressed_before(p0, k0, x as int, cur as int),
            decreases n - k0[cur as int],
        {
            let ghost p1 = self.parent@;
            let next = self.parent[cur];
            proof {
                lemma_root(p1, k0, cur as int);
                lemma_root(p1, k0, root as int);
                lemma_on_path(p0, k0, cur as int, cur as int);
                assert(!on_path(p0, k0, cur as int, cur as int) == false);
                assert(p1[cur as int] == p0[cur as int]);
                assert(p0[cur as int] != cur) by {
                    if p0[cur as int] == cur {
                        lemma_root(p0, k0, cur as int);
                        lemma_on_path(p0, k0, x as int, cur as int);
                    }
                }
            }
            self.parent[cur] = root;
            proof {
                let p2 = self.parent@;
                assert(on_path(p0, k0, x as int, next as int)) by {
                    assert(next < n);
                    assert(p0[cur as int] == next);
                    assert(on_path(p0, k0, next as int, next as int));
                    assert(on_path(p0, k0, cur as int, next as int));
                    lemma_on_path_trans(p0, k0, x as int, cur as int, next as int);
                }
                assert forall|i: int| 0 <= i < n implies #[trigger] p2[i] == compressed_before(
                    p0,
                    k0,
                    x as int,
                    next as int,
                )[i] by {
                    lemma_on_path(p0, k0, next as int, i);
                    if i == cur {
                        assert(!on_path(p0, k0, next as int, cur as int));
                    } else {
                        assert(on_path(p0, k0, cur as int, i) == on_path(p0, k0, next as int, i));
                        if on_path(p0, k0, next as int, i) {
                            lemma_on_path_trans(p0, k0, x as int, next as int, i);
                        }
                    }
                }
                assert(p2 =~= compressed_before(p0, k0, x as int, next as int));
            }
            proof {
                let p2 = self.parent@;
                assert(p2 == p1.update(cur as int, root));
                assert(links_ok(p2, k0)) by {
                    assert forall|i: int| #![trigger p2[i]] 0 <= i < n && p2[i] != i implies k0[i]
                        < k0[p2[i] as int] by {
                        if i != cur {
                            assert(p2[i] == p1[i]);
                        }
                    }
                }
                assert forall|i: int| 0 <= i < n implies #[trigger] root_of(p2, k0, i) == root_of(
                    p0,
                    k0,
                    i,
                ) by {
                    lemma_redirect(p1, k0, cur as int, i);
                    assert(root_of(p1, k0, i) == root_of(p0, k0, i));
                }
                lemma_ranks_fit_same(p0, k0, p2);
                lemma_root(p1, k0, cur as int);
                assert(root_of(p2, k0, next as int) == root_of(p0, k0, next as int));
                assert(root_of(p1, k0, next as int) == root_of(p0, k0, next as int));
            }
            cur = next;
        }
        proof {
            let pf = self.parent@;
            assert(pf[cur as int] == root);
            assert forall|i: int| 0 <= i < n implies #[trigger] pf[i] == compressed(p0, k0, x as int)[i] by {
                lemma_on_path(p0, k0, cur as int, i);
                if on_path(p0, k0, x as int, i) && on_path(p0, k0, cur as int, i) {
                    if i != cur {
                        assert(p0[cur as int] != cur as usize) by {
                            if p0[cur as int] == cur as usize {
                                assert(on_path(p0, k0, cur as int, i) == (i == cur));
                            }
                        }
                        assert(pf[cur as int] == p0[cur as int]);
                        lemma_on_path_root(p0, k0, root as int, i);
                        assert(on_path(p0, k0, p0[cur as int] as int, i));
                    }
                }
            }
            assert(pf =~= compressed(p0, k0, x as int));
        }
        root
    }

    /// Merge the sets of `a` and `b`. Returns `true` iff they were separate.
    /// The representative of lower rank is attached below the other one; on
    /// equal ranks the representative of `a` survives and its rank grows by one.
    #[verifier::rlimit(40)]
    pub fn union(&mut self, a: usize, b: usize) -> (merged: bool)
        requires
            old(self).wf(),
            a < old(self).size(),
            b < old(self).size(),
        ensures
            final(self).wf(),
            final(self).size() == old(self).size(),
            merged == (old(self).root(a as int) != old(self).root(b as int)),
            final(self).root(a as int) == final(self).root(b as int),
            forall|i: int|
                0 <= i < old(self).size() ==> #[trigger] final(self).root(i) == if merged
                    && old(self).root(i) == old(self).union_loser(a as int, b as int) {
                    old(self).union_winner(a as int, b as int)
                } else {
                    old(self).root(i)
                },
            forall|i: int|
                0 <= i < old(self).size() ==> #[trigger] final(self).rank_at(i) == if merged && i
                    == old(self).union_winner(a as int, b as int) && old(self).rank_at(
                    old(self).root(a as int),
                ) == old(self).rank_at(old(self).root(b as int)) {
                    old(self).rank_at(i) + 1
                } else {
                    old(self).rank_at(i)
                },
            forall|i: int, j: int|
                0 <= i < old(self).size() && 0 <= j < old(self).size() ==> (final(self).same_set(i, j) <==> (old(self).same_set(i, j) || (old(self).same_set(
                    i,
                    a as int,
                ) && old(self).same_set(j, b as int)) || (old(self).same_set(i, b as int) && old(self).same_set(j, a as int)))),
            final(self).num_classes() + (if merged {
                1int
            } else {
                0int
            }) == old(self).num_classes(),
            final(self).links() == old(self).union_links(a as int, b as int),
            old(self).union_step(*final(self), a as int, b as int, merged),
    {
        proof {
            lemma_all_roots(self.parent@, self.rank@);
        }
        let ghost p0 = self.parent@;
        let ghost k0 = self.rank@;
        let ra = self.find(a);
        let ghost pa = self.parent@;
        proof {
            assert(self.rank@ =~= k0) by {
                assert forall|i: int| 0 <= i < k0.len() implies self.rank@[i] == k0[i] by {
                    assert(self.rank_at(i) == old(self).rank_at(i));
                }
            }
            assert(pa == compressed(p0, k0, a as int));
        }
        let rb = self.find(b);
        let ghost p1 = self.parent@;
        let ghost k1 = self.rank@;
        proof {
            assert(k1 =~= k0) by {
                assert forall|i: int| 0 <= i < k0.len() implies k1[i] == k0[i] by {
                    assert(self.rank_at(i) == old(self).rank_at(i));
                }
            }
            assert(p1 == compressed(pa, k0, b as int));
        }
        let len = self.parent.len();
        let ghost n = len as int;
        proof {
            assert forall|i: int| 0 <= i < n implies #[trigger] root_of(p1, k1, i) == old(self).root(i) by {
                assert(self.root(i) == old(self).root(i));
            }
            assert forall|i: int| 0 <= i < n implies #[trigger] old(self).rank_at(i) == k1[i] by {
                assert(self.rank_at(i) == old(self).rank_at(i));
            }
            lemma_all_roots(p1, k1);
            assert(root_of(p1, k1, a as int) == ra);
            assert(root_of(p1, k1, b as int) == rb);
            lemma_root(p1, k1, a as int);
            lemma_root(p1, k1, b as int);
            assert(root_of(p1, k1, ra as int) == ra);
            assert(root_of(p1, k1, rb as int) == rb);
        }
        if ra == rb {
            return false;
        }
        let ghost lo: int = if k1[ra as int] < k1[rb as int] { ra as int } else { rb as int };
        let ghost hi: int = if k1[ra as int] < k1[rb as int] { rb as int } else { ra as int };
        if self.rank[ra] < self.rank[rb] {
            self.parent[ra] = rb;
        } else if self.rank[ra] > self.rank[rb] {
            self.parent[rb] = ra;
        } else {
            proof {
                lemma_two_classes(p1, k1, ra as int, rb as int, n);
                assert(k1[ra as int] < class_count(p1, k1, ra as int, n));
                assert(k1[rb as int] < class_count(p1, k1, rb as int, n));
            }
            self.parent[rb] = ra;
            self.rank[ra] = self.rank[ra] + 1;
        }
        proof {
            let p2 = self.parent@;
            let k2 = self.rank@;
            assert(p2 == p1.update(lo, hi as usize));
            assert(links_ok(p2, k2)) by {
                assert forall|i: int| #![trigger p2[i]] 0 <= i < n implies p2[i] < n && k2[i] < n by {
                    if i == hi && k2[i] != k1[i] {
                        lemma_two_classes(p1, k1, ra as int, rb as int, n);
                    }
                }
                assert forall|i: int| #![trigger p2[i]] 0 <= i < n && p2[i] != i implies k2[i]
                    < k2[p2[i] as int] by {
                    if i != lo {
                        assert(p2[i] == p1[i]);
                        lemma_root(p1, k1, i);
                    }
                }
            }
            assert forall|i: int| 0 <= i < n implies #[trigger] root_of(p2, k2, i) == if root_of(
                p1,
                k1,
                i,
            ) == lo {
                hi
            } else {
                root_of(p1, k1, i)
            } by {
                lemma_link(p1, k1, k2, lo, hi, i);
            }
            assert(ranks_fit(p2, k2)) by {
                assert forall|r: int| 0 <= r < n && #[trigger] root_of(p2, k2, r) == r implies k2[r]
                    < class_count(p2, k2, r, n) by {
                    lemma_link_counts(p1, k1, p2, k2, lo, hi, r, n);
                    lemma_root(p1, k1, r);
                    if r != hi {
                        assert(root_of(p1, k1, r) == r);
                    } else {
                        lemma_class_count_own(p1, k1, lo, n);
                    }
                }
            }
            lemma_link_counts(p1, k1, p2, k2, lo, hi, 0, n);
            assert(old(self).rank_at(old(self).root(a as int)) == k1[ra as int]);
            assert(old(self).rank_at(old(self).root(b as int)) == k1[rb as int]);
            assert(old(self).union_winner(a as int, b as int) == hi);
            assert(old(self).union_loser(a as int, b as int) == lo);
            assert forall|i: int| 0 <= i < n implies #[trigger] k2[i] == if i == hi && k1[ra as int]
                == k1[rb as int] {
                k1[i] + 1
            } else {
                k1[i] as int
            } by {
                assert(root_of(p1, k1, i) == old(self).root(i));
            }
            assert(self.root(a as int) == hi);
            assert(self.root(b as int) == hi);
        }
        true
    }

    /// Number of distinct sets.
    pub fn num_sets(&self) -> (count: usize)
        requires
            self.wf(),
        ensures
            count == self.num_classes(),
            count == self.representatives().len(),
    {
        proof {
            self.lemma_representatives();
        }
        let n = self.parent.len();
        let ghost p = self.parent@;
        let ghost k = self.rank@;
        proof {
            lemma_all_roots(p, k);
        }
        let mut roots: Vec<bool> = Vec::new();
        let mut i: usize = 0;
        while i < n
            invariant
                i <= n,
                roots@.len() == i,
                forall|j: int| 0 <= j < i ==> #[trigger] roots@[j] == false,
            decreases n - i,
        {
            roots.push(false);
            i = i + 1;
        }
        let mut i: usize = 0;
        while i < n
            invariant
                self.parent@ == p,
                self.rank@ == k,
                links_ok(p, k),
                n == p.len(),
                i <= n,
                roots@.len() == n,
                forall|r: int|
                    0 <= r < n ==> (#[trigger] roots@[r] <==> exists|j: int|
                        0 <= j < i && #[trigger] root_of(p, k, j) == r),
                forall|i: int|
                    #![trigger root_of(p, k, i)]
                    0 <= i < p.len() ==> {
                        &&& 0 <= root_of(p, k, i) < p.len()
                        &&& root_of(p, k, root_of(p, k, i)) == root_of(p, k, i)
                    },
            decreases n - i,
        {
            let mut r = i;
            while self.parent[r] != r
                invariant
                    self.parent@ == p,
                    self.rank@ == k,
                    links_ok(p, k),
                    n == p.len(),
                    r < n,
                    i < n,
                    root_of(p, k, r as int) == root_of(p, k, i as int),
                decreases n - k[r as int],
            {
                proof {
                    lemma_root(p, k, r as int);
                }
                r = self.parent[r];
            }
            let ghost old_roots = roots@;
            roots[r] = true;
            proof {
                assert forall|q: int| 0 <= q < n implies (#[trigger] roots@[q] <==> exists|j: int|
                    0 <= j < i + 1 && #[trigger] root_of(p, k, j) == q) by {
                    if q == r {
                        assert(root_of(p, k, i as int) == q);
                    } else {
                        assert(roots@[q] == old_roots[q]);
                        if exists|j: int| 0 <= j < i + 1 && #[trigger] root_of(p, k, j) == q {
                            let j = choose|j: int| 0 <= j < i + 1 && #[trigger] root_of(p, k, j) == q;
                            if j == i {
                                assert(false);
                            }
                        }
                    }
                }
            }
            i = i + 1;
        }
        let mut count: usize = 0;
        let mut q: usize = 0;
        while q < n
            invariant
                n == p.len(),
                links_ok(p, k),
                self.parent@ == p,
                self.rank@ == k,
                q <= n,
                roots@.len() == n,
                count == root_count(p, k, q as int),
                count <= q,
                forall|r: int|
                    0 <= r < n ==> (#[trigger] roots@[r] <==> exists|j: int|
                        0 <= j < n && #[trigger] root_of(p, k, j) == r),
                forall|i: int|
                    #![trigger root_of(p, k, i)]
                    0 <= i < p.len() ==> {
                        &&& 0 <= root_of(p, k, i) < p.len()
                        &&& root_of(p, k, root_of(p, k, i)) == root_of(p, k, i)
                    },
            decreases n - q,
        {
            proof {
                if roots@[q as int] {
                    let j = choose|j: int| 0 <= j < n && #[trigger] root_of(p, k, j) == q;
                    assert(root_of(p, k, root_of(p, k, j)) == root_of(p, k, j));
                } else {
                    if root_of(p, k, q as int) == q {
                        assert(roots@[q as int]);
                    }
                }
            }
            if roots[q] {
                count = count + 1;
            }
            q = q + 1;
        }
        count
    }
}

proof fn lemma_root_count_identity(p: Seq<usize>, k: Seq<usize>, j: int)
    requires
        links_ok(p, k),
        0 <= j <= p.len(),
        forall|i: int| 0 <= i < p.len() ==> #[trigger] root_of(p, k, i) == i,
    ensures
        root_count(p, k, j) == j,
    decreases j,
{
    if j > 0 {
        lemma_root_count_identity(p, k, j - 1);
        assert(root_of(p, k, j - 1) == j - 1);
    }
}

} // verus!

verus! {

impl UnionFind {
    /// The parent links.
    pub fn parents(&self) -> (p: &Vec<usize>)
        ensures
            p@ == self.links(),
    {
        &self.parent
    }

    /// The ranks.
    pub fn ranks(&self) -> (r: &Vec<usize>)
        requires
            self.wf(),
        ensures
            r@.len() == self.size(),
            forall|i: int| 0 <= i < self.size() ==> #[trigger] r@[i] == self.rank_at(i),
    {
        &self.rank
    }
}

} // verus!

verus! {

/// Pair `pr` joins `u` and `v`, in either order.
pub open spec fn step_of(pr: (usize, usize), u: int, v: int) -> bool {
    (pr.0 == u && pr.1 == v) || (pr.0 == v && pr.1 == u)
}

/// Some recorded pair joins `u` and `v`.
pub open spec fn pair_step(pairs: Seq<(usize, usize)>, u: int, v: int) -> bool {
    exists|k: int| 0 <= k < pairs.len() && #[trigger] step_of(pairs[k], u, v)
}

/// `path` goes from element to element along recorded pairs.
pub open spec fn is_pair_chain(pairs: Seq<(usize, usize)>, path: Seq<int>) -> bool {
    &&& path.len() >= 1
    &&& forall|k: int| 0 <= k < path.len() - 1 ==> #[trigger] pair_step(pairs, path[k], path[k + 1])
}

/// `x` and `y` are linked by a chain of recorded pairs (the smallest
/// equivalence relation that contains the pairs).
pub open spec fn joined(pairs: Seq<(usize, usize)>, x: int, y: int) -> bool {
    exists|path: Seq<int>|
        #[trigger] is_pair_chain(pairs, path) && path[0] == x && path[path.len() - 1] == y
}

proof fn lemma_joined_refl(pairs: Seq<(usize, usize)>, x: int)
    ensures
        joined(pairs, x, x),
{
    let path = seq![x];
    assert(is_pair_chain(pairs, path));
}

proof fn lemma_joined_step(pairs: Seq<(usize, usize)>, u: int, v: int)
    requires
        pair_step(pairs, u, v),
    ensures
        joined(pairs, u, v),
{
    let path = seq![u, v];
    assert(pair_step(pairs, path[0], path[1]));
    assert(is_pair_chain(pairs, path));
}

proof fn lemma_pair_step_symm(pairs: Seq<(usize, usize)>, u: int, v: int)
    requires
        pair_step(pairs, u, v),
    ensures
        pair_step(pairs, v, u),
{
    let k = choose|k: int| 0 <= k < pairs.len() && #[trigger] step_of(pairs[k], u, v);
    assert(step_of(pairs[k], v, u));
}

proof fn lemma_joined_symm(pairs: Seq<(usize, usize)>, x: int, y: int)
    requires
        joined(pairs, x, y),
    ensures
        joined(pairs, y, x),
{
    let path = choose|path: Seq<int>|
        #[trigger] is_pair_chain(pairs, path) && path[0] == x && path[path.len() - 1] == y;
    let rev = path.reverse();
    assert forall|k: int| 0 <= k < rev.len() - 1 implies #[trigger] pair_step(pairs, rev[k], rev[k + 1]) by {
        let m = path.len() - 2 - k;
        assert(pair_step(pairs, path[m], path[m + 1]));
        assert(rev[k] == path[m + 1]);
        assert(rev[k + 1] == path[m]);
        lemma_pair_step_symm(pairs, path[m], path[m + 1]);
    }
    assert(is_pair_chain(pairs, rev));
}

proof fn lemma_joined_trans(pairs: Seq<(usize, usize)>, x: int, y: int, z: int)
    requires
        joined(pairs, x, y),
        joined(pairs, y, z),
    ensures
        joined(pairs, x, z),
{
    let p1 = choose|path: Seq<int>|
        #[trigger] is_pair_chain(pairs, path) && path[0] == x && path[path.len() - 1] == y;
    let p2 = choose|path: Seq<int>|
        #[trigger] is_pair_chain(pairs, path) && path[0] == y && path[path.len() - 1] == z;
    let p = p1 + p2.drop_first();
    assert forall|k: int| 0 <= k < p.len() - 1 implies #[trigger] pair_step(pairs, p[k], p[k + 1]) by {
        if k < p1.len() - 1 {
            assert(p[k] == p1[k]);
            assert(p[k + 1] == p1[k + 1]);
            assert(pair_step(pairs, p1[k], p1[k + 1]));
        } else {
            let k2 = k - (p1.len() - 1);
            assert(p[k] == p2[k2]);
            assert(p[k + 1] == p2[k2 + 1]);
            assert(pair_step(pairs, p2[k2], p2[k2 + 1]));
        }
    }
    assert(is_pair_chain(pairs, p));
    assert(p[p.len() - 1] == z);
}

proof fn lemma_joined_push(pairs: Seq<(usize, usize)>, ab: (usize, usize), x: int, y: int)
    requires
        joined(pairs, x, y),
    ensures
        joined(pairs.push(ab), x, y),
{
    let p2 = pairs.push(ab);
    let path = choose|path: Seq<int>|
        #[trigger] is_pair_chain(pairs, path) && path[0] == x && path[path.len() - 1] == y;
    assert forall|k: int| 0 <= k < path.len() - 1 implies #[trigger] pair_step(p2, path[k], path[k + 1]) by {
        assert(pair_step(pairs, path[k], path[k + 1]));
        let j = choose|j: int| 0 <= j < pairs.len() && #[trigger] step_of(pairs[j], path[k], path[k + 1]);
        assert(p2[j] == pairs[j]);
        assert(step_of(p2[j], path[k], path[k + 1]));
    }
    assert(is_pair_chain(p2, path));
}

/// Without recorded pairs, only equal elements are joined.
proof fn lemma_joined_empty(x: int, y: int)
    ensures
        joined(Seq::<(usize, usize)>::empty(), x, y) <==> x == y,
{
    let e = Seq::<(usize, usize)>::empty();
    if joined(e, x, y) {
        let path = choose|path: Seq<int>|
            #[trigger] is_pair_chain(e, path) && path[0] == x && path[path.len() - 1] == y;
        if path.len() >= 2 {
            let k0: int = 0;
            assert(pair_step(e, path[k0], path[k0 + 1]));
        }
    }
    if x == y {
        lemma_joined_refl(e, x);
    }
}

/// The elements among `0..k` that are their own representative.
spec fn roots_upto(p: Seq<usize>, rk: Seq<usize>, k: int) -> Set<int> {
    Set::new(|r: int| 0 <= r < k && root_of(p, rk, r) == r)
}

proof fn lemma_roots_upto(p: Seq<usize>, rk: Seq<usize>, k: int)
    requires
        0 <= k,
    ensures
        roots_upto(p, rk, k).finite(),
        roots_upto(p, rk, k).len() == root_count(p, rk, k),
    decreases k,
{
    if k == 0 {
        assert(roots_upto(p, rk, 0) =~= Set::<int>::empty());
    } else {
        lemma_roots_upto(p, rk, k - 1);
        let prev = roots_upto(p, rk, k - 1);
        if root_of(p, rk, k - 1) == k - 1 {
            assert(roots_upto(p, rk, k) =~= prev.insert(k - 1));
        } else {
            assert(roots_upto(p, rk, k) =~= prev);
        }
    }
}

impl UnionFind {
    /// What `union(a, b)` does to the sets: the state `next` comes from
    /// `self` by merging the sets of `a` and `b` (`merged` says whether they
    /// were separate).
    pub open spec fn union_step(&self, next: Self, a: int, b: int, merged: bool) -> bool {
        &&& next.wf()
        &&& next.size() == self.size()
        &&& merged == (self.root(a) != self.root(b))
        &&& forall|i: int, j: int|
            0 <= i < self.size() && 0 <= j < self.size() ==> (#[trigger] next.same_set(i, j) <==> (
            self.same_set(i, j) || (self.same_set(i, a) && self.same_set(j, b)) || (self.same_set(
                i,
                b,
            ) && self.same_set(j, a))))
        &&& next.num_classes() + (if merged {
            1int
        } else {
            0int
        }) == self.num_classes()
    }

    /// What `find` does to the sets: nothing; `next` has the same
    /// representatives and the same number of sets as `self`.
    pub open spec fn find_step(&self, next: Self) -> bool {
        &&& next.wf()
        &&& next.size() == self.size()
        &&& forall|i: int| 0 <= i < self.size() ==> #[trigger] next.root(i) == self.root(i)
        &&& next.num_classes() == self.num_classes()
    }

    /// History law, find step: `find` keeps the state of the union calls made
    /// so far.
    pub proof fn lemma_history_find(&self, next: Self, pairs: Seq<(usize, usize)>, merges: nat)
        requires
            self.history_of(pairs, merges),
            self.find_step(next),
        ensures
            next.history_of(pairs, merges),
    {
        assert forall|x: int, y: int| 0 <= x < next.size() && 0 <= y < next.size() implies (
        #[trigger] next.same_set(x, y) <==> joined(pairs, x, y)) by {
            assert(next.root(x) == self.root(x));
            assert(next.root(y) == self.root(y));
            assert(self.same_set(x, y) <==> joined(pairs, x, y));
        }
    }

    /// History law, the sets: after union calls on `pairs`, `merges` of which
    /// merged, `find(x)` gives the same representative for exactly the
    /// elements that a chain of the pairs joins to `x`, and the number of
    /// sets is `n - merges`, the number of distinct representatives.
    pub proof fn lemma_history_sets(&self, pairs: Seq<(usize, usize)>, merges: nat, x: int, y: int)
        requires
            self.history_of(pairs, merges),
            0 <= x < self.size(),
            0 <= y < self.size(),
        ensures
            self.root(x) == self.root(y) <==> joined(pairs, x, y),
            0 <= self.root(x) < self.size(),
            self.root(self.root(x)) == self.root(x),
            self.num_classes() == self.size() - merges,
            self.representatives().len() == self.size() - merges,
            1 <= self.num_classes() <= self.size(),
    {
        assert(self.same_set(x, y) <==> joined(pairs, x, y));
        self.lemma_roots();
        assert(0 <= self.root(x) < self.size());
        self.lemma_representatives();
    }

    /// The representatives of the elements.
    pub open spec fn representatives(&self) -> Set<int> {
        Set::new(|r: int| exists|i: int| 0 <= i < self.size() && #[trigger] self.root(i) == r)
    }

    /// The state reached from `new(n)` by union calls on `pairs` (and any
    /// `find` calls), `merges` of which returned `true`: two elements share
    /// a set exactly when a chain of those pairs joins them, and there are
    /// `n - merges` sets.
    pub open spec fn history_of(&self, pairs: Seq<(usize, usize)>, merges: nat) -> bool {
        &&& self.wf()
        &&& forall|k: int|
            0 <= k < pairs.len() ==> (#[trigger] pairs[k]).0 < self.size() && pairs[k].1 < self.size()
        &&& forall|x: int, y: int|
            0 <= x < self.size() && 0 <= y < self.size() ==> (#[trigger] self.same_set(x, y) <==> joined(
                pairs,
                x,
                y,
            ))
        &&& self.num_classes() + merges == self.size()
    }

    /// The sets are counted by their representatives: `num_classes` is the
    /// number of distinct representatives, one at least when there are
    /// elements.
    pub proof fn lemma_representatives(&self)
        requires
            self.wf(),
        ensures
            self.representatives().finite(),
            self.representatives().len() == self.num_classes(),
            self.size() > 0 ==> self.num_classes() >= 1,
    {
        let p = self.parent@;
        let rk = self.rank@;
        let n = p.len() as int;
        lemma_all_roots(p, rk);
        lemma_roots_upto(p, rk, n);
        assert forall|r: int| #[trigger] self.representatives().contains(r) <==> roots_upto(p, rk, n).contains(r) by {
            if self.representatives().contains(r) {
                let i = choose|i: int| 0 <= i < self.size() && #[trigger] self.root(i) == r;
                assert(root_of(p, rk, i) == r);
            }
            if roots_upto(p, rk, n).contains(r) {
                assert(self.root(r) == r);
            }
        }
        assert(self.representatives() =~= roots_upto(p, rk, n));
        if n > 0 {
            assert(self.representatives().contains(self.root(0)));
        }
    }

    /// History law, start: `new(n)` is the state of no union calls.
    proof fn lemma_history_start(&self)
        requires
            self.wf(),
            forall|i: int| 0 <= i < self.size() ==> #[trigger] self.root(i) == i,
            self.num_classes() == self.size(),
    ensures
            self.history_of(Seq::<(usize, usize)>::empty(), 0),
    {
        assert forall|x: int, y: int| 0 <= x < self.size() && 0 <= y < self.size() implies (
        #[trigger] self.same_set(x, y) <==> joined(Seq::<(usize, usize)>::empty(), x, y)) by {
            lemma_joined_empty(x, y);
            assert(self.root(x) == x);
            assert(self.root(y) == y);
        }
    }

    /// History law, union step: if `self` is the state of the union calls on
    /// `pairs`, the state after `union(a, b)` is the state of those calls
    /// followed by this one.
    pub proof fn lemma_history_union(
        &self,
        next: Self,
        pairs: Seq<(usize, usize)>,
        merges: nat,
        a: usize,
        b: usize,
        merged: bool,
    )
        requires
            self.history_of(pairs, merges),
            a < self.size(),
            b < self.size(),
            self.union_step(next, a as int, b as int, merged),
        ensures
            next.history_of(
                pairs.push((a, b)),
                merges + if merged {
                    1nat
                } else {
                    0nat
                },
            ),
    {
        let n = self.size() as int;
        let p2 = pairs.push((a, b));
        assert(step_of(p2[pairs.len() as int], a as int, b as int));
        assert(pair_step(p2, a as int, b as int));
        assert forall|k: int| 0 <= k < p2.len() implies (#[trigger] p2[k]).0 < next.size() && p2[k].1
            < next.size() by {
            if k < pairs.len() {
                assert(p2[k] == pairs[k]);
            }
        }
        assert forall|x: int, y: int| 0 <= x < n && 0 <= y < n implies (#[trigger] next.same_set(x, y)
            <==> joined(p2, x, y)) by {
            if next.same_set(x, y) {
                if self.same_set(x, y) {
                    lemma_joined_push(pairs, (a, b), x, y);
                } else if self.same_set(x, a as int) && self.same_set(y, b as int) {
                    lemma_joined_push(pairs, (a, b), x, a as int);
                    lemma_joined_push(pairs, (a, b), y, b as int);
                    lemma_joined_step(p2, a as int, b as int);
                    lemma_joined_symm(p2, y, b as int);
                    lemma_joined_trans(p2, x, a as int, b as int);
                    lemma_joined_trans(p2, x, b as int, y);
                } else {
                    assert(self.same_set(x, b as int) && self.same_set(y, a as int));
                    lemma_joined_push(pairs, (a, b), x, b as int);
                    lemma_joined_push(pairs, (a, b), y, a as int);
                    lemma_pair_step_symm(p2, a as int, b as int);
                    lemma_joined_step(p2, b as int, a as int);
                    lemma_joined_symm(p2, y, a as int);
                    lemma_joined_trans(p2, x, b as int, a as int);
                    lemma_joined_trans(p2, x, a as int, y);
                }
            }
            if joined(p2, x, y) {
                let path = choose|path: Seq<int>|
                    #[trigger] is_pair_chain(p2, path) && path[0] == x && path[path.len() - 1] == y;
                self.lemma_chain_merged(next, pairs, merges, a, b, merged, path, path.len() - 1);
            }
        }
    }

    proof fn lemma_chain_merged(
        &self,
        next: Self,
        pairs: Seq<(usize, usize)>,
        merges: nat,
        a: usize,
        b: usize,
        merged: bool,
        path: Seq<int>,
        k: int,
    )
        requires
            self.history_of(pairs, merges),
            a < self.size(),
            b < self.size(),
            self.union_step(next, a as int, b as int, merged),
            is_pair_chain(pairs.push((a, b)), path),
            0 <= path[0] < self.size(),
            0 <= k < path.len(),
        ensures
            0 <= path[k] < self.size(),
            next.same_set(path[0], path[k]),
        decreases k,
    {
        let n = self.size() as int;
        let p2 = pairs.push((a, b));
        if k == 0 {
            assert(self.same_set(path[0], path[0]));
            assert(next.same_set(path[0], path[0]));
        } else {
            self.lemma_chain_merged(next, pairs, merges, a, b, merged, path, k - 1);
            let i0 = k - 1;
            let u = path[i0];
            let v = path[i0 + 1];
            assert(pair_step(p2, path[i0], path[i0 + 1]));
            let j = choose|j: int| 0 <= j < p2.len() && #[trigger] step_of(p2[j], u, v);
            if j < pairs.len() {
                assert(p2[j] == pairs[j]);
                assert(pairs[j].0 < n && pairs[j].1 < n);
                assert(step_of(pairs[j], u, v));
                assert(pair_step(pairs, u, v));
                lemma_joined_step(pairs, u, v);
                assert(self.same_set(u, v));
                assert(next.same_set(u, v));
            } else {
                assert(p2[j] == (a, b));
                assert(self.same_set(a as int, a as int));
                assert(self.same_set(b as int, b as int));
                assert(next.same_set(a as int, b as int));
                assert(next.same_set(u, v));
            }
            assert(next.same_set(path[0], u));
        }
    }
}

} // verus!

verus! {

proof fn lemma_class_count_le(parent: Seq<usize>, rank: Seq<usize>, r: int, k: int)
    requires
        0 <= k,
    ensures
        class_count(parent, rank, r, k) <= k,
    decreases k,
{
    if k > 0 {
        lemma_class_count_le(parent, rank, r, k - 1);
    }
}

impl UnionFind {
    /// A union-find with the given parent links and ranks, if they are
    /// consistent (`links_ok` and `ranks_fit`, as every operation keeps them);
    /// `None` otherwise.
    pub fn from_links(parent: Vec<usize>, rank: Vec<usize>) -> (r: Option<Self>)
        ensures
            r is Some <==> links_ok(parent@, rank@) && ranks_fit(parent@, rank@),
            r matches Some(uf) ==> uf.wf() && uf.links() == parent@ && uf.size() == parent@.len()
                && forall|i: int| 0 <= i < parent@.len() ==> #[trigger] uf.rank_at(i) == rank@[i],
    {
        let n = parent.len();
        if rank.len() != n {
            return None;
        }
        let ghost p = parent@;
        let ghost k = rank@;
        let mut i: usize = 0;
        while i < n
            invariant
                n == p.len(),
                n == k.len(),
                parent@ == p,
                rank@ == k,
                i <= n,
                forall|j: int| #![trigger p[j]] 0 <= j < i ==> p[j] < n,
                forall|j: int| #![trigger k[j]] 0 <= j < i ==> k[j] < n,
                forall|j: int| #![trigger p[j]] 0 <= j < i && p[j] != j ==> k[j] < k[p[j] as int],
            decreases n - i,
        {
            if parent[i] >= n || rank[i] >= n {
                proof {
                    assert(!links_ok(p, k)) by {
                        if links_ok(p, k) {
                            assert(p[i as int] < n);
                            assert(k[i as int] < n);
                        }
                    }
                }
                return None;
            }
            if parent[i] != i && rank[i] >= rank[parent[i]] {
                proof {
                    assert(!links_ok(p, k)) by {
                        if links_ok(p, k) {
                            assert(p[i as int] != i);
                        }
                    }
                }
                return None;
            }
            i = i + 1;
        }
        proof {
            assert(links_ok(p, k));
            lemma_all_roots(p, k);
        }
        let mut counts: Vec<usize> = Vec::new();
        let mut q: usize = 0;
        while q < n
            invariant
                q <= n,
                counts@.len() == q,
                forall|r: int| 0 <= r < q ==> #[trigger] counts@[r] == 0,
            decreases n - q,
        {
            counts.push(0);
            q = q + 1;
        }
        let mut i: usize = 0;
        while i < n
            invariant
                n == p.len(),
                parent@ == p,
                rank@ == k,
                links_ok(p, k),
                i <= n,
                counts@.len() == n,
                forall|r: int| 0 <= r < n ==> #[trigger] counts@[r] == class_count(p, k, r, i as int),
                forall|j: int|
                    #![trigger root_of(p, k, j)]
                    0 <= j < p.len() ==> 0 <= root_of(p, k, j) < p.len(),
            decreases n - i,
        {
            let mut r = i;
            while parent[r] != r
                invariant
                    parent@ == p,
                    rank@ == k,
                    links_ok(p, k),
                    n == p.len(),
                    r < n,
                    i < n,
                    root_of(p, k, r as int) == root_of(p, k, i as int),
                decreases n - k[r as int],
            {
                proof {
                    lemma_root(p, k, r as int);
                }
                r = parent[r];
            }
            proof {
                lemma_root(p, k, r as int);
                lemma_class_count_le(p, k, r as int, i as int);
            }
            let c = counts[r];
            counts.set(r, c + 1);
            proof {
                assert forall|x: int| 0 <= x < n implies #[trigger] counts@[x] == class_count(
                    p,
                    k,
                    x,
                    i + 1,
                ) by {
                    if x != r {
                        assert(root_of(p, k, i as int) != x);
                    }
                }
            }
            i = i + 1;
        }
        let mut r: usize = 0;
        while r < n
            invariant
                n == p.len(),
                parent@ == p,
                rank@ == k,
                links_ok(p, k),
                r <= n,
                counts@.len() == n,
                forall|x: int| 0 <= x < n ==> #[trigger] counts@[x] == class_count(p, k, x, n as int),
                forall|x: int|
                    0 <= x < r && #[trigger] root_of(p, k, x) == x ==> k[x] < class_count(p, k, x, n as int),
            decreases n - r,
        {
            proof {
                lemma_root(p, k, r as int);
            }
            if parent[r] == r && rank[r] >= counts[r] {
                proof {
                    assert(root_of(p, k, r as int) == r);
                    assert(!ranks_fit(p, k));
                }
                return None;
            }
            r = r + 1;
        }
        let uf = UnionFind { parent, rank };
        proof {
            assert(ranks_fit(p, k));
            assert(uf.wf());
        }
        Some(uf)
    }
}

} // verus!
