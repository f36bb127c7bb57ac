//! Clustering within cover intervals.
//!
//! Points that fall in the same cover interval are clustered by single
//! linkage: two points end up in the same cluster exactly when a chain of
//! points leads from one to the other in which each consecutive pair is
//! linked (lies within the distance threshold). Which pairs are linked is
//! given by a square boolean matrix over the data points.
//!
//! The clustering uses the iterative union-find of [`crate::union_find`].
use vstd::prelude::*;

use crate::grouping::{
    agree_on,
    class_leaders,
    class_members,
    group_by_class,
    is_equivalence,
    lemma_leader_exists,
    lemma_leaders_agree,
    lemma_leaders_basic,
    lemma_members_agree,
    lemma_members_contain,
    lemma_members_len,
};
use crate::linkage::{
    chained,
    is_chain,
    lemma_chain_refl,
    lemma_chain_step,
    lemma_chain_symm,
    lemma_chain_trans,
    linkage_fits,
    linked_pair,
};
pub use crate::union_find::UnionFind;

verus! {

/// Identifier for a cluster: (interval index, cluster index within the interval).
#[derive(Clone, Copy, Debug, PartialEq, Eq, Hash, Structural)]
pub struct ClusterID {
    pub interval: usize,
    pub cluster: usize,
}

impl ClusterID {
    pub fn new(interval: usize, cluster: usize) -> (id: Self)
        ensures
            id.interval == interval,
            id.cluster == cluster,
    {
        ClusterID { interval, cluster }
    }
}

/// The id of cluster `cluster` of interval `interval`.
pub open spec fn cluster_id(interval: usize, cluster: usize) -> ClusterID {
    ClusterID { interval, cluster }
}

/// Result of clustering within a single cover interval.
#[derive(Clone, Debug)]
pub struct IntervalClusters {
    /// Index of the cover interval.
    pub interval_index: usize,
    /// Clusters: each is a Vec of point indices.
    pub clusters: Vec<Vec<usize>>,
}

/// The contents of a list of clusters.
pub open spec fn clusters_view(clusters: Seq<Vec<usize>>) -> Seq<Seq<usize>> {
    clusters.map_values(|c: Vec<usize>| c@)
}

/// Single-linkage clusters of a point list: one cluster per class of
/// chained positions, clusters ordered by the first position of their class,
/// each listing the points of its class in position order.
pub open spec fn single_linkage_clusters(points: Seq<usize>, linked: Seq<Vec<bool>>) -> Seq<Seq<usize>> {
    group_by_class(points, chain_rel(points, linked), points.len() as int)
}

/// The chaining relation on positions, as a relation value.
pub open spec fn chain_rel(points: Seq<usize>, linked: Seq<Vec<bool>>) -> spec_fn(int, int) -> bool {
    |a: int, b: int| chained(points, linked, a, b)
}

/// The first position of each class of chained positions, in order.
pub open spec fn chain_leaders(points: Seq<usize>, linked: Seq<Vec<bool>>) -> Seq<int> {
    class_leaders(chain_rel(points, linked), points.len() as int)
}

/// Position of `x` in `v`, if any (the first one).
pub fn position_of(v: &Vec<usize>, x: usize) -> (res: Option<usize>)
    ensures
        match res {
            Some(k) => k < v@.len() && v@[k as int] == x && forall|t: int|
                0 <= t < k ==> #[trigger] v@[t] != x,
            None => forall|t: int| 0 <= t < v@.len() ==> #[trigger] v@[t] != x,
        },
{
    let mut m: usize = 0;
    while m < v.len()
        invariant
            m <= v@.len(),
            forall|t: int| 0 <= t < m ==> #[trigger] v@[t] != x,
        decreases v@.len() - m,
    {
        if v[m] == x {
            return Some(m);
        }
        m = m + 1;
    }
    None
}

/// A copy of a list of indices.
pub fn copy_indices(v: &[usize]) -> (res: Vec<usize>)
    ensures
        res@ == v@,
{
    let mut res: Vec<usize> = Vec::new();
    let mut i: usize = 0;
    while i < v.len()
        invariant
            i <= v@.len(),
            res@ == v@.subrange(0, i as int),
        decreases v@.len() - i,
    {
        res.push(v[i]);
        i = i + 1;
    }
    res
}

proof fn lemma_chain_joins(points: Seq<usize>, linked: Seq<Vec<bool>>, uf: UnionFind, path: Seq<int>, k: int)
    requires
        uf.wf(),
        uf.size() == points.len(),
        is_chain(points, linked, path),
        forall|x: int, y: int|
            #![trigger uf.root(x), uf.root(y)]
            0 <= x < y < points.len() && linked[points[x] as int]@[points[y] as int] ==> uf.root(x)
                == uf.root(y),
        0 <= k < path.len(),
    ensures
        uf.root(path[0]) == uf.root(path[k]),
    decreases k,
{
    if k > 0 {
        lemma_chain_joins(points, linked, uf, path, k - 1);
        assert(linked_pair(points, linked, path[k - 1], path[k]));
        assert(uf.root(path[k - 1]) == uf.root(path[k]));
    }
}

/// Cluster the points of one interval by single linkage.
///
/// Two positions of `points` are in the same cluster exactly when a chain of
/// linked positions joins them; see [`single_linkage_clusters`]. The
/// linkage matrix is read only when there are two or more points.
pub fn cluster_points(points: &[usize], linked: &Vec<Vec<bool>>) -> (clusters: Vec<Vec<usize>>)
    requires
        points@.len() >= 2 ==> linkage_fits(points@, linked@),
    ensures
        clusters_view(clusters@) == single_linkage_clusters(points@, linked@),
{
    let n = points.len();
    let ghost pts = points@;
    let ghost lk = linked@;
    if n == 0 {
        let clusters: Vec<Vec<usize>> = Vec::new();
        proof {
            lemma_clusters_empty_iff(pts, lk);
            assert(clusters_view(clusters@) =~= single_linkage_clusters(pts, lk));
        }
        return clusters;
    }
    if n == 1 {
        let mut clusters: Vec<Vec<usize>> = Vec::new();
        clusters.push(copy_indices(points));
        proof {
            let eq = chain_rel(pts, lk);
            lemma_chain_refl(pts, lk, 0);
            assert(eq(0, 0));
            assert(class_leaders(eq, 0) =~= Seq::<int>::empty());
            assert(class_leaders(eq, 1) =~= seq![0int]);
            assert(class_members(pts, eq, 0, 0) =~= Seq::<usize>::empty());
            assert(class_members(pts, eq, 0, 1) =~= seq![pts[0]]);
            assert(pts =~= seq![pts[0]]);
            assert(clusters_view(clusters@) =~= single_linkage_clusters(pts, lk));
        }
        return clusters;
    }
    let mut uf = UnionFind::new(n);
    proof {
        assert forall|a: int, b: int|
            #![trigger uf.root(a), uf.root(b)]
            0 <= a < n && 0 <= b < n && uf.root(a) == uf.root(b) implies chained(pts, lk, a, b) by {
            assert(uf.root(a) == a);
            assert(uf.root(b) == b);
            lemma_chain_refl(pts, lk, a);
        }
    }
    let mut i: usize = 0;
    while i < n
        invariant
            n == pts.len(),
            linkage_fits(pts, lk),
            points@ == pts,
            linked@ == lk,
            i <= n,
            uf.wf(),
            uf.size() == n,
            forall|a: int, b: int|
                #![trigger uf.root(a), uf.root(b)]
                0 <= a < n && 0 <= b < n && uf.root(a) == uf.root(b) ==> chained(pts, lk, a, b),
            forall|x: int, y: int|
                #![trigger uf.root(x), uf.root(y)]
                0 <= x < y < n && x < i && lk[pts[x] as int]@[pts[y] as int] ==> uf.root(x)
                    == uf.root(y),
        decreases n - i,
    {
        let mut j: usize = i + 1;
        while j < n
            invariant
                n == pts.len(),
                linkage_fits(pts, lk),
                points@ == pts,
                linked@ == lk,
                i < n,
                i + 1 <= j <= n,
                uf.wf(),
                uf.size() == n,
                forall|a: int, b: int|
                    #![trigger uf.root(a), uf.root(b)]
                    0 <= a < n && 0 <= b < n && uf.root(a) == uf.root(b) ==> chained(pts, lk, a, b),
                forall|x: int, y: int|
                    #![trigger uf.root(x), uf.root(y)]
                    0 <= x < y < n && (x < i || (x == i && y < j)) && lk[pts[x] as int]@[pts[y] as int]
                        ==> uf.root(x) == uf.root(y),
            decreases n - j,
        {
            if linked[points[i]][points[j]] {
                let ghost before = uf;
                uf.union(i, j);
                proof {
                    assert forall|a: int, b: int|
                        #![trigger uf.root(a), uf.root(b)]
                        0 <= a < n && 0 <= b < n && uf.root(a) == uf.root(b) implies chained(
                        pts,
                        lk,
                        a,
                        b,
                    ) by {
                        assert(uf.same_set(a, b));
                        lemma_chain_step(pts, lk, i as int, j as int);
                        if before.root(a) == before.root(b) {
                        } else if before.root(a) == before.root(i as int) && before.root(b)
                            == before.root(j as int) {
                            assert(chained(pts, lk, a, i as int));
                            assert(chained(pts, lk, b, j as int));
                            lemma_chain_symm(pts, lk, b, j as int);
                            lemma_chain_trans(pts, lk, a, i as int, j as int);
                            lemma_chain_trans(pts, lk, a, j as int, b);
                        } else {
                            assert(before.root(a) == before.root(j as int) && before.root(b)
                                == before.root(i as int));
                            assert(chained(pts, lk, a, j as int));
                            assert(chained(pts, lk, b, i as int));
                            lemma_chain_symm(pts, lk, b, i as int);
                            lemma_chain_symm(pts, lk, i as int, j as int);
                            lemma_chain_trans(pts, lk, a, j as int, i as int);
                            lemma_chain_trans(pts, lk, a, i as int, b);
                        }
                    }
                    assert forall|x: int, y: int|
                        #![trigger uf.root(x), uf.root(y)]
                        0 <= x < y < n && (x < i || (x == i && y < j + 1)) && lk[pts[x] as int]@[pts[y] as int]
                        implies uf.root(x) == uf.root(y) by {
                        if x == i && y == j {
                        } else {
                            assert(before.root(x) == before.root(y));
                            assert(uf.same_set(x, y));
                        }
                    }
                }
            }
            j = j + 1;
        }
        i = i + 1;
    }
    let ghost uf1 = uf;
    let ghost eqr = |a: int, b: int| uf1.root(a) == uf1.root(b);
    let ghost eqc = chain_rel(pts, lk);
    proof {
        uf1.lemma_roots();
        assert forall|a: int, b: int| 0 <= a < n && 0 <= b < n implies #[trigger] eqr(a, b) == eqc(
            a,
            b,
        ) by {
            if eqc(a, b) {
                let path = choose|path: Seq<int>|
                    #[trigger] is_chain(pts, lk, path) && path[0] == a && path[path.len() - 1] == b;
                lemma_chain_joins(pts, lk, uf1, path, path.len() - 1);
            }
            assert(uf1.root(a) == uf1.root(b) ==> chained(pts, lk, a, b));
        }
        assert(agree_on(eqr, eqc, n as int));
    }
    let mut labels: Vec<usize> = Vec::new();
    let mut i: usize = 0;
    while i < n
        invariant
            n == pts.len(),
            i <= n,
            uf.wf(),
            uf.size() == n,
            forall|j: int| 0 <= j < n ==> #[trigger] uf.root(j) == uf1.root(j),
            labels@.len() == i,
            forall|j: int| 0 <= j < i ==> #[trigger] labels@[j] == uf1.root(j),
        decreases n - i,
    {
        let r = uf.find(i);
        labels.push(r);
        i = i + 1;
    }
    let clusters = group_by_label(points, &labels);
    let ghost eql = |a: int, b: int| labels@[a] == labels@[b];
    proof {
        assert forall|a: int, b: int| 0 <= a < n && 0 <= b < n implies #[trigger] eql(a, b) == eqr(
            a,
            b,
        ) by {
            assert(labels@[a] == uf1.root(a));
            assert(labels@[b] == uf1.root(b));
        }
        assert(agree_on(eql, eqc, n as int));
    }
    proof {
        lemma_leaders_agree(eql, eqc, n as int);
        let l = class_leaders(eql, n as int);
        lemma_leaders_basic(eql, n as int);
        assert forall|m: int| 0 <= m < l.len() implies class_members(pts, eql, l[m], n as int)
            == class_members(pts, eqc, l[m], n as int) by {
            lemma_members_agree(pts, eql, eqc, l[m], n as int, n as int);
        }
        assert(clusters_view(clusters@) =~= single_linkage_clusters(pts, lk));
    }
    clusters
}

/// Group the positions of `points` by equal labels.
pub fn group_by_label(points: &[usize], labels: &Vec<usize>) -> (clusters: Vec<Vec<usize>>)
    requires
        points@.len() == labels@.len(),
    ensures
        clusters_view(clusters@) == group_by_class(
            points@,
            |a: int, b: int| labels@[a] == labels@[b],
            points@.len() as int,
        ),
{
    let n = points.len();
    let ghost pts = points@;
    let ghost eql = |a: int, b: int| labels@[a] == labels@[b];
    let mut reps: Vec<usize> = Vec::new();
    let mut clusters: Vec<Vec<usize>> = Vec::new();
    let mut i: usize = 0;
    while i < n
        invariant
            n == pts.len(),
            points@ == pts,
            labels@.len() == n,
            eql == (|a: int, b: int| labels@[a] == labels@[b]),
            i <= n,
            reps@.len() == class_leaders(eql, i as int).len(),
            clusters@.len() == class_leaders(eql, i as int).len(),
            forall|m: int|
                0 <= m < reps@.len() ==> #[trigger] reps@[m] == labels@[class_leaders(
                    eql,
                    i as int,
                )[m]],
            forall|m: int|
                0 <= m < clusters@.len() ==> #[trigger] clusters@[m]@ == class_members(
                    pts,
                    eql,
                    class_leaders(eql, i as int)[m],
                    i as int,
                ),
            forall|j: int| 0 <= j < i ==> #[trigger] reps@.contains(labels@[j]),
            forall|m1: int, m2: int|
                0 <= m1 < reps@.len() && 0 <= m2 < reps@.len() && m1 != m2 ==> #[trigger] reps@[m1]
                    != #[trigger] reps@[m2],
        decreases n - i,
    {
        let ghost li = class_leaders(eql, i as int);
        proof {
            lemma_leaders_basic(eql, i as int);
        }
        let r = labels[i];
        let found = position_of(&reps, r);
        match found {
            Some(k) => {
                let ghost lead = li[k as int];
                proof {
                    assert(eql(lead, i as int));
                    assert(!(forall|j: int| 0 <= j < i ==> !#[trigger] eql(j, i as int)));
                    assert(class_leaders(eql, i + 1) == li);
                }
                clusters[k].push(points[i]);
                proof {
                    assert forall|m: int| 0 <= m < clusters@.len() implies #[trigger] clusters@[m]@
                        == class_members(pts, eql, class_leaders(eql, i + 1)[m], i + 1) by {
                        if m != k {
                            assert(reps@[m] != r);
                            assert(!eql(li[m], i as int));
                        }
                    }
                    assert forall|j: int| 0 <= j < i + 1 implies #[trigger] reps@.contains(
                        labels@[j],
                    ) by {
                        if j == i {
                            assert(reps@[k as int] == labels@[j]);
                        }
                    }
                }
            },
            None => {
                proof {
                    assert forall|j: int| 0 <= j < i implies !#[trigger] eql(j, i as int) by {
                        assert(reps@.contains(labels@[j]));
                    }
                    assert(class_leaders(eql, i + 1) == li.push(i as int));
                    assert forall|j: int| 0 <= j < i implies !#[trigger] eql(i as int, j) by {
                        assert(!eql(j, i as int));
                    }
                    lemma_members_empty(pts, eql, i as int, i as int);
                }
                let ghost old_reps = reps@;
                reps.push(r);
                let mut c: Vec<usize> = Vec::new();
                c.push(points[i]);
                clusters.push(c);
                proof {
                    assert forall|m: int| 0 <= m < clusters@.len() implies #[trigger] clusters@[m]@
                        == class_members(pts, eql, class_leaders(eql, i + 1)[m], i + 1) by {
                        if m < li.len() {
                            assert(reps@[m] != r);
                            assert(!eql(li[m], i as int));
                        }
                    }
                    assert forall|j: int| 0 <= j < i + 1 implies #[trigger] reps@.contains(
                        labels@[j],
                    ) by {
                        if j == i {
                            assert(reps@[li.len() as int] == labels@[j]);
                        } else {
                            assert(old_reps.contains(labels@[j]));
                            let m = choose|m: int| 0 <= m < old_reps.len() && old_reps[m] == labels@[j];
                            assert(reps@[m] == labels@[j]);
                        }
                    }
                }
            },
        }
        i = i + 1;
    }
    proof {
        assert(clusters_view(clusters@) =~= group_by_class(pts, eql, n as int));
    }
    clusters
}

proof fn lemma_members_empty(points: Seq<usize>, eq: spec_fn(int, int) -> bool, lead: int, k: int)
    requires
        forall|j: int| 0 <= j < k ==> !#[trigger] eq(lead, j),
        0 <= k,
    ensures
        class_members(points, eq, lead, k) == Seq::<usize>::empty(),
    decreases k,
{
    if k > 0 {
        lemma_members_empty(points, eq, lead, k - 1);
        assert(!eq(lead, k - 1));
    }
}

} // verus!

verus! {

/// The entries of a cluster map: (cluster id, point indices), in insertion order.
pub type ClusterEntries = Seq<(ClusterID, Seq<usize>)>;

/// Index of the first entry with key `id`, or -1.
pub open spec fn key_index(s: ClusterEntries, id: ClusterID) -> int
    decreases s.len(),
{
    if s.len() == 0 {
        -1
    } else if key_index(s.drop_last(), id) >= 0 {
        key_index(s.drop_last(), id)
    } else if s.last().0 == id {
        s.len() - 1
    } else {
        -1
    }
}

/// The entries after inserting `pts` under `id`: an existing entry for `id`
/// keeps its place and takes the new points; otherwise the entry is appended.
pub open spec fn map_insert(s: ClusterEntries, id: ClusterID, pts: Seq<usize>) -> ClusterEntries {
    if key_index(s, id) >= 0 {
        s.update(key_index(s, id), (id, pts))
    } else {
        s.push((id, pts))
    }
}

/// No key occurs twice.
pub open spec fn keys_distinct(s: ClusterEntries) -> bool {
    forall|i: int, j: int| 0 <= i < j < s.len() ==> #[trigger] s[i].0 != #[trigger] s[j].0
}

/// `key_index` finds the first entry with the key, or gives -1 when none has it.
pub proof fn lemma_key_index(s: ClusterEntries, id: ClusterID)
    ensures
        key_index(s, id) < s.len(),
        key_index(s, id) >= 0 ==> s[key_index(s, id)].0 == id && forall|t: int|
            0 <= t < key_index(s, id) ==> #[trigger] s[t].0 != id,
        key_index(s, id) < 0 ==> key_index(s, id) == -1 && forall|t: int|
            0 <= t < s.len() ==> #[trigger] s[t].0 != id,
    decreases s.len(),
{
    if s.len() > 0 {
        lemma_key_index(s.drop_last(), id);
        let d = s.drop_last();
        assert forall|t: int| 0 <= t < d.len() implies d[t] == s[t] by {}
    }
}

/// Inserting keeps the keys of the entry list distinct.
pub proof fn lemma_map_insert_distinct(s: ClusterEntries, id: ClusterID, pts: Seq<usize>)
    requires
        keys_distinct(s),
    ensures
        keys_distinct(map_insert(s, id, pts)),
{
    lemma_key_index(s, id);
    let r = map_insert(s, id, pts);
    assert forall|i: int, j: int| 0 <= i < j < r.len() implies #[trigger] r[i].0 != #[trigger] r[j].0 by {
        if key_index(s, id) >= 0 {
            assert(r[i].0 == s[i].0);
            assert(r[j].0 == s[j].0);
        } else if j == s.len() {
            assert(r[i].0 == s[i].0);
        } else {
            assert(r[i].0 == s[i].0);
            assert(r[j].0 == s[j].0);
        }
    }
}

/// Map from cluster id to the point indices of that cluster, keeping the
/// order in which ids were first inserted.
#[derive(Debug)]
pub struct ClusterMap {
    entries: Vec<(ClusterID, Vec<usize>)>,
}

impl ClusterMap {
    /// The entries, in insertion order.
    pub closed spec fn view(&self) -> ClusterEntries {
        self.entries@.map_values(|e: (ClusterID, Vec<usize>)| (e.0, e.1@))
    }

    /// An empty map.
    pub fn new() -> (m: Self)
        ensures
            m@ == Seq::<(ClusterID, Seq<usize>)>::empty(),
    {
        let m = ClusterMap { entries: Vec::new() };
        proof {
            assert(m@ =~= Seq::<(ClusterID, Seq<usize>)>::empty());
        }
        m
    }

    /// No id occurs twice among the entries.
    #[verifier::type_invariant]
    spec fn keys_unique(self) -> bool {
        keys_distinct(self@)
    }

    /// Insert `points` under `id`; returns the points previously stored there.
    pub fn insert(&mut self, id: ClusterID, points: Vec<usize>) -> (prev: Option<Vec<usize>>)
        ensures
            final(self)@ == map_insert(old(self)@, id, points@),
            keys_distinct(final(self)@),
            match prev {
                Some(p) => key_index(old(self)@, id) >= 0 && p@ == old(self)@[key_index(
                    old(self)@,
                    id,
                )].1,
                None => key_index(old(self)@, id) < 0,
            },
    {
        proof {
            use_type_invariant(&*self);
            lemma_key_index(self@, id);
            lemma_map_insert_distinct(self@, id, points@);
        }
        let ghost old_v = self@;
        let mut ents: Vec<(ClusterID, Vec<usize>)> = Vec::new();
        std::mem::swap(&mut ents, &mut self.entries);
        let ghost ev = ents@.map_values(|e: (ClusterID, Vec<usize>)| (e.0, e.1@));
        proof {
            assert(ev == old_v);
        }
        let n = ents.len();
        let mut k: usize = 0;
        while k < n
            invariant
                n == ents@.len(),
                ents@.map_values(|e: (ClusterID, Vec<usize>)| (e.0, e.1@)) == old_v,
                old(self)@ == old_v,
                keys_distinct(map_insert(old_v, id, points@)),
                k <= n,
                forall|t: int| 0 <= t < k ==> #[trigger] old_v[t].0 != id,
            decreases n - k,
        {
            if ents[k].0 == id {
                proof {
                    assert(old_v[k as int].0 == ents@[k as int].0);
                    assert(old_v[k as int].0 == id);
                    lemma_key_index(old_v, id);
                    let ki = key_index(old_v, id);
                    if ki < 0 {
                        assert(old_v[k as int].0 != id);
                    } else if ki < k {
                        assert(old_v[ki].0 != id);
                    } else if ki > k {
                        assert(old_v[k as int].0 != id);
                    }
                }
                let ghost before = ents@;
                let removed = ents.remove(k);
                let old_points = removed.1;
                proof {
                    assert(old_points@ == old_v[k as int].1);
                }
                ents.insert(k, (id, points));
                proof {
                    assert(ents@ == before.update(k as int, (id, points)));
                    assert(ents@.map_values(|e: (ClusterID, Vec<usize>)| (e.0, e.1@)) =~= map_insert(
                        old_v,
                        id,
                        points@,
                    ));
                }
                self.entries = ents;
                return Some(old_points);
            }
            proof {
                assert(old_v[k as int].0 == ents@[k as int].0);
            }
            k = k + 1;
        }
        ents.push((id, points));
        proof {
            assert(ents@.map_values(|e: (ClusterID, Vec<usize>)| (e.0, e.1@)) =~= map_insert(
                old_v,
                id,
                points@,
            ));
        }
        self.entries = ents;
        None
    }

    /// Number of entries.
    pub fn len(&self) -> (n: usize)
        ensures
            n == self@.len(),
            keys_distinct(self@),
    {
        proof {
            use_type_invariant(self);
        }
        self.entries.len()
    }

    /// Whether the map is empty.
    pub fn is_empty(&self) -> (b: bool)
        ensures
            b == (self@.len() == 0),
            keys_distinct(self@),
    {
        proof {
            use_type_invariant(self);
        }
        self.entries.len() == 0
    }

    /// All entries, in insertion order.
    pub fn entries(&self) -> (e: &Vec<(ClusterID, Vec<usize>)>)
        ensures
            e@.map_values(|x: (ClusterID, Vec<usize>)| (x.0, x.1@)) == self@,
            keys_distinct(self@),
    {
        proof {
            use_type_invariant(self);
        }
        &self.entries
    }

    /// The points stored under `id`, if any.
    pub fn get(&self, id: &ClusterID) -> (r: Option<&Vec<usize>>)
        ensures
            match r {
                Some(p) => key_index(self@, *id) >= 0 && p@ == self@[key_index(self@, *id)].1,
                None => key_index(self@, *id) < 0,
            },
            keys_distinct(self@),
    {
        proof {
            use_type_invariant(self);
            lemma_key_index(self@, *id);
        }
        let n = self.entries.len();
        let mut k: usize = 0;
        while k < n
            invariant
                n == self.entries@.len(),
                k <= n,
                keys_distinct(self@),
                forall|t: int| 0 <= t < k ==> #[trigger] self@[t].0 != *id,
            decreases n - k,
        {
            if self.entries[k].0 == *id {
                proof {
                    assert(self@[k as int].0 == self.entries@[k as int].0);
                    assert(self@[k as int].0 == *id);
                    lemma_key_index(self@, *id);
                    let ki = key_index(self@, *id);
                    if ki < 0 {
                        assert(self@[k as int].0 != *id);
                    } else if ki < k {
                        assert(self@[ki].0 != *id);
                    } else if ki > k {
                        assert(self@[k as int].0 != *id);
                    }
                }
                proof {
                    assert(self@[k as int].1 == self.entries@[k as int].1@);
                }
                return Some(&self.entries[k].1);
            }
            proof {
                assert(self@[k as int].0 == self.entries@[k as int].0);
            }
            k = k + 1;
        }
        None
    }
}

} // verus!

verus! {

/// Contents of clustering results: (interval index, clusters).
pub open spec fn interval_clusters_view(ics: Seq<IntervalClusters>) -> Seq<(usize, Seq<Seq<usize>>)> {
    ics.map_values(|ic: IntervalClusters| (ic.interval_index, clusters_view(ic.clusters@)))
}

/// Clustering of the first `k` intervals: one entry per non-empty interval,
/// in interval order.
pub open spec fn all_interval_clusters(sets: Seq<Vec<usize>>, linked: Seq<Vec<bool>>, k: int) -> Seq<(usize, Seq<Seq<usize>>)>
    decreases k,
{
    if k <= 0 {
        seq![]
    } else if sets[k - 1]@.len() > 0 {
        all_interval_clusters(sets, linked, k - 1).push(
            ((k - 1) as usize, single_linkage_clusters(sets[k - 1]@, linked)),
        )
    } else {
        all_interval_clusters(sets, linked, k - 1)
    }
}

/// An interval has no clusters exactly when it has no points.
pub proof fn lemma_clusters_empty_iff(points: Seq<usize>, linked: Seq<Vec<bool>>)
    ensures
        (single_linkage_clusters(points, linked).len() == 0) == (points.len() == 0),
{
    let eq = chain_rel(points, linked);
    if points.len() > 0 {
        lemma_leaders_nonempty(eq, points.len() as int);
    }
}

proof fn lemma_leaders_nonempty(eq: spec_fn(int, int) -> bool, k: int)
    requires
        k >= 1,
    ensures
        class_leaders(eq, k).len() >= 1,
    decreases k,
{
    if k > 1 {
        lemma_leaders_nonempty(eq, k - 1);
    }
}

/// Cluster the points of every interval; intervals without points yield no
/// entry. The linkage matrix is read only for intervals of two or more points.
pub fn cluster_all_intervals(interval_point_sets: &[Vec<usize>], linked: &Vec<Vec<bool>>) -> (res: Vec<IntervalClusters>)
    requires
        forall|k: int|
            0 <= k < interval_point_sets@.len() && interval_point_sets@[k]@.len() >= 2 ==> linkage_fits(
                #[trigger] interval_point_sets@[k]@,
                linked@,
            ),
    ensures
        interval_clusters_view(res@) == all_interval_clusters(
            interval_point_sets@,
            linked@,
            interval_point_sets@.len() as int,
        ),
{
    let mut res: Vec<IntervalClusters> = Vec::new();
    let mut k: usize = 0;
    while k < interval_point_sets.len()
        invariant
            k <= interval_point_sets@.len(),
            forall|q: int|
                0 <= q < interval_point_sets@.len() && interval_point_sets@[q]@.len() >= 2 ==> linkage_fits(
                    #[trigger] interval_point_sets@[q]@,
                    linked@,
                ),
            interval_clusters_view(res@) == all_interval_clusters(
                interval_point_sets@,
                linked@,
                k as int,
            ),
        decreases interval_point_sets@.len() - k,
    {
        let clusters = cluster_points(interval_point_sets[k].as_slice(), linked);
        proof {
            lemma_clusters_empty_iff(interval_point_sets@[k as int]@, linked@);
        }
        if clusters.len() > 0 {
            res.push(IntervalClusters { interval_index: k, clusters });
        }
        proof {
            assert(interval_clusters_view(res@) =~= all_interval_clusters(
                interval_point_sets@,
                linked@,
                k + 1,
            ));
        }
        k = k + 1;
    }
    res
}

/// Entries after inserting the first `c` clusters of one interval.
pub open spec fn insert_interval(m: ClusterEntries, interval: usize, clusters: Seq<Seq<usize>>, c: int) -> ClusterEntries
    decreases c,
{
    if c <= 0 {
        m
    } else {
        map_insert(
            insert_interval(m, interval, clusters, c - 1),
            ClusterID { interval, cluster: (c - 1) as usize },
            clusters[c - 1],
        )
    }
}

/// Entries of the cluster map built from the first `k` clustering results.
pub open spec fn cluster_map_entries(all: Seq<(usize, Seq<Seq<usize>>)>, k: int) -> ClusterEntries
    decreases k,
{
    if k <= 0 {
        seq![]
    } else {
        insert_interval(cluster_map_entries(all, k - 1), all[k - 1].0, all[k - 1].1, all[k - 1].1.len() as int)
    }
}

/// Build the map from `ClusterID` (interval index, position of the cluster in
/// that interval's list) to the points of that cluster.
pub fn build_cluster_map(all_clusters: &[IntervalClusters]) -> (map: ClusterMap)
    ensures
        map@ == cluster_map_entries(
            interval_clusters_view(all_clusters@),
            all_clusters@.len() as int,
        ),
        keys_distinct(map@),
{
    let ghost all = interval_clusters_view(all_clusters@);
    let mut map = ClusterMap::new();
    let mut k: usize = 0;
    while k < all_clusters.len()
        invariant
            k <= all_clusters@.len(),
            all == interval_clusters_view(all_clusters@),
            map@ == cluster_map_entries(all, k as int),
            keys_distinct(map@),
        decreases all_clusters@.len() - k,
    {
        let ic = &all_clusters[k];
        let ghost before = map@;
        let mut c: usize = 0;
        while c < ic.clusters.len()
            invariant
                k < all_clusters@.len(),
                *ic == all_clusters@[k as int],
                all == interval_clusters_view(all_clusters@),
                c <= ic.clusters@.len(),
                map@ == insert_interval(before, all[k as int].0, all[k as int].1, c as int),
                keys_distinct(map@),
            decreases ic.clusters@.len() - c,
        {
            let points = copy_indices(ic.clusters[c].as_slice());
            let id = ClusterID::new(ic.interval_index, c);
            proof {
                assert(all[k as int].1[c as int] == ic.clusters@[c as int]@);
            }
            map.insert(id, points);
            c = c + 1;
        }
        k = k + 1;
    }
    map
}

} // verus!

verus! {

/// Chaining is an equivalence relation on the positions of a point list.
pub proof fn lemma_chained_equivalence(points: Seq<usize>, linked: Seq<Vec<bool>>)
    ensures
        is_equivalence(chain_rel(points, linked), points.len() as int),
{
    let eq = chain_rel(points, linked);
    let n = points.len() as int;
    assert forall|i: int| 0 <= i < n implies #[trigger] eq(i, i) by {
        lemma_chain_refl(points, linked, i);
    }
    assert forall|i: int, j: int| 0 <= i < n && 0 <= j < n && #[trigger] eq(i, j) implies eq(j, i) by {
        lemma_chain_symm(points, linked, i, j);
    }
    assert forall|i: int, j: int, l: int|
        0 <= i < n && 0 <= j < n && 0 <= l < n && #[trigger] eq(i, j) && #[trigger] eq(j, l) implies eq(
        i,
        l,
    ) by {
        lemma_chain_trans(points, linked, i, j, l);
    }
}

/// The cluster that position `i` falls into.
pub open spec fn cluster_index_of(points: Seq<usize>, linked: Seq<Vec<bool>>, i: int) -> int {
    choose|m: int|
        0 <= m < chain_leaders(points, linked).len() && #[trigger] chained(
            points,
            linked,
            chain_leaders(points, linked)[m],
            i,
        )
}

/// Single linkage: every position falls into exactly one cluster, which holds
/// its point; two positions fall into the same cluster exactly when a chain
/// of linked positions joins them; no cluster is empty.
pub proof fn lemma_single_linkage(points: Seq<usize>, linked: Seq<Vec<bool>>)
    ensures
        forall|i: int|
            0 <= i < points.len() ==> {
                let m = #[trigger] cluster_index_of(points, linked, i);
                &&& 0 <= m < single_linkage_clusters(points, linked).len()
                &&& single_linkage_clusters(points, linked)[m].contains(points[i])
            },
        forall|i: int, j: int|
            0 <= i < points.len() && 0 <= j < points.len() ==> (#[trigger] cluster_index_of(
                points,
                linked,
                i,
            ) == #[trigger] cluster_index_of(points, linked, j) <==> chained(points, linked, i, j)),
        forall|m: int|
            0 <= m < single_linkage_clusters(points, linked).len() ==> #[trigger] single_linkage_clusters(
                points,
                linked,
            )[m].len() > 0,
{
    let eq = chain_rel(points, linked);
    let n = points.len() as int;
    let l = class_leaders(eq, n);
    assert(l == chain_leaders(points, linked));
    lemma_chained_equivalence(points, linked);
    lemma_leaders_basic(eq, n);
    assert forall|i: int| 0 <= i < n implies {
        let m = #[trigger] cluster_index_of(points, linked, i);
        &&& 0 <= m < l.len()
        &&& eq(l[m], i)
    } by {
        lemma_leader_exists(eq, n, n, i);
    }
    assert forall|i: int| 0 <= i < n implies {
        let m = #[trigger] cluster_index_of(points, linked, i);
        &&& 0 <= m < single_linkage_clusters(points, linked).len()
        &&& single_linkage_clusters(points, linked)[m].contains(points[i])
    } by {
        let m = cluster_index_of(points, linked, i);
        lemma_members_contain(points, eq, l[m], n, i);
    }
    assert forall|i: int, j: int| 0 <= i < n && 0 <= j < n implies (#[trigger] cluster_index_of(
        points,
        linked,
        i,
    ) == #[trigger] cluster_index_of(points, linked, j) <==> chained(points, linked, i, j)) by {
        let mi = cluster_index_of(points, linked, i);
        let mj = cluster_index_of(points, linked, j);
        assert(eq(l[mi], i));
        assert(eq(l[mj], j));
        if mi == mj {
            assert(eq(i, l[mi]));
            assert(eq(i, j));
        }
        if eq(i, j) {
            assert(eq(l[mi], j));
            assert(eq(j, l[mj]));
            assert(eq(l[mi], l[mj]));
            if mi < mj {
                assert(!eq(l[mi], l[mj]));
            } else if mj < mi {
                assert(eq(l[mj], l[mi]));
                assert(!eq(l[mj], l[mi]));
            }
        }
    }
    assert forall|m: int| 0 <= m < l.len() implies #[trigger] single_linkage_clusters(points, linked)[m].len()
        > 0 by {
        lemma_members_len(points, eq, l[m], n);
    }
}

} // verus!

verus! {

/// Inserting leaves the positions of all keys unchanged, except that a new
/// key goes to the end.
proof fn lemma_map_insert_keys(s: ClusterEntries, id: ClusterID, pts: Seq<usize>)
    ensures
        map_insert(s, id, pts).len() == if key_index(s, id) >= 0 {
            s.len()
        } else {
            s.len() + 1
        },
        forall|t: int| 0 <= t < s.len() ==> #[trigger] map_insert(s, id, pts)[t].0 == s[t].0,
        key_index(s, id) < 0 ==> map_insert(s, id, pts)[s.len() as int] == (id, pts),
        key_index(s, id) >= 0 ==> map_insert(s, id, pts)[key_index(s, id)] == (id, pts),
        forall|t: int|
            0 <= t < s.len() && t != key_index(s, id) ==> #[trigger] map_insert(s, id, pts)[t] == s[t],
{
    lemma_key_index(s, id);
}

/// Reading a map after an insert: the inserted key gives the inserted
/// points; every other key keeps its position and its points.
pub proof fn lemma_map_insert_read(s: ClusterEntries, id: ClusterID, pts: Seq<usize>, other: ClusterID)
    ensures
        key_index(map_insert(s, id, pts), id) >= 0,
        map_insert(s, id, pts)[key_index(map_insert(s, id, pts), id)].1 == pts,
        other != id ==> key_index(map_insert(s, id, pts), other) == key_index(s, other),
        other != id && key_index(s, other) >= 0 ==> map_insert(s, id, pts)[key_index(
            s,
            other,
        )].1 == s[key_index(s, other)].1,
{
    let r = map_insert(s, id, pts);
    lemma_key_index(s, id);
    lemma_key_index(s, other);
    lemma_key_index(r, id);
    lemma_key_index(r, other);
    lemma_map_insert_keys(s, id, pts);
    let ki = key_index(s, id);
    let kr = key_index(r, id);
    if ki >= 0 {
        assert(r[ki].0 == id);
        if kr < ki {
            assert(r[kr].0 == s[kr].0);
        }
    } else {
        assert(r[s.len() as int].0 == id);
        if kr < s.len() {
            assert(r[kr].0 == s[kr].0);
        }
    }
    if other != id {
        let ko = key_index(s, other);
        let kro = key_index(r, other);
        if ko >= 0 {
            assert(r[ko].0 == other);
            if kro < ko {
                assert(r[kro].0 == s[kro].0);
            }
        } else {
            if kro >= 0 {
                if kro < s.len() {
                    assert(r[kro].0 == s[kro].0);
                } else {
                    assert(r[kro].0 == id);
                }
            }
        }
    }
}

/// Inserting the first `c` clusters of an interval leaves untouched every key
/// that none of these inserts uses.
proof fn lemma_insert_interval_keeps(m: ClusterEntries, interval: usize, clusters: Seq<Seq<usize>>, c: int, other: ClusterID)
    requires
        other.interval != interval || other.cluster >= c,
    ensures
        key_index(insert_interval(m, interval, clusters, c), other) == key_index(m, other),
        key_index(m, other) >= 0 ==> insert_interval(m, interval, clusters, c)[key_index(
            m,
            other,
        )].1 == m[key_index(m, other)].1,
    decreases c,
{
    if c > 0 {
        lemma_insert_interval_keeps(m, interval, clusters, c - 1, other);
        let prev = insert_interval(m, interval, clusters, c - 1);
        let id = ClusterID { interval, cluster: (c - 1) as usize };
        assert(other != id);
        lemma_map_insert_read(prev, id, clusters[c - 1], other);
    }
}

/// After inserting the first `c` clusters of an interval, cluster `c0 < c`
/// is stored under its id.
proof fn lemma_insert_interval_has(m: ClusterEntries, interval: usize, clusters: Seq<Seq<usize>>, c: int, c0: int)
    requires
        0 <= c0 < c,
        c <= usize::MAX + 1,
    ensures
        key_index(insert_interval(m, interval, clusters, c), cluster_id(interval, c0 as usize)) >= 0,
        insert_interval(m, interval, clusters, c)[key_index(
            insert_interval(m, interval, clusters, c),
            cluster_id(interval, c0 as usize),
        )].1 == clusters[c0],
    decreases c,
{
    let id0 = cluster_id(interval, c0 as usize);
    let prev = insert_interval(m, interval, clusters, c - 1);
    let id = ClusterID { interval, cluster: (c - 1) as usize };
    if c0 == c - 1 {
        lemma_map_insert_read(prev, id, clusters[c - 1], id0);
    } else {
        lemma_insert_interval_has(m, interval, clusters, c - 1, c0);
        assert(id0 != id);
        lemma_map_insert_read(prev, id, clusters[c - 1], id0);
    }
}

/// Interval indices of the clustering results are increasing and below `k`;
/// every non-empty interval has its entry.
proof fn lemma_all_interval_clusters(sets: Seq<Vec<usize>>, linked: Seq<Vec<bool>>, k: int)
    requires
        0 <= k <= sets.len(),
        k <= usize::MAX + 1,
    ensures
        forall|j: int|
            0 <= j < all_interval_clusters(sets, linked, k).len() ==> #[trigger] all_interval_clusters(
                sets,
                linked,
                k,
            )[j].0 < k,
        forall|i: int, j: int|
            0 <= i < j < all_interval_clusters(sets, linked, k).len() ==> #[trigger] all_interval_clusters(
                sets,
                linked,
                k,
            )[i].0 < #[trigger] all_interval_clusters(sets, linked, k)[j].0,
        forall|q: int|
            0 <= q < k && #[trigger] sets[q]@.len() > 0 ==> exists|j: int|
                0 <= j < all_interval_clusters(sets, linked, k).len() && #[trigger] all_interval_clusters(
                    sets,
                    linked,
                    k,
                )[j] == (q as usize, single_linkage_clusters(sets[q]@, linked)),
    decreases k,
{
    if k > 0 {
        lemma_all_interval_clusters(sets, linked, k - 1);
        let prev = all_interval_clusters(sets, linked, k - 1);
        let cur = all_interval_clusters(sets, linked, k);
        assert forall|q: int| 0 <= q < k && #[trigger] sets[q]@.len() > 0 implies exists|j: int|
            0 <= j < cur.len() && #[trigger] cur[j] == (q as usize, single_linkage_clusters(sets[q]@, linked)) by {
            if q < k - 1 {
                let j = choose|j: int|
                    0 <= j < prev.len() && #[trigger] prev[j] == (q as usize, single_linkage_clusters(
                        sets[q]@,
                        linked,
                    ));
                assert(cur[j] == prev[j]);
            } else {
                assert(cur[prev.len() as int] == (q as usize, single_linkage_clusters(sets[q]@, linked)));
            }
        }
    }
}

/// With increasing interval indices, the cluster map built from the first `k`
/// results holds every cluster of them under (interval index, position).
proof fn lemma_map_holds_clusters(all: Seq<(usize, Seq<Seq<usize>>)>, k: int, j: int, c: int)
    requires
        0 <= j < k <= all.len(),
        0 <= c < all[j].1.len(),
        all[j].1.len() <= usize::MAX,
        forall|a: int, b: int| 0 <= a < b < all.len() ==> #[trigger] all[a].0 < #[trigger] all[b].0,
    ensures
        key_index(cluster_map_entries(all, k), cluster_id(all[j].0, c as usize))
            >= 0,
        cluster_map_entries(all, k)[key_index(
            cluster_map_entries(all, k),
            cluster_id(all[j].0, c as usize),
        )].1 == all[j].1[c],
    decreases k,
{
    let id = cluster_id(all[j].0, c as usize);
    let prev = cluster_map_entries(all, k - 1);
    if j == k - 1 {
        lemma_insert_interval_has(prev, all[j].0, all[j].1, all[j].1.len() as int, c);
    } else {
        lemma_map_holds_clusters(all, k - 1, j, c);
        assert(all[j].0 < all[k - 1].0);
        lemma_insert_interval_keeps(prev, all[k - 1].0, all[k - 1].1, all[k - 1].1.len() as int, id);
    }
}

/// Full coverage: every point listed in an interval is a member of some
/// cluster of the map built by `build_cluster_map(&cluster_all_intervals(..))`.
pub proof fn lemma_interval_points_in_clusters(sets: Seq<Vec<usize>>, linked: Seq<Vec<bool>>, q: int, t: int)
    requires
        0 <= q < sets.len(),
        0 <= t < sets[q]@.len(),
        sets.len() <= usize::MAX,
        sets[q]@.len() <= usize::MAX,
    ensures
        exists|e: int|
            0 <= e < cluster_map_entries(
                all_interval_clusters(sets, linked, sets.len() as int),
                all_interval_clusters(sets, linked, sets.len() as int).len() as int,
            ).len() && (#[trigger] cluster_map_entries(
                all_interval_clusters(sets, linked, sets.len() as int),
                all_interval_clusters(sets, linked, sets.len() as int).len() as int,
            )[e]).1.contains(sets[q]@[t]),
{
    let n = sets.len() as int;
    let all = all_interval_clusters(sets, linked, n);
    lemma_all_interval_clusters(sets, linked, n);
    assert(sets[q]@.len() > 0);
    let j = choose|j: int|
        0 <= j < all.len() && #[trigger] all[j] == (q as usize, single_linkage_clusters(sets[q]@, linked));
    lemma_single_linkage(sets[q]@, linked);
    let c = cluster_index_of(sets[q]@, linked, t);
    assert(single_linkage_clusters(sets[q]@, linked).len() <= sets[q]@.len()) by {
        lemma_leaders_basic(chain_rel(sets[q]@, linked), sets[q]@.len() as int);
    }
    lemma_map_holds_clusters(all, all.len() as int, j, c);
    let m = cluster_map_entries(all, all.len() as int);
    let e = key_index(m, cluster_id(all[j].0, c as usize));
    lemma_key_index(m, cluster_id(all[j].0, c as usize));
    assert(0 <= e < m.len());
    assert(all[j].1[c] == single_linkage_clusters(sets[q]@, linked)[c]);
    assert(m[e].1.contains(sets[q]@[t]));
}

} // verus!
