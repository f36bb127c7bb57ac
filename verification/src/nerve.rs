//! Nerve construction for the Mapper algorithm.
//!
//! The nerve of a cover is a simplicial complex where:
//! - Each cluster becomes a vertex.
//! - Clusters that share a data point span a simplex: for every point, the
//!   set of vertices whose clusters contain it, with all of its faces of two
//!   or more vertices. The result is closed under faces.
//!
//! Simplices are listed by size, then lexicographically, each once.
use vstd::prelude::*;

use crate::cluster::{
    all_interval_clusters, cluster_map_entries, lemma_interval_points_in_clusters, ClusterEntries,
    ClusterID, ClusterMap, copy_indices, keys_distinct,
};
use crate::simplex_order::{simplices_view, sort_simplices, sorted_simplices};

verus! {

/// Metadata for a vertex in the nerve complex.
#[derive(Clone, Debug)]
pub struct VertexInfo {
    /// The cluster this vertex represents.
    pub cluster_id: ClusterID,
    /// Data point indices belonging to this cluster.
    pub point_indices: Vec<usize>,
}

/// A simplicial complex: vertices and simplices of two or more vertices.
#[derive(Clone, Debug)]
pub struct SimplicialComplex {
    /// Vertices, indexed by position.
    pub vertices: Vec<VertexInfo>,
    /// Simplices: each is a strictly increasing list of vertex indices.
    pub simplices: Vec<Vec<usize>>,
}

/// The (cluster id, points) pairs of a list of vertices.
pub open spec fn vertices_view(vs: Seq<VertexInfo>) -> ClusterEntries {
    vs.map_values(|v: VertexInfo| (v.cluster_id, v.point_indices@))
}

/// The point lists of a list of cluster entries.
pub open spec fn entry_points(es: ClusterEntries) -> Seq<Seq<usize>> {
    es.map_values(|e: (ClusterID, Seq<usize>)| e.1)
}

/// The vertices among `0..k` whose clusters contain point `p`, in increasing order.
pub open spec fn sharing(vps: Seq<Seq<usize>>, p: usize, k: int) -> Seq<usize>
    decreases k,
{
    if k <= 0 {
        seq![]
    } else if vps[k - 1].contains(p) {
        sharing(vps, p, k - 1).push((k - 1) as usize)
    } else {
        sharing(vps, p, k - 1)
    }
}

pub open spec fn strictly_increasing(s: Seq<usize>) -> bool {
    forall|i: int, j: int| 0 <= i < j < s.len() ==> #[trigger] s[i] < #[trigger] s[j]
}

/// `s` is a simplex contributed by the vertex set `vp` of one shared point:
/// a strictly increasing selection of two or more of its vertices.
pub open spec fn is_face(s: Seq<usize>, vp: Seq<usize>) -> bool {
    &&& s.len() >= 2
    &&& vp.len() >= 2
    &&& strictly_increasing(s)
    &&& forall|i: int| 0 <= i < s.len() ==> vp.contains(#[trigger] s[i])
}

/// `s` is a simplex of the nerve of the clusters `vps`.
pub open spec fn nerve_simplex(vps: Seq<Seq<usize>>, s: Seq<usize>) -> bool {
    exists|p: usize| #[trigger] is_face(s, sharing(vps, p, vps.len() as int))
}

/// The clusters sharing a point are listed in increasing order, and a
/// cluster is listed exactly when it holds the point.
pub proof fn lemma_sharing(vps: Seq<Seq<usize>>, p: usize, k: int)
    requires
        0 <= k <= vps.len(),
        k <= usize::MAX + 1,
    ensures
        strictly_increasing(sharing(vps, p, k)),
        forall|i: int|
            0 <= i < sharing(vps, p, k).len() ==> #[trigger] sharing(vps, p, k)[i] < k,
        forall|v: int|
            0 <= v < k ==> (sharing(vps, p, k).contains(v as usize) <==> #[trigger] vps[v].contains(
                p,
            )),
    decreases k,
{
    if k > 0 {
        lemma_sharing(vps, p, k - 1);
        let prev = sharing(vps, p, k - 1);
        let cur = sharing(vps, p, k);
        assert forall|v: int| 0 <= v < k implies (cur.contains(v as usize)
            <==> #[trigger] vps[v].contains(p)) by {
            if v < k - 1 {
                if prev.contains(v as usize) {
                    let t = choose|t: int| 0 <= t < prev.len() && prev[t] == v as usize;
                    assert(cur[t] == v as usize);
                }
                if cur.contains(v as usize) {
                    let t = choose|t: int| 0 <= t < cur.len() && cur[t] == v as usize;
                    if t < prev.len() {
                        assert(prev[t] == v as usize);
                    }
                }
            } else {
                if vps[v].contains(p) {
                    assert(cur[cur.len() - 1] == v as usize);
                }
                if cur.contains(v as usize) {
                    let t = choose|t: int| 0 <= t < cur.len() && cur[t] == v as usize;
                    if t < prev.len() {
                        assert(prev[t] == v as usize);
                    }
                }
            }
        }
    }
}

/// Whether `x` occurs in `v`.
pub fn contains_index(v: &Vec<usize>, x: usize) -> (r: bool)
    ensures
        r == v@.contains(x),
{
    let mut i: usize = 0;
    while i < v.len()
        invariant
            i <= v@.len(),
            forall|t: int| 0 <= t < i ==> #[trigger] v@[t] != x,
        decreases v@.len() - i,
    {
        if v[i] == x {
            return true;
        }
        i = i + 1;
    }
    false
}

/// The vertices whose clusters contain point `p`, in increasing order.
pub fn sharing_vertices(vertices: &Vec<VertexInfo>, p: usize) -> (vp: Vec<usize>)
    ensures
        vp@ == sharing(entry_points(vertices_view(vertices@)), p, vertices@.len() as int),
{
    let ghost vps = entry_points(vertices_view(vertices@));
    let mut vp: Vec<usize> = Vec::new();
    let mut v: usize = 0;
    while v < vertices.len()
        invariant
            v <= vertices@.len(),
            vps == entry_points(vertices_view(vertices@)),
            vp@ == sharing(vps, p, v as int),
        decreases vertices@.len() - v,
    {
        proof {
            assert(vps[v as int] == vertices@[v as int].point_indices@);
        }
        if contains_index(&vertices[v].point_indices, p) {
            vp.push(v);
        }
        v = v + 1;
    }
    vp
}

/// `s` is strictly increasing and draws its entries from `vp[0..i]`.
pub open spec fn subset_upto(s: Seq<usize>, vp: Seq<usize>, i: int) -> bool {
    &&& strictly_increasing(s)
    &&& forall|k: int| 0 <= k < s.len() ==> vp.subrange(0, i).contains(#[trigger] s[k])
}

/// All strictly increasing selections from a strictly increasing list.
pub fn all_subsets(vp: &Vec<usize>) -> (subs: Vec<Vec<usize>>)
    requires
        strictly_increasing(vp@),
    ensures
        forall|s: Seq<usize>|
            #[trigger] simplices_view(subs@).contains(s) <==> subset_upto(s, vp@, vp@.len() as int),
{
    let mut subs: Vec<Vec<usize>> = Vec::new();
    subs.push(Vec::new());
    proof {
        assert forall|s: Seq<usize>| #[trigger] simplices_view(subs@).contains(s) <==> subset_upto(
            s,
            vp@,
            0,
        ) by {
            if subset_upto(s, vp@, 0) {
                if s.len() > 0 {
                    assert(vp@.subrange(0, 0).contains(s[0]));
                }
                assert(s =~= Seq::<usize>::empty());
                assert(simplices_view(subs@)[0] =~= s);
            }
            if simplices_view(subs@).contains(s) {
                assert(simplices_view(subs@)[0] =~= Seq::<usize>::empty());
            }
        }
    }
    let mut i: usize = 0;
    while i < vp.len()
        invariant
            i <= vp@.len(),
            strictly_increasing(vp@),
            forall|s: Seq<usize>|
                #[trigger] simplices_view(subs@).contains(s) <==> subset_upto(s, vp@, i as int),
        decreases vp@.len() - i,
    {
        let e = vp[i];
        let ghost old_v = simplices_view(subs@);
        let m = subs.len();
        let mut q: usize = 0;
        while q < m
            invariant
                m == old_v.len(),
                q <= m,
                subs@.len() == m + q,
                forall|r: int| 0 <= r < m ==> #[trigger] simplices_view(subs@)[r] == old_v[r],
                forall|r: int|
                    0 <= r < q ==> #[trigger] simplices_view(subs@)[m + r] == old_v[r].push(e),
            decreases m - q,
        {
            proof {
                assert(simplices_view(subs@)[q as int] == old_v[q as int]);
            }
            let mut c = copy_indices(subs[q].as_slice());
            c.push(e);
            proof {
                assert(c@ == old_v[q as int].push(e));
            }
            let ghost before = subs@;
            subs.push(c);
            proof {
                assert forall|r: int| 0 <= r < m implies #[trigger] simplices_view(subs@)[r]
                    == old_v[r] by {
                    assert(subs@[r] == before[r]);
                    assert(simplices_view(before)[r] == old_v[r]);
                }
                assert forall|r: int| 0 <= r < q + 1 implies #[trigger] simplices_view(subs@)[m + r]
                    == old_v[r].push(e) by {
                    if r < q {
                        assert(subs@[m + r] == before[m + r]);
                        assert(simplices_view(before)[m + r] == old_v[r].push(e));
                    }
                }
            }
            q = q + 1;
        }
        proof {
            let nv = simplices_view(subs@);
            let pre = vp@.subrange(0, i as int);
            let post = vp@.subrange(0, i + 1);
            assert forall|x: usize| pre.contains(x) implies x < e && post.contains(x) by {
                let t = choose|t: int| 0 <= t < pre.len() && pre[t] == x;
                assert(post[t] == x);
                assert(vp@[t] < vp@[i as int]);
            }
            assert forall|x: usize| post.contains(x) implies pre.contains(x) || x == e by {
                let t = choose|t: int| 0 <= t < post.len() && post[t] == x;
                if t < i {
                    assert(pre[t] == x);
                }
            }
            assert(post.contains(e)) by {
                assert(post[i as int] == e);
            }
            assert forall|s: Seq<usize>| #[trigger] nv.contains(s) <==> subset_upto(
                s,
                vp@,
                i + 1,
            ) by {
                if nv.contains(s) {
                    let t = choose|t: int| 0 <= t < nv.len() && nv[t] == s;
                    if t < m {
                        assert(old_v[t] == s);
                        assert(old_v.contains(s));
                        assert(subset_upto(s, vp@, i as int));
                        assert forall|k: int| 0 <= k < s.len() implies post.contains(
                            #[trigger] s[k],
                        ) by {
                            assert(pre.contains(s[k]));
                        }
                    } else {
                        let x = old_v[t - m];
                        assert(nv[m + (t - m)] == old_v[t - m].push(e));
                        assert(old_v.contains(x));
                        assert(subset_upto(x, vp@, i as int));
                        assert(s == x.push(e));
                        assert forall|a: int, b: int| 0 <= a < b < s.len() implies #[trigger] s[a]
                            < #[trigger] s[b] by {
                            if b == s.len() - 1 {
                                assert(pre.contains(x[a]));
                            } else {
                                assert(x[a] < x[b]);
                            }
                        }
                        assert forall|k: int| 0 <= k < s.len() implies post.contains(
                            #[trigger] s[k],
                        ) by {
                            if k < x.len() {
                                assert(pre.contains(x[k]));
                            }
                        }
                    }
                }
                if subset_upto(s, vp@, i + 1) {
                    if s.len() > 0 && s[s.len() - 1] == e {
                        let x = s.drop_last();
                        assert forall|k: int| 0 <= k < x.len() implies pre.contains(#[trigger] x[k]) by {
                            assert(post.contains(s[k]));
                            assert(s[k] < s[s.len() - 1]);
                        }
                        assert(subset_upto(x, vp@, i as int));
                        assert(old_v.contains(x));
                        let t = choose|t: int| 0 <= t < old_v.len() && old_v[t] == x;
                        assert(nv[m + t] == x.push(e));
                        assert(x.push(e) =~= s);
                    } else {
                        assert forall|k: int| 0 <= k < s.len() implies pre.contains(#[trigger] s[k]) by {
                            assert(post.contains(s[k]));
                            if s[k] == e {
                                if k < s.len() - 1 {
                                    assert(s[k] < s[s.len() - 1]);
                                    assert(post.contains(s[s.len() - 1]));
                                    if !pre.contains(s[s.len() - 1]) {
                                        assert(s[s.len() - 1] == e);
                                    }
                                }
                            }
                        }
                        assert(old_v.contains(s));
                        let t = choose|t: int| 0 <= t < old_v.len() && old_v[t] == s;
                        assert(nv[t] == s);
                    }
                }
            }
        }
        i = i + 1;
    }
    proof {
        assert(vp@.subrange(0, vp@.len() as int) =~= vp@);
    }
    subs
}

} // verus!

verus! {

/// Append `s` to a list of simplices.
fn push_simplex(simps: &mut Vec<Vec<usize>>, s: Vec<usize>)
    ensures
        forall|x: Seq<usize>|
            #[trigger] simplices_view(final(simps)@).contains(x) <==> simplices_view(
                old(simps)@,
            ).contains(x) || x == s@,
{
    let ghost old_v = simplices_view(simps@);
    let ghost sv = s@;
    simps.push(s);
    proof {
        let nv = simplices_view(simps@);
        assert(nv =~= old_v.push(sv));
        assert forall|x: Seq<usize>| #[trigger] nv.contains(x) <==> old_v.contains(x) || x == sv by {
            if nv.contains(x) {
                let t = choose|t: int| 0 <= t < nv.len() && nv[t] == x;
                if t < old_v.len() {
                    assert(old_v[t] == x);
                }
            }
            if old_v.contains(x) {
                let t = choose|t: int| 0 <= t < old_v.len() && old_v[t] == x;
                assert(nv[t] == x);
            }
            if x == sv {
                assert(nv[old_v.len() as int] == x);
            }
        }
    }
}

/// Add every face contributed by the vertex set `vp` of one shared point:
/// each strictly increasing selection of two or more of its vertices.
pub fn add_faces(simps: &mut Vec<Vec<usize>>, vp: &Vec<usize>)
    requires
        strictly_increasing(vp@),
        vp@.len() >= 2,
    ensures
        forall|x: Seq<usize>|
            #[trigger] simplices_view(final(simps)@).contains(x) <==> simplices_view(
                old(simps)@,
            ).contains(x) || is_face(x, vp@),
{
    let ghost old_v = simplices_view(simps@);
    let subs = all_subsets(vp);
    let mut q: usize = 0;
    while q < subs.len()
        invariant
            q <= subs@.len(),
            vp@.len() >= 2,
            forall|s: Seq<usize>|
                #[trigger] simplices_view(subs@).contains(s) <==> subset_upto(
                    s,
                    vp@,
                    vp@.len() as int,
                ),
            forall|x: Seq<usize>|
                #[trigger] simplices_view(simps@).contains(x) <==> old_v.contains(x) || exists|
                    r: int,
                |
                    0 <= r < q && #[trigger] simplices_view(subs@)[r] == x && x.len() >= 2,
        decreases subs@.len() - q,
    {
        let ghost before = simplices_view(simps@);
        let ghost cur = simplices_view(subs@)[q as int];
        proof {
            assert(cur == subs@[q as int]@);
        }
        if subs[q].len() >= 2 {
            let s = copy_indices(subs[q].as_slice());
            push_simplex(simps, s);
        }
        proof {
            assert forall|x: Seq<usize>| #[trigger] simplices_view(simps@).contains(x)
                <==> old_v.contains(x) || exists|r: int|
                0 <= r < q + 1 && #[trigger] simplices_view(subs@)[r] == x && x.len() >= 2 by {
                if exists|r: int|
                    0 <= r < q + 1 && #[trigger] simplices_view(subs@)[r] == x && x.len() >= 2 {
                    let r = choose|r: int|
                        0 <= r < q + 1 && #[trigger] simplices_view(subs@)[r] == x && x.len()
                            >= 2;
                    if r < q {
                        assert(before.contains(x));
                    }
                }
                if before.contains(x) && !old_v.contains(x) {
                    let r = choose|r: int|
                        0 <= r < q && #[trigger] simplices_view(subs@)[r] == x && x.len() >= 2;
                    assert(simplices_view(subs@)[r] == x);
                }
                if simplices_view(simps@).contains(x) && !before.contains(x) {
                    assert(x == cur);
                    assert(simplices_view(subs@)[q as int] == x);
                }
            }
        }
        q = q + 1;
    }
    proof {
        assert(vp@.subrange(0, vp@.len() as int) =~= vp@);
        assert forall|x: Seq<usize>| #[trigger] simplices_view(simps@).contains(x)
            <==> old_v.contains(x) || is_face(x, vp@) by {
            if is_face(x, vp@) {
                assert(subset_upto(x, vp@, vp@.len() as int));
                assert(simplices_view(subs@).contains(x));
                let r = choose|r: int|
                    0 <= r < simplices_view(subs@).len() && simplices_view(subs@)[r] == x;
                assert(simplices_view(subs@)[r] == x);
            }
            if exists|r: int|
                0 <= r < subs@.len() && #[trigger] simplices_view(subs@)[r] == x && x.len()
                    >= 2 {
                let r = choose|r: int|
                    0 <= r < subs@.len() && #[trigger] simplices_view(subs@)[r] == x && x.len()
                        >= 2;
                assert(simplices_view(subs@).contains(x));
                assert(subset_upto(x, vp@, vp@.len() as int));
            }
        }
    }
}

/// Point `vps[v][t]` lies in no cluster before `v`, and `s` is a face of the
/// set of clusters that share it.
pub open spec fn first_face(vps: Seq<Seq<usize>>, s: Seq<usize>, v: int, t: int) -> bool {
    let sh = sharing(vps, vps[v][t], vps.len() as int);
    &&& sh.len() >= 1
    &&& sh[0] == v
    &&& is_face(s, sh)
}

/// Build the nerve of the clusters in `cluster_points`.
///
/// Vertices are the clusters, in the map's order, each once. For every data point, the
/// vertices whose clusters contain it contribute their faces (see
/// [`is_face`]); the simplices are listed by size, then lexicographically,
/// each once. Every face of two or more vertices of a simplex is a simplex
/// too ([`lemma_nerve_faces`]).
pub fn build_nerve(cluster_points: &ClusterMap) -> (c: SimplicialComplex)
    ensures
        vertices_view(c.vertices@) == cluster_points@,
        keys_distinct(vertices_view(c.vertices@)),
        sorted_simplices(simplices_view(c.simplices@)),
        forall|s: Seq<usize>|
            #[trigger] simplices_view(c.simplices@).contains(s) <==> nerve_simplex(
                entry_points(cluster_points@),
                s,
            ),
{
    let entries = cluster_points.entries();
    let ghost es = cluster_points@;
    let ghost vps = entry_points(es);
    if cluster_points.is_empty() {
        let c = SimplicialComplex { vertices: Vec::new(), simplices: Vec::new() };
        proof {
            assert(vertices_view(c.vertices@) =~= cluster_points@);
            assert forall|s: Seq<usize>| #[trigger] simplices_view(c.simplices@).contains(s)
                <==> nerve_simplex(vps, s) by {
                if nerve_simplex(vps, s) {
                    let p = choose|p: usize| #[trigger] is_face(s, sharing(vps, p, vps.len() as int));
                    assert(sharing(vps, p, 0) =~= Seq::<usize>::empty());
                }
            }
        }
        return c;
    }
    let mut vertices: Vec<VertexInfo> = Vec::new();
    let mut k: usize = 0;
    while k < entries.len()
        invariant
            k <= entries@.len(),
            entries@.map_values(|x: (ClusterID, Vec<usize>)| (x.0, x.1@)) == es,
            vertices_view(vertices@) == es.subrange(0, k as int),
        decreases entries@.len() - k,
    {
        let v = VertexInfo {
            cluster_id: entries[k].0,
            point_indices: copy_indices(entries[k].1.as_slice()),
        };
        let ghost vb = vertices@;
        let ghost vi = v;
        vertices.push(v);
        proof {
            assert(es[k as int] == (entries@[k as int].0, entries@[k as int].1@));
            assert(vertices@ == vb.push(vi));
            assert(es.len() == entries@.len());
            assert(vertices_view(vb).len() == vb.len());
            assert(vertices_view(vb) == es.subrange(0, k as int));
            assert(vb.len() == k);
            assert(vertices@[k as int] == vi);
            assert(vi.cluster_id == entries@[k as int].0);
            assert(vi.point_indices@ == entries@[k as int].1@);
            assert(vertices_view(vertices@)[k as int] == es[k as int]);
            assert forall|j: int| 0 <= j < k implies vertices_view(vertices@)[j] == vertices_view(vb)[j] by {}
            assert(vertices_view(vertices@) =~= es.subrange(0, k + 1));
        }
        k = k + 1;
    }
    proof {
        assert(vertices_view(vertices@) =~= es);
        assert(entry_points(vertices_view(vertices@)) == vps);
    }
    let nv = vertices.len();
    let mut faces: Vec<Vec<usize>> = Vec::new();
    let mut v: usize = 0;
    while v < nv
        invariant
            nv == vertices@.len(),
            vps.len() == nv,
            entry_points(vertices_view(vertices@)) == vps,
            v <= nv,
            forall|s: Seq<usize>|
                #[trigger] simplices_view(faces@).contains(s) <==> exists|v2: int, t2: int|
                    0 <= v2 < v && 0 <= t2 < vps[v2].len() && #[trigger] first_face(vps, s, v2, t2),
        decreases nv - v,
    {
        let np = vertices[v].point_indices.len();
        let ghost at_v = simplices_view(faces@);
        proof {
            assert(vps[v as int] == vertices@[v as int].point_indices@);
        }
        let mut t: usize = 0;
        while t < np
            invariant
                nv == vertices@.len(),
                vps.len() == nv,
                entry_points(vertices_view(vertices@)) == vps,
                v < nv,
                np == vps[v as int].len(),
                vps[v as int] == vertices@[v as int].point_indices@,
                t <= np,
                forall|s: Seq<usize>|
                    #[trigger] at_v.contains(s) <==> exists|v2: int, t2: int|
                        0 <= v2 < v && 0 <= t2 < vps[v2].len() && #[trigger] first_face(vps, s, v2, t2),
                forall|s: Seq<usize>|
                    #[trigger] simplices_view(faces@).contains(s) <==> at_v.contains(s) || exists|
                        t2: int,
                    | 0 <= t2 < t && #[trigger] first_face(vps, s, v as int, t2),
            decreases np - t,
        {
            let p = vertices[v].point_indices[t];
            let vp = sharing_vertices(&vertices, p);
            proof {
                lemma_sharing(vps, p, nv as int);
                assert(vps[v as int][t as int] == p);
            }
            let ghost before = simplices_view(faces@);
            if vp.len() >= 2 && vp[0] == v {
                add_faces(&mut faces, &vp);
            }
            proof {
                assert forall|s: Seq<usize>| #[trigger] simplices_view(faces@).contains(s)
                    <==> at_v.contains(s) || exists|t2: int|
                    0 <= t2 < t + 1 && #[trigger] first_face(vps, s, v as int, t2) by {
                    if exists|t2: int| 0 <= t2 < t + 1 && #[trigger] first_face(vps, s, v as int, t2) {
                        let t2 = choose|t2: int| 0 <= t2 < t + 1 && #[trigger] first_face(vps, s, v as int, t2);
                        if t2 < t {
                            assert(before.contains(s));
                        } else {
                            assert(is_face(s, vp@));
                        }
                    }
                    if before.contains(s) && !at_v.contains(s) {
                        let t2 = choose|t2: int| 0 <= t2 < t && #[trigger] first_face(vps, s, v as int, t2);
                        assert(first_face(vps, s, v as int, t2));
                    }
                    if simplices_view(faces@).contains(s) && !before.contains(s) {
                        assert(is_face(s, vp@));
                        assert(first_face(vps, s, v as int, t as int));
                    }
                }
            }
            t = t + 1;
        }
        proof {
            assert forall|s: Seq<usize>| #[trigger] simplices_view(faces@).contains(s)
                <==> exists|v2: int, t2: int|
                0 <= v2 < v + 1 && 0 <= t2 < vps[v2].len() && #[trigger] first_face(vps, s, v2, t2) by {
                if exists|v2: int, t2: int|
                    0 <= v2 < v + 1 && 0 <= t2 < vps[v2].len() && #[trigger] first_face(vps, s, v2, t2) {
                    let (v2, t2) = choose|v2: int, t2: int|
                        0 <= v2 < v + 1 && 0 <= t2 < vps[v2].len() && #[trigger] first_face(vps, s, v2, t2);
                    if v2 < v {
                        assert(at_v.contains(s));
                    } else {
                        assert(first_face(vps, s, v as int, t2));
                    }
                }
                if at_v.contains(s) {
                    let (v2, t2) = choose|v2: int, t2: int|
                        0 <= v2 < v && 0 <= t2 < vps[v2].len() && #[trigger] first_face(vps, s, v2, t2);
                    assert(first_face(vps, s, v2, t2));
                }
                if exists|t2: int| 0 <= t2 < np && #[trigger] first_face(vps, s, v as int, t2) {
                    let t2 = choose|t2: int| 0 <= t2 < np && #[trigger] first_face(vps, s, v as int, t2);
                    assert(first_face(vps, s, v as int, t2));
                }
            }
        }
        v = v + 1;
    }
    let simps = sort_simplices(&faces);
    let c = SimplicialComplex { vertices, simplices: simps };
    proof {
        assert forall|s: Seq<usize>| #[trigger] simplices_view(c.simplices@).contains(s)
            <==> nerve_simplex(vps, s) by {
            if nerve_simplex(vps, s) {
                let p = choose|p: usize| #[trigger] is_face(s, sharing(vps, p, vps.len() as int));
                let sh = sharing(vps, p, nv as int);
                lemma_sharing(vps, p, nv as int);
                assert(sh.len() >= 2);
                let w = sh[0];
                assert(sh.contains(w));
                assert(vps[w as int].contains(p));
                let t2 = choose|t2: int| 0 <= t2 < vps[w as int].len() && vps[w as int][t2] == p;
                assert(first_face(vps, s, w as int, t2));
                assert(simplices_view(faces@).contains(s));
            }
            if simplices_view(c.simplices@).contains(s) {
                assert(simplices_view(faces@).contains(s));
                let (v2, t2) = choose|v2: int, t2: int|
                    0 <= v2 < nv && 0 <= t2 < vps[v2].len() && #[trigger] first_face(vps, s, v2, t2);
                assert(is_face(s, sharing(vps, vps[v2][t2], vps.len() as int)));
            }
        }
    }
    c
}

} // verus!

verus! {

/// The 2-vertex simplices among the first `k`, as pairs, in order.
pub open spec fn edges_of(simps: Seq<Seq<usize>>, k: int) -> Seq<(usize, usize)>
    decreases k,
{
    if k <= 0 {
        seq![]
    } else if simps[k - 1].len() == 2 {
        edges_of(simps, k - 1).push((simps[k - 1][0], simps[k - 1][1]))
    } else {
        edges_of(simps, k - 1)
    }
}

/// The 3-vertex simplices among the first `k`, as triples, in order.
pub open spec fn triangles_of(simps: Seq<Seq<usize>>, k: int) -> Seq<(usize, usize, usize)>
    decreases k,
{
    if k <= 0 {
        seq![]
    } else if simps[k - 1].len() == 3 {
        triangles_of(simps, k - 1).push((simps[k - 1][0], simps[k - 1][1], simps[k - 1][2]))
    } else {
        triangles_of(simps, k - 1)
    }
}

/// Extract edges (1-simplices) from the nerve complex.
pub fn edges(complex: &SimplicialComplex) -> (es: Vec<(usize, usize)>)
    ensures
        es@ == edges_of(
            simplices_view(complex.simplices@),
            complex.simplices@.len() as int,
        ),
{
    let ghost sv = simplices_view(complex.simplices@);
    let mut es: Vec<(usize, usize)> = Vec::new();
    let mut k: usize = 0;
    while k < complex.simplices.len()
        invariant
            k <= complex.simplices@.len(),
            sv == simplices_view(complex.simplices@),
            es@ == edges_of(sv, k as int),
        decreases complex.simplices@.len() - k,
    {
        let s = &complex.simplices[k];
        proof {
            assert(sv[k as int] == s@);
        }
        if s.len() == 2 {
            es.push((s[0], s[1]));
        }
        k = k + 1;
    }
    es
}

/// Extract triangles (2-simplices) from the nerve complex.
pub fn triangles(complex: &SimplicialComplex) -> (ts: Vec<(usize, usize, usize)>)
    ensures
        ts@ == triangles_of(
            simplices_view(complex.simplices@),
            complex.simplices@.len() as int,
        ),
{
    let ghost sv = simplices_view(complex.simplices@);
    let mut ts: Vec<(usize, usize, usize)> = Vec::new();
    let mut k: usize = 0;
    while k < complex.simplices.len()
        invariant
            k <= complex.simplices@.len(),
            sv == simplices_view(complex.simplices@),
            ts@ == triangles_of(sv, k as int),
        decreases complex.simplices@.len() - k,
    {
        let s = &complex.simplices[k];
        proof {
            assert(sv[k as int] == s@);
        }
        if s.len() == 3 {
            ts.push((s[0], s[1], s[2]));
        }
        k = k + 1;
    }
    ts
}

/// Number of simplices among the first `k` with `d + 1` vertices.
pub open spec fn dim_count(simps: Seq<Seq<usize>>, d: int, k: int) -> nat
    decreases k,
{
    if k <= 0 {
        0
    } else {
        dim_count(simps, d, k - 1) + if simps[k - 1].len() == d + 1 {
            1nat
        } else {
            0nat
        }
    }
}

/// A count over the first `k` simplices is at most `k`.
pub proof fn lemma_dim_count_bound(simps: Seq<Seq<usize>>, d: int, k: int)
    requires
        0 <= k,
    ensures
        dim_count(simps, d, k) <= k,
    decreases k,
{
    if k > 0 {
        lemma_dim_count_bound(simps, d, k - 1);
    }
}

/// Count simplices by dimension: dimension 0 counts the vertices (plus any
/// one-vertex simplices); dimension `d > 0` counts the simplices with
/// `d + 1` vertices. Only dimensions that occur are keys (0 always is).
pub fn simplex_counts_by_dim(complex: &SimplicialComplex) -> (counts: std::collections::HashMap<
    usize,
    usize,
>)
    requires
        forall|i: int|
            0 <= i < complex.simplices@.len() ==> #[trigger] complex.simplices@[i]@.len() >= 1,
        complex.vertices@.len() + complex.simplices@.len() <= usize::MAX,
    ensures
        forall|d: usize|
            #[trigger] counts@.contains_key(d) <==> (d == 0 || exists|i: int|
                0 <= i < complex.simplices@.len() && complex.simplices@[i]@.len() == d + 1),
        forall|d: usize|
            #[trigger] counts@.contains_key(d) ==> counts@[d] == (if d == 0 {
                complex.vertices@.len() as int
            } else {
                0int
            }) + dim_count(
                simplices_view(complex.simplices@),
                d as int,
                complex.simplices@.len() as int,
            ),
{
    broadcast use vstd::std_specs::hash::group_hash_axioms;

    let ghost sv = simplices_view(complex.simplices@);
    let nv = complex.vertices.len();
    let mut counts: std::collections::HashMap<usize, usize> = std::collections::HashMap::new();
    counts.insert(0, nv);
    let mut k: usize = 0;
    while k < complex.simplices.len()
        invariant
            k <= complex.simplices@.len(),
            nv == complex.vertices@.len(),
            sv == simplices_view(complex.simplices@),
            forall|i: int|
                0 <= i < complex.simplices@.len() ==> #[trigger] complex.simplices@[i]@.len() >= 1,
            nv + complex.simplices@.len() <= usize::MAX,
            forall|d: usize|
                #[trigger] counts@.contains_key(d) <==> (d == 0 || exists|i: int|
                    0 <= i < k && complex.simplices@[i]@.len() == d + 1),
            forall|d: usize|
                #[trigger] counts@.contains_key(d) ==> counts@[d] == (if d == 0 {
                    nv as int
                } else {
                    0int
                }) + dim_count(sv, d as int, k as int),
        decreases complex.simplices@.len() - k,
    {
        proof {
            assert(sv[k as int] == complex.simplices@[k as int]@);
            assert(complex.simplices@[k as int]@.len() >= 1);
        }
        let d = complex.simplices[k].len() - 1;
        let c: usize = match counts.get(&d) {
            Some(c) => *c,
            None => 0,
        };
        proof {
            lemma_dim_count_bound(sv, d as int, k as int);
            if counts@.contains_key(d) {
                assert(c == counts@[d]);
            } else {
                assert(d != 0);
                assert forall|i: int| 0 <= i < k implies #[trigger] sv[i].len() != d + 1 by {
                    assert(sv[i] == complex.simplices@[i]@);
                    if sv[i].len() == d + 1 {
                        assert(counts@.contains_key(d));
                    }
                }
                lemma_dim_count_zero(sv, d as int, k as int);
            }
        }
        let ghost before = counts@;
        counts.insert(d, c + 1);
        proof {
            assert forall|e: usize| #[trigger] counts@.contains_key(e) <==> (e == 0 || exists|i: int|
                0 <= i < k + 1 && complex.simplices@[i]@.len() == e + 1) by {
                if e != d {
                    if exists|i: int| 0 <= i < k + 1 && complex.simplices@[i]@.len() == e + 1 {
                        let i = choose|i: int| 0 <= i < k + 1 && complex.simplices@[i]@.len() == e + 1;
                        assert(i != k);
                        assert(before.contains_key(e));
                    }
                } else {
                    assert(complex.simplices@[k as int]@.len() == e + 1);
                }
            }
            assert forall|e: usize| #[trigger] counts@.contains_key(e) implies counts@[e] == (if e
                == 0 {
                nv as int
            } else {
                0int
            }) + dim_count(sv, e as int, k + 1) by {
                if e != d {
                    assert(before.contains_key(e));
                }
            }
        }
        k = k + 1;
    }
    counts
}

proof fn lemma_dim_count_zero(simps: Seq<Seq<usize>>, d: int, k: int)
    requires
        0 <= k,
        forall|i: int| 0 <= i < k ==> #[trigger] simps[i].len() != d + 1,
    ensures
        dim_count(simps, d, k) == 0,
    decreases k,
{
    if k > 0 {
        lemma_dim_count_zero(simps, d, k - 1);
        assert(simps[k - 1].len() != d + 1);
    }
}

} // verus!

verus! {

/// Every cluster of the vertex list `s` contains point `p`.
pub open spec fn all_contain(vps: Seq<Seq<usize>>, s: Seq<usize>, p: usize) -> bool {
    forall|i: int| 0 <= i < s.len() ==> s[i] < vps.len() && #[trigger] vps[s[i] as int].contains(p)
}

/// A point shared by the clusters of a strictly increasing list of two or
/// more vertices makes that list a simplex; conversely, the clusters of every
/// simplex share a point.
pub proof fn lemma_nerve_shared_point(vps: Seq<Seq<usize>>, s: Seq<usize>)
    requires
        vps.len() <= usize::MAX,
    ensures
        nerve_simplex(vps, s) ==> exists|p: usize|
            #[trigger] all_contain(vps, s, p),
        forall|p: usize|
            s.len() >= 2 && strictly_increasing(s) && all_contain(vps, s, p) ==> #[trigger] is_face(
                s,
                sharing(vps, p, vps.len() as int),
            ),
{
    let n = vps.len() as int;
    if nerve_simplex(vps, s) {
        let p = choose|p: usize| #[trigger] is_face(s, sharing(vps, p, n));
        lemma_sharing(vps, p, n);
        let sh = sharing(vps, p, n);
        assert forall|i: int| 0 <= i < s.len() implies s[i] < vps.len() && #[trigger] vps[s[i] as int].contains(p) by {
            assert(sh.contains(s[i]));
            let w = choose|w: int| 0 <= w < sh.len() && sh[w] == s[i];
            assert(sh[w] < n);
        }
        assert(all_contain(vps, s, p));
    }
    assert forall|p: usize|
        s.len() >= 2 && strictly_increasing(s) && all_contain(vps, s, p) implies #[trigger] is_face(
        s,
        sharing(vps, p, vps.len() as int),
    ) by {
        lemma_sharing(vps, p, n);
        let sh = sharing(vps, p, n);
        assert forall|i: int| 0 <= i < s.len() implies sh.contains(#[trigger] s[i]) by {
            assert(vps[s[i] as int].contains(p));
            assert(vps[(s[i] as int) as usize as int].contains(p));
        }
        assert(sh.contains(s[0]));
        assert(sh.contains(s[1]));
        let w0 = choose|w: int| 0 <= w < sh.len() && sh[w] == s[0];
        let w1 = choose|w: int| 0 <= w < sh.len() && sh[w] == s[1];
        assert(s[0] < s[1]);
        assert(w0 != w1);
        assert(sh.len() >= 2);
    }
}

/// Two clusters are joined by an edge exactly when they share a data point.
pub proof fn lemma_nerve_edge(vps: Seq<Seq<usize>>, a: usize, b: usize)
    requires
        a < b,
        b < vps.len(),
        vps.len() <= usize::MAX,
    ensures
        nerve_simplex(vps, seq![a, b]) <==> exists|p: usize| #[trigger] vps[a as int].contains(p) && vps[b as int].contains(p),
{
    let s = seq![a, b];
    lemma_nerve_shared_point(vps, s);
    if nerve_simplex(vps, s) {
        let p = choose|p: usize| #[trigger] all_contain(vps, s, p);
        assert(vps[s[0] as int].contains(p));
        assert(vps[s[1] as int].contains(p));
    }
    if exists|p: usize| #[trigger] vps[a as int].contains(p) && vps[b as int].contains(p) {
        let p = choose|p: usize| #[trigger] vps[a as int].contains(p) && vps[b as int].contains(p);
        assert forall|i: int| 0 <= i < s.len() implies s[i] < vps.len() && #[trigger] vps[s[i] as int].contains(p) by {}
        assert(all_contain(vps, s, p));
        assert(is_face(s, sharing(vps, p, vps.len() as int)));
    }
}

/// Full coverage through the pipeline: a point listed in any interval lies
/// in some vertex of a nerve whose vertices are the cluster map built from
/// the clusters of all intervals (as `build_nerve` gives them).
pub proof fn lemma_nerve_covers_interval_points(
    sets: Seq<Vec<usize>>,
    linked: Seq<Vec<bool>>,
    vertices: Seq<VertexInfo>,
    q: int,
    t: int,
)
    requires
        0 <= q < sets.len(),
        0 <= t < sets[q]@.len(),
        sets.len() <= usize::MAX,
        sets[q]@.len() <= usize::MAX,
        vertices_view(vertices) == cluster_map_entries(
            all_interval_clusters(sets, linked, sets.len() as int),
            all_interval_clusters(sets, linked, sets.len() as int).len() as int,
        ),
    ensures
        exists|v: int| 0 <= v < vertices.len() && #[trigger] vertices[v].point_indices@.contains(sets[q]@[t]),
{
    lemma_interval_points_in_clusters(sets, linked, q, t);
    let all = all_interval_clusters(sets, linked, sets.len() as int);
    let m = cluster_map_entries(all, all.len() as int);
    let e = choose|e: int| 0 <= e < m.len() && (#[trigger] m[e]).1.contains(sets[q]@[t]);
    assert(vertices_view(vertices)[e] == (vertices[e].cluster_id, vertices[e].point_indices@));
    assert(vertices[e].point_indices@.contains(sets[q]@[t]));
}

/// The nerve is a simplicial complex: every strictly increasing selection
/// of two or more vertices of a simplex is itself a simplex.
pub proof fn lemma_nerve_faces(vps: Seq<Seq<usize>>, s: Seq<usize>, t: Seq<usize>)
    requires
        nerve_simplex(vps, s),
        t.len() >= 2,
        strictly_increasing(t),
        forall|i: int| 0 <= i < t.len() ==> s.contains(#[trigger] t[i]),
    ensures
        nerve_simplex(vps, t),
{
    let p = choose|p: usize| #[trigger] is_face(s, sharing(vps, p, vps.len() as int));
    let sh = sharing(vps, p, vps.len() as int);
    assert forall|i: int| 0 <= i < t.len() implies sh.contains(#[trigger] t[i]) by {
        let w = choose|w: int| 0 <= w < s.len() && s[w] == t[i];
        assert(sh.contains(s[w]));
    }
    assert(is_face(t, sh));
}

} // verus!
