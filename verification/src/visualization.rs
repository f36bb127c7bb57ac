//! Graph analysis for Mapper output: adjacency lists built from the nerve's
//! edges, and connected components by iterative breadth-first search.
use vstd::prelude::*;

use crate::nerve::contains_index;

verus! {

/// `s` with `x` appended unless `x` is already in it.
pub open spec fn add_unique(s: Seq<usize>, x: usize) -> Seq<usize> {
    if s.contains(x) {
        s
    } else {
        s.push(x)
    }
}

/// Adjacency lists of `n` nodes after the first `k` edges: for an edge
/// `(a, b)` with both ends below `n`, `b` joins the list of `a` and `a` the
/// list of `b`, each at most once; other edges are skipped.
pub open spec fn adjacency_upto(n: nat, edges: Seq<(usize, usize)>, k: int) -> Seq<Seq<usize>>
    decreases k,
{
    if k <= 0 {
        Seq::new(n, |i: int| Seq::<usize>::empty())
    } else {
        let prev = adjacency_upto(n, edges, k - 1);
        let a = edges[k - 1].0;
        let b = edges[k - 1].1;
        if a < n && b < n {
            let s1 = prev.update(a as int, add_unique(prev[a as int], b));
            s1.update(b as int, add_unique(s1[b as int], a))
        } else {
            prev
        }
    }
}

/// The contents of adjacency lists.
pub open spec fn adj_view(adj: Seq<Vec<usize>>) -> Seq<Seq<usize>> {
    adj.map_values(|v: Vec<usize>| v@)
}

proof fn lemma_adjacency_len(n: nat, edges: Seq<(usize, usize)>, k: int)
    ensures
        adjacency_upto(n, edges, k).len() == n,
    decreases k,
{
    if k > 0 {
        lemma_adjacency_len(n, edges, k - 1);
    }
}

/// Adjacency lists of `n` nodes from an edge list (see [`adjacency_upto`]).
pub fn build_adjacency(n: usize, edge_list: &Vec<(usize, usize)>) -> (adj: Vec<Vec<usize>>)
    ensures
        adj_view(adj@) == adjacency_upto(n as nat, edge_list@, edge_list@.len() as int),
{
    let mut adj: Vec<Vec<usize>> = Vec::new();
    let mut i: usize = 0;
    while i < n
        invariant
            i <= n,
            adj@.len() == i,
            adj_view(adj@) == Seq::new(i as nat, |j: int| Seq::<usize>::empty()),
        decreases n - i,
    {
        let ghost before = adj@;
        let e: Vec<usize> = Vec::new();
        proof {
            assert(e@ =~= Seq::<usize>::empty());
        }
        adj.push(e);
        proof {
            assert forall|j: int| 0 <= j < i + 1 implies #[trigger] adj_view(adj@)[j] == Seq::<usize>::empty() by {
                if j < i {
                    assert(adj@[j] == before[j]);
                    assert(adj_view(before)[j] == Seq::<usize>::empty());
                }
            }
            assert(adj_view(adj@) =~= Seq::new((i + 1) as nat, |j: int| Seq::<usize>::empty()));
        }
        i = i + 1;
    }
    proof {
        assert(adj_view(adj@) =~= adjacency_upto(n as nat, edge_list@, 0));
    }
    let mut k: usize = 0;
    while k < edge_list.len()
        invariant
            k <= edge_list@.len(),
            adj@.len() == n,
            adj_view(adj@) == adjacency_upto(n as nat, edge_list@, k as int),
        decreases edge_list@.len() - k,
    {
        let (a, b) = edge_list[k];
        proof {
            lemma_adjacency_len(n as nat, edge_list@, k as int);
        }
        if a < n && b < n {
            let ghost prev = adj_view(adj@);
            if !contains_index(&adj[a], b) {
                adj[a].push(b);
            }
            let ghost s1 = adj_view(adj@);
            proof {
                assert(s1 =~= prev.update(a as int, add_unique(prev[a as int], b)));
            }
            if !contains_index(&adj[b], a) {
                adj[b].push(a);
            }
            proof {
                assert(adj_view(adj@) =~= s1.update(b as int, add_unique(s1[b as int], a)));
            }
        }
        proof {
            assert(adj_view(adj@) == adjacency_upto(n as nat, edge_list@, k + 1));
        }
        k = k + 1;
    }
    adj
}

/// Every neighbour index is a node.
pub open spec fn neighbors_fit(adj: Seq<Vec<usize>>) -> bool {
    forall|v: int, t: int|
        0 <= v < adj.len() && 0 <= t < adj[v]@.len() ==> #[trigger] adj[v]@[t] < adj.len()
}

/// `path` follows adjacency lists from node to node.
pub open spec fn is_walk(adj: Seq<Vec<usize>>, path: Seq<usize>) -> bool {
    &&& path.len() >= 1
    &&& forall|k: int| 0 <= k < path.len() ==> #[trigger] path[k] < adj.len()
    &&& forall|k: int|
        0 <= k < path.len() - 1 ==> adj[#[trigger] path[k] as int]@.contains(path[k + 1])
}

/// Node `y` can be reached from node `x` along adjacency lists.
pub open spec fn reaches(adj: Seq<Vec<usize>>, x: usize, y: usize) -> bool {
    exists|path: Seq<usize>|
        #[trigger] is_walk(adj, path) && path[0] == x && path[path.len() - 1] == y
}

/// Node `comp[i]` is a neighbour of a node listed before it.
pub open spec fn found_before(adj: Seq<Vec<usize>>, comp: Seq<usize>, i: int) -> bool {
    exists|u: int| 0 <= u < i && #[trigger] adj[comp[u] as int]@.contains(comp[i])
}

/// Every node after the first is a neighbour of a node listed before it.
pub open spec fn discovery_ordered(adj: Seq<Vec<usize>>, comp: Seq<usize>) -> bool {
    forall|i: int| 0 < i < comp.len() ==> #[trigger] found_before(adj, comp, i)
}

proof fn lemma_discovery_push(adj: Seq<Vec<usize>>, comp: Seq<usize>, h: int, z: usize)
    requires
        discovery_ordered(adj, comp),
        0 <= h < comp.len(),
        adj[comp[h] as int]@.contains(z),
    ensures
        discovery_ordered(adj, comp.push(z)),
{
    let c2 = comp.push(z);
    assert forall|i: int| 0 < i < c2.len() implies #[trigger] found_before(adj, c2, i) by {
        if i == comp.len() {
            assert(c2[h] == comp[h]);
            assert(adj[c2[h] as int]@.contains(c2[i]));
        } else {
            assert(found_before(adj, comp, i));
            let u = choose|u: int| 0 <= u < i && #[trigger] adj[comp[u] as int]@.contains(comp[i]);
            assert(c2[u] == comp[u]);
            assert(c2[i] == comp[i]);
            assert(adj[c2[u] as int]@.contains(c2[i]));
        }
    }
}

/// `comp[i]` stands at place `a` of the adjacency list of `comp[u]`, a node
/// listed before it.
pub open spec fn discovered_at(adj: Seq<Vec<usize>>, comp: Seq<usize>, i: int, u: int, a: int) -> bool {
    &&& 0 <= u < i
    &&& 0 <= a < adj[comp[u] as int]@.len()
    &&& adj[comp[u] as int]@[a] == comp[i]
}

/// Some place where `comp[i]` stands in the list of an earlier node comes
/// ahead (first by that node's position, then by place in its list) of every
/// place where `comp[j]` stands in the list of a node before `comp[j]`.
pub open spec fn discovered_first(adj: Seq<Vec<usize>>, comp: Seq<usize>, i: int, j: int) -> bool {
    exists|u: int, a: int|
        #[trigger] discovered_at(adj, comp, i, u, a) && forall|w: int, b: int|
            #[trigger] discovered_at(adj, comp, j, w, b) ==> u < w || (u == w && a < b)
}

/// Breadth-first order: after the first, the nodes come in the order in
/// which they are first met when the listed nodes are taken in turn and the
/// adjacency list of each is read from its start.
pub open spec fn breadth_first(adj: Seq<Vec<usize>>, comp: Seq<usize>) -> bool {
    forall|i: int, j: int| 0 < i < j < comp.len() ==> #[trigger] discovered_first(adj, comp, i, j)
}

/// `comp[i]` was met at a place ahead of place `t` in the list of `comp[h]`.
spec fn met_before(adj: Seq<Vec<usize>>, comp: Seq<usize>, i: int, h: int, t: int) -> bool {
    exists|u: int, a: int|
        #[trigger] discovered_at(adj, comp, i, u, a) && (u < h || (u == h && a < t))
}

proof fn lemma_discovered_push(adj: Seq<Vec<usize>>, comp: Seq<usize>, z: usize)
    ensures
        forall|i: int, u: int, a: int|
            0 <= i < comp.len() ==> #[trigger] discovered_at(adj, comp.push(z), i, u, a)
                == discovered_at(adj, comp, i, u, a),
{
    let c2 = comp.push(z);
    assert forall|i: int, u: int, a: int| 0 <= i < comp.len() implies #[trigger] discovered_at(
        adj,
        c2,
        i,
        u,
        a,
    ) == discovered_at(adj, comp, i, u, a) by {
        assert(c2[i] == comp[i]);
        if 0 <= u < i {
            assert(c2[u] == comp[u]);
        }
    }
}

proof fn lemma_met_later(adj: Seq<Vec<usize>>, comp: Seq<usize>, i: int, h: int, t: int, h2: int, t2: int)
    requires
        met_before(adj, comp, i, h, t),
        h < h2 || (h == h2 && t <= t2),
    ensures
        met_before(adj, comp, i, h2, t2),
{
    let (u, a) = choose|u: int, a: int|
        #[trigger] discovered_at(adj, comp, i, u, a) && (u < h || (u == h && a < t));
    assert(discovered_at(adj, comp, i, u, a));
}

proof fn lemma_met_push(adj: Seq<Vec<usize>>, comp: Seq<usize>, z: usize, i: int, h: int, t: int)
    requires
        0 <= i < comp.len(),
        met_before(adj, comp, i, h, t),
    ensures
        met_before(adj, comp.push(z), i, h, t),
{
    lemma_discovered_push(adj, comp, z);
    let (u, a) = choose|u: int, a: int|
        #[trigger] discovered_at(adj, comp, i, u, a) && (u < h || (u == h && a < t));
    assert(discovered_at(adj, comp.push(z), i, u, a));
}

/// Appending a node whose every place in the lists of the listed nodes lies
/// at or after place `t` of the list of `comp[h]`, behind every node met so
/// far, keeps breadth-first order.
proof fn lemma_breadth_first_push(adj: Seq<Vec<usize>>, comp: Seq<usize>, z: usize, h: int, t: int)
    requires
        breadth_first(adj, comp),
        forall|i: int| 0 < i < comp.len() ==> #[trigger] met_before(adj, comp, i, h, t),
        forall|w: int, b: int|
            #[trigger] discovered_at(adj, comp.push(z), comp.len() as int, w, b) ==> h < w || (h == w
                && t <= b),
    ensures
        breadth_first(adj, comp.push(z)),
{
    let c2 = comp.push(z);
    lemma_discovered_push(adj, comp, z);
    assert forall|i: int, j: int| 0 < i < j < c2.len() implies #[trigger] discovered_first(
        adj,
        c2,
        i,
        j,
    ) by {
        if j < comp.len() {
            assert(discovered_first(adj, comp, i, j));
            let (u, a) = choose|u: int, a: int|
                #[trigger] discovered_at(adj, comp, i, u, a) && forall|w: int, b: int|
                    #[trigger] discovered_at(adj, comp, j, w, b) ==> u < w || (u == w && a < b);
            assert(discovered_at(adj, c2, i, u, a));
            assert forall|w: int, b: int| #[trigger] discovered_at(adj, c2, j, w, b) implies u < w || (
            u == w && a < b) by {
                assert(discovered_at(adj, comp, j, w, b));
            }
        } else {
            assert(met_before(adj, comp, i, h, t));
            let (u, a) = choose|u: int, a: int|
                #[trigger] discovered_at(adj, comp, i, u, a) && (u < h || (u == h && a < t));
            assert(discovered_at(adj, c2, i, u, a));
            assert forall|w: int, b: int| #[trigger] discovered_at(adj, c2, j, w, b) implies u < w || (
            u == w && a < b) by {
                assert(h < w || (h == w && t <= b));
            }
        }
    }
}

/// Node `x` occurs in one of the first `k` components.
pub open spec fn in_components(comps: Seq<Seq<usize>>, k: int, x: usize) -> bool {
    exists|j: int| 0 <= j < k && #[trigger] comps[j].contains(x)
}

/// Number of `false` entries.
pub open spec fn count_false(s: Seq<bool>) -> nat
    decreases s.len(),
{
    if s.len() == 0 {
        0
    } else {
        count_false(s.drop_last()) + if s.last() {
            0nat
        } else {
            1nat
        }
    }
}

proof fn lemma_count_false_set(s: Seq<bool>, i: int)
    requires
        0 <= i < s.len(),
        !s[i],
    ensures
        count_false(s.update(i, true)) + 1 == count_false(s),
    decreases s.len(),
{
    let u = s.update(i, true);
    if i < s.len() - 1 {
        lemma_count_false_set(s.drop_last(), i);
        assert(u.drop_last() =~= s.drop_last().update(i, true));
    } else {
        assert(u.drop_last() =~= s.drop_last());
    }
}

proof fn lemma_count_false_bound(s: Seq<bool>)
    ensures
        count_false(s) <= s.len(),
    decreases s.len(),
{
    if s.len() > 0 {
        lemma_count_false_bound(s.drop_last());
    }
}

proof fn lemma_reach_refl(adj: Seq<Vec<usize>>, x: usize)
    requires
        x < adj.len(),
    ensures
        reaches(adj, x, x),
{
    let path = seq![x];
    assert(is_walk(adj, path));
}

proof fn lemma_reach_extend(adj: Seq<Vec<usize>>, x: usize, y: usize, z: usize)
    requires
        reaches(adj, x, y),
        adj[y as int]@.contains(z),
        z < adj.len(),
    ensures
        reaches(adj, x, z),
{
    let path = choose|path: Seq<usize>|
        #[trigger] is_walk(adj, path) && path[0] == x && path[path.len() - 1] == y;
    let p2 = path.push(z);
    assert forall|k: int| 0 <= k < p2.len() - 1 implies adj[#[trigger] p2[k] as int]@.contains(
        p2[k + 1],
    ) by {
        if k < path.len() - 1 {
            assert(p2[k] == path[k]);
            assert(p2[k + 1] == path[k + 1]);
            assert(adj[path[k] as int]@.contains(path[k + 1]));
        }
    }
    assert(is_walk(adj, p2));
}

/// A set of nodes closed under adjacency that contains the start of a walk
/// contains its end.
proof fn lemma_closed_walk(adj: Seq<Vec<usize>>, vis: Seq<bool>, path: Seq<usize>, k: int)
    requires
        vis.len() == adj.len(),
        is_walk(adj, path),
        vis[path[0] as int],
        forall|v: int, t: int|
            0 <= v < adj.len() && 0 <= t < adj[v]@.len() && vis[v] ==> #[trigger] vis[adj[v]@[t] as int],
        0 <= k < path.len(),
    ensures
        vis[path[k] as int],
    decreases k,
{
    if k > 0 {
        lemma_closed_walk(adj, vis, path, k - 1);
        let v = path[k - 1] as int;
        assert(adj[v]@.contains(path[k]));
        let t = choose|t: int| 0 <= t < adj[v]@.len() && adj[v]@[t] == path[k];
        assert(vis[adj[v]@[t] as int]);
    }
}

/// Breadth-first search from `start` over the nodes not yet visited; marks
/// and returns them in visiting order.
fn bfs(adj: &Vec<Vec<usize>>, visited: &mut Vec<bool>, start: usize) -> (comp: Vec<usize>)
    requires
        neighbors_fit(adj@),
        old(visited)@.len() == adj@.len(),
        start < adj@.len(),
        !old(visited)@[start as int],
        forall|v: int, t: int|
            0 <= v < adj@.len() && 0 <= t < adj@[v]@.len() && old(visited)@[v] ==> #[trigger] old(
                visited,
            )@[adj@[v]@[t] as int],
    ensures
        final(visited)@.len() == adj@.len(),
        forall|v: int, t: int|
            0 <= v < adj@.len() && 0 <= t < adj@[v]@.len() && final(visited)@[v]
                ==> #[trigger] final(visited)@[adj@[v]@[t] as int],
        forall|x: int|
            0 <= x < adj@.len() ==> (#[trigger] final(visited)@[x] <==> old(visited)@[x] || comp@.contains(
                x as usize,
            )),
        comp@.len() > 0,
        comp@[0] == start,
        forall|i: int, j: int| 0 <= i < j < comp@.len() ==> #[trigger] comp@[i] != #[trigger] comp@[j],
        forall|i: int| 0 <= i < comp@.len() ==> #[trigger] comp@[i] < adj@.len(),
        forall|x: usize|
            x < adj@.len() ==> (#[trigger] comp@.contains(x) <==> reaches(adj@, start, x) && !old(
                visited,
            )@[x as int]),
        discovery_ordered(adj@, comp@),
        breadth_first(adj@, comp@),
{
    let n = adj.len();
    let ghost v0 = visited@;
    proof {
        lemma_count_false_bound(v0);
        lemma_count_false_set(v0, start as int);
    }
    let ghost cf0 = count_false(v0);
    let mut comp: Vec<usize> = Vec::new();
    visited.set(start, true);
    comp.push(start);
    proof {
        lemma_reach_refl(adj@, start);
        assert forall|x: int| 0 <= x < n implies (#[trigger] visited@[x] <==> v0[x] || comp@.contains(
            x as usize,
        )) by {
            if x == start {
                assert(comp@[0] == start);
            }
            if comp@.contains(x as usize) {
                assert(comp@[0] == x as usize);
            }
        }
    }
    let mut h: usize = 0;
    while h < comp.len()
        invariant
            n == adj@.len(),
            neighbors_fit(adj@),
            v0.len() == n,
            visited@.len() == n,
            start < n,
            cf0 == count_false(v0),
            cf0 <= n,
            comp@.len() + count_false(visited@) == cf0,
            h <= comp@.len(),
            comp@.len() > 0,
            comp@[0] == start,
            forall|x: int| 0 <= x < n ==> (#[trigger] visited@[x] <==> v0[x] || comp@.contains(x as usize)),
            forall|v: int, t: int|
                0 <= v < n && 0 <= t < adj@[v]@.len() && v0[v] ==> #[trigger] v0[adj@[v]@[t] as int],
            forall|i: int, j: int| 0 <= i < j < comp@.len() ==> #[trigger] comp@[i] != #[trigger] comp@[j],
            forall|i: int| 0 <= i < comp@.len() ==> #[trigger] comp@[i] < n,
            forall|i: int| 0 <= i < comp@.len() ==> !v0[#[trigger] comp@[i] as int],
            forall|i: int| 0 <= i < comp@.len() ==> reaches(adj@, start, #[trigger] comp@[i]),
            forall|u: int, t: int|
                0 <= u < h && 0 <= t < adj@[comp@[u] as int]@.len() ==> #[trigger] visited@[adj@[comp@[u] as int]@[t] as int],
            discovery_ordered(adj@, comp@),
            breadth_first(adj@, comp@),
            forall|i: int| 0 < i < comp@.len() ==> #[trigger] met_before(adj@, comp@, i, h as int, 0),
        decreases cf0 - h,
    {
        let node = comp[h];
        let nb = &adj[node];
        let ghost m0 = comp@.len();
        let mut t: usize = 0;
        while t < nb.len()
            invariant
                n == adj@.len(),
                neighbors_fit(adj@),
                v0.len() == n,
                visited@.len() == n,
                *nb == adj@[node as int],
                node < n,
                h < m0,
                comp@[h as int] == node,
                m0 <= comp@.len(),
                cf0 == count_false(v0),
                comp@.len() + count_false(visited@) == cf0,
                t <= nb@.len(),
                comp@.len() > 0,
                comp@[0] == start,
                reaches(adj@, start, node),
                forall|x: int| 0 <= x < n ==> (#[trigger] visited@[x] <==> v0[x] || comp@.contains(x as usize)),
                forall|i: int, j: int| 0 <= i < j < comp@.len() ==> #[trigger] comp@[i] != #[trigger] comp@[j],
                forall|i: int| 0 <= i < comp@.len() ==> #[trigger] comp@[i] < n,
                forall|i: int| 0 <= i < comp@.len() ==> !v0[#[trigger] comp@[i] as int],
                forall|i: int| 0 <= i < comp@.len() ==> reaches(adj@, start, #[trigger] comp@[i]),
                forall|u: int, t2: int|
                    0 <= u < h && 0 <= t2 < adj@[comp@[u] as int]@.len() ==> #[trigger] visited@[adj@[comp@[u] as int]@[t2] as int],
                forall|t2: int| 0 <= t2 < t ==> #[trigger] visited@[nb@[t2] as int],
                discovery_ordered(adj@, comp@),
                breadth_first(adj@, comp@),
                forall|i: int| 0 < i < comp@.len() ==> #[trigger] met_before(adj@, comp@, i, h as int, t as int),
            decreases nb@.len() - t,
        {
            let z = nb[t];
            proof {
                assert(adj@[node as int]@[t as int] < n);
            }
            if !visited[z] {
                let ghost vb = visited@;
                let ghost cb = comp@;
                proof {
                    lemma_count_false_set(vb, z as int);
                    assert(!v0[z as int]);
                    assert(!cb.contains(z));
                    assert(adj@[node as int]@.contains(z));
                    lemma_reach_extend(adj@, start, node, z);
                    lemma_discovery_push(adj@, cb, h as int, z);
                    assert forall|w: int, b: int|
                        #[trigger] discovered_at(adj@, cb.push(z), cb.len() as int, w, b) implies h < w
                        || (h == w && t <= b) by {
                        assert(cb.push(z)[w] == cb[w]);
                        if w < h {
                            assert(vb[adj@[cb[w] as int]@[b] as int]);
                        } else if w == h && b < t {
                            assert(vb[nb@[b] as int]);
                        }
                    }
                    lemma_breadth_first_push(adj@, cb, z, h as int, t as int);
                }
                visited.set(z, true);
                comp.push(z);
                proof {
                    assert forall|x: int| 0 <= x < n implies (#[trigger] visited@[x] <==> v0[x]
                        || comp@.contains(x as usize)) by {
                        if cb.contains(x as usize) {
                            let w = choose|w: int| 0 <= w < cb.len() && cb[w] == x as usize;
                            assert(comp@[w] == x as usize);
                        }
                        if comp@.contains(x as usize) && x != z {
                            let w = choose|w: int| 0 <= w < comp@.len() && comp@[w] == x as usize;
                            assert(cb[w] == x as usize);
                        }
                        if x == z {
                            assert(comp@[cb.len() as int] == z);
                        }
                    }
                    assert forall|i: int, j: int| 0 <= i < j < comp@.len() implies #[trigger] comp@[i]
                        != #[trigger] comp@[j] by {
                        if j == cb.len() {
                            assert(cb[i] == comp@[i]);
                        } else {
                            assert(cb[i] != cb[j]);
                        }
                    }
                    assert forall|u: int, t2: int|
                        0 <= u < h && 0 <= t2 < adj@[comp@[u] as int]@.len() implies #[trigger] visited@[adj@[comp@[u] as int]@[t2] as int] by {
                        assert(comp@[u] == cb[u]);
                        assert(vb[adj@[cb[u] as int]@[t2] as int]);
                    }
                    assert forall|i: int| 0 <= i < comp@.len() implies reaches(
                        adj@,
                        start,
                        #[trigger] comp@[i],
                    ) by {
                        if i < cb.len() {
                            assert(comp@[i] == cb[i]);
                        }
                    }
                    assert forall|i: int| 0 < i < comp@.len() implies #[trigger] met_before(
                        adj@,
                        comp@,
                        i,
                        h as int,
                        t + 1,
                    ) by {
                        if i < cb.len() {
                            lemma_met_push(adj@, cb, z, i, h as int, t as int);
                            lemma_met_later(adj@, comp@, i, h as int, t as int, h as int, t + 1);
                        } else {
                            assert(comp@[h as int] == node);
                            assert(discovered_at(adj@, comp@, i, h as int, t as int));
                        }
                    }
                }
            } else {
                proof {
                    assert forall|i: int| 0 < i < comp@.len() implies #[trigger] met_before(
                        adj@,
                        comp@,
                        i,
                        h as int,
                        t + 1,
                    ) by {
                        lemma_met_later(adj@, comp@, i, h as int, t as int, h as int, t + 1);
                    }
                }
            }
            t = t + 1;
        }
        proof {
            assert forall|u: int, t2: int|
                0 <= u < h + 1 && 0 <= t2 < adj@[comp@[u] as int]@.len() implies #[trigger] visited@[adj@[comp@[u] as int]@[t2] as int] by {
                if u == h {
                    assert(nb@[t2] == adj@[comp@[u] as int]@[t2]);
                }
            }
            assert forall|i: int| 0 < i < comp@.len() implies #[trigger] met_before(
                adj@,
                comp@,
                i,
                h + 1,
                0,
            ) by {
                lemma_met_later(adj@, comp@, i, h as int, t as int, h + 1, 0);
            }
            lemma_count_false_bound(visited@);
        }
        h = h + 1;
    }
    proof {
        let vis = visited@;
        assert forall|v: int, t: int|
            0 <= v < n && 0 <= t < adj@[v]@.len() && vis[v] implies #[trigger] vis[adj@[v]@[t] as int] by {
            if !v0[v] {
                assert(comp@.contains(v as usize));
                let u = choose|u: int| 0 <= u < comp@.len() && comp@[u] == v as usize;
                assert(vis[adj@[comp@[u] as int]@[t] as int]);
            }
        }
        assert forall|x: usize| x < n implies (#[trigger] comp@.contains(x) <==> reaches(adj@, start, x)
            && !v0[x as int]) by {
            if comp@.contains(x) {
                let w = choose|w: int| 0 <= w < comp@.len() && comp@[w] == x;
                assert(reaches(adj@, start, comp@[w]));
                assert(!v0[comp@[w] as int]);
            }
            if reaches(adj@, start, x) && !v0[x as int] {
                let path = choose|path: Seq<usize>|
                    #[trigger] is_walk(adj@, path) && path[0] == start && path[path.len() - 1] == x;
                assert(comp@.contains(start));
                lemma_closed_walk(adj@, vis, path, path.len() - 1);
            }
        }
    }
    comp
}

/// Connected components, found by breadth-first search from each node not
/// yet visited, in increasing order of start node.
///
/// Every node appears in exactly one component; a component consists of the
/// nodes reachable from its first node that no earlier component holds; its
/// first node is the smallest node outside the earlier components; every
/// later node is a neighbour of a node listed before it, and the nodes come
/// in breadth-first order, each adjacency list read from its start.
pub fn connected_components(adj: &Vec<Vec<usize>>) -> (comps: Vec<Vec<usize>>)
    requires
        neighbors_fit(adj@),
    ensures
        forall|x: usize|
            x < adj@.len() ==> #[trigger] in_components(adj_view(comps@), comps@.len() as int, x),
        forall|k: int, t: int|
            0 <= k < comps@.len() && 0 <= t < comps@[k]@.len() ==> #[trigger] comps@[k]@[t] < adj@.len(),
        forall|k1: int, t1: int, k2: int, t2: int|
            0 <= k1 < comps@.len() && 0 <= t1 < comps@[k1]@.len() && 0 <= k2 < comps@.len() && 0
                <= t2 < comps@[k2]@.len() && (k1 != k2 || t1 != t2) ==> #[trigger] comps@[k1]@[t1]
                != #[trigger] comps@[k2]@[t2],
        forall|k: int|
            0 <= k < comps@.len() ==> #[trigger] comps@[k]@.len() > 0 && !in_components(
                adj_view(comps@),
                k,
                comps@[k]@[0],
            ) && forall|y: usize|
                y < comps@[k]@[0] ==> #[trigger] in_components(adj_view(comps@), k, y),
        forall|k: int, x: usize|
            0 <= k < comps@.len() && x < adj@.len() ==> (#[trigger] comps@[k]@.contains(x) <==> reaches(
                adj@,
                comps@[k]@[0],
                x,
            ) && !in_components(adj_view(comps@), k, x)),
        forall|k: int| 0 <= k < comps@.len() ==> discovery_ordered(adj@, #[trigger] comps@[k]@),
        forall|k: int| 0 <= k < comps@.len() ==> breadth_first(adj@, #[trigger] comps@[k]@),
{
    let n = adj.len();
    let mut visited: Vec<bool> = Vec::new();
    let mut i: usize = 0;
    while i < n
        invariant
            i <= n,
            visited@.len() == i,
            forall|j: int| 0 <= j < i ==> !#[trigger] visited@[j],
        decreases n - i,
    {
        visited.push(false);
        i = i + 1;
    }
    let mut comps: Vec<Vec<usize>> = Vec::new();
    let mut start: usize = 0;
    while start < n
        invariant
            n == adj@.len(),
            neighbors_fit(adj@),
            start <= n,
            visited@.len() == n,
            forall|x: int|
                0 <= x < n ==> (#[trigger] visited@[x] <==> in_components(
                    adj_view(comps@),
                    comps@.len() as int,
                    x as usize,
                )),
            forall|v: int, t: int|
                0 <= v < n && 0 <= t < adj@[v]@.len() && visited@[v] ==> #[trigger] visited@[adj@[v]@[t] as int],
            forall|y: int| 0 <= y < start ==> #[trigger] visited@[y],
            forall|k: int, t: int|
                0 <= k < comps@.len() && 0 <= t < comps@[k]@.len() ==> #[trigger] comps@[k]@[t] < n,
            forall|k1: int, t1: int, k2: int, t2: int|
                0 <= k1 < comps@.len() && 0 <= t1 < comps@[k1]@.len() && 0 <= k2 < comps@.len() && 0
                    <= t2 < comps@[k2]@.len() && (k1 != k2 || t1 != t2) ==> #[trigger] comps@[k1]@[t1]
                    != #[trigger] comps@[k2]@[t2],
            forall|k: int|
                0 <= k < comps@.len() ==> #[trigger] comps@[k]@.len() > 0 && !in_components(
                    adj_view(comps@),
                    k,
                    comps@[k]@[0],
                ) && forall|y: usize|
                    y < comps@[k]@[0] ==> #[trigger] in_components(adj_view(comps@), k, y),
            forall|k: int, x: usize|
                0 <= k < comps@.len() && x < n ==> (#[trigger] comps@[k]@.contains(x) <==> reaches(
                    adj@,
                    comps@[k]@[0],
                    x,
                ) && !in_components(adj_view(comps@), k, x)),
            forall|k: int| 0 <= k < comps@.len() ==> discovery_ordered(adj@, #[trigger] comps@[k]@),
            forall|k: int| 0 <= k < comps@.len() ==> breadth_first(adj@, #[trigger] comps@[k]@),
        decreases n - start,
    {
        if !visited[start] {
            let ghost vb = visited@;
            let ghost cb = comps@;
            let comp = bfs(adj, &mut visited, start);
            let ghost cv = comp@;
            comps.push(comp);
            proof {
                let nc = comps@;
                let kk = cb.len() as int;
                assert(nc[kk]@ == cv);
                assert forall|j: int| 0 <= j < kk implies #[trigger] nc[j] == cb[j] by {}
                assert forall|j: int, x: usize| 0 <= j <= kk implies #[trigger] in_components(
                    adj_view(nc),
                    j,
                    x,
                ) == in_components(adj_view(cb), j, x) by {
                    if in_components(adj_view(nc), j, x) {
                        let q = choose|q: int| 0 <= q < j && #[trigger] adj_view(nc)[q].contains(x);
                        assert(adj_view(cb)[q] == adj_view(nc)[q]);
                    }
                    if in_components(adj_view(cb), j, x) {
                        let q = choose|q: int| 0 <= q < j && #[trigger] adj_view(cb)[q].contains(x);
                        assert(adj_view(cb)[q] == adj_view(nc)[q]);
                    }
                }
                assert forall|x: usize| #[trigger] in_components(adj_view(nc), kk + 1, x) == (
                in_components(adj_view(cb), kk, x) || cv.contains(x)) by {
                    if in_components(adj_view(nc), kk + 1, x) {
                        let q = choose|q: int| 0 <= q < kk + 1 && #[trigger] adj_view(nc)[q].contains(x);
                        if q < kk {
                            assert(adj_view(cb)[q] == adj_view(nc)[q]);
                        }
                    }
                    if in_components(adj_view(cb), kk, x) {
                        let q = choose|q: int| 0 <= q < kk && #[trigger] adj_view(cb)[q].contains(x);
                        assert(adj_view(cb)[q] == adj_view(nc)[q]);
                    }
                    if cv.contains(x) {
                        assert(adj_view(nc)[kk] == cv);
                    }
                }
                assert forall|x: int| 0 <= x < n implies (#[trigger] visited@[x] <==> in_components(
                    adj_view(nc),
                    nc.len() as int,
                    x as usize,
                )) by {
                    assert(in_components(adj_view(nc), kk + 1, x as usize) == (in_components(
                        adj_view(cb),
                        kk,
                        x as usize,
                    ) || cv.contains(x as usize)));
                }
                assert forall|y: int| 0 <= y < start + 1 implies #[trigger] visited@[y] by {
                    if y < start {
                        assert(vb[y]);
                    }
                }
                assert forall|k1: int, t1: int, k2: int, t2: int|
                    0 <= k1 < nc.len() && 0 <= t1 < nc[k1]@.len() && 0 <= k2 < nc.len() && 0 <= t2
                        < nc[k2]@.len() && (k1 != k2 || t1 != t2) implies #[trigger] nc[k1]@[t1]
                    != #[trigger] nc[k2]@[t2] by {
                    if k1 == kk && k2 < kk {
                        let x = nc[k2]@[t2];
                        assert(adj_view(cb)[k2].contains(x));
                        assert(in_components(adj_view(cb), kk, x));
                        assert(vb[x as int]);
                        assert(cv.contains(cv[t1]));
                    } else if k2 == kk && k1 < kk {
                        let x = nc[k1]@[t1];
                        assert(adj_view(cb)[k1].contains(x));
                        assert(in_components(adj_view(cb), kk, x));
                        assert(vb[x as int]);
                        assert(cv.contains(cv[t2]));
                    } else if k1 < kk && k2 < kk {
                        assert(cb[k1]@[t1] != cb[k2]@[t2]);
                    }
                }
                assert forall|k: int| 0 <= k < nc.len() implies #[trigger] nc[k]@.len() > 0
                    && !in_components(adj_view(nc), k, nc[k]@[0]) && forall|y: usize|
                    y < nc[k]@[0] ==> #[trigger] in_components(adj_view(nc), k, y) by {
                    assert(in_components(adj_view(nc), k, nc[k]@[0]) == in_components(
                        adj_view(cb),
                        k,
                        nc[k]@[0],
                    ));
                    assert forall|y: usize| y < nc[k]@[0] implies #[trigger] in_components(
                        adj_view(nc),
                        k,
                        y,
                    ) by {
                        assert(in_components(adj_view(nc), k, y) == in_components(
                            adj_view(cb),
                            k,
                            y,
                        ));
                        if k == kk {
                            assert(vb[y as int]);
                        }
                    }
                    if k == kk {
                        assert(!vb[start as int]);
                    }
                }
                assert forall|k: int, x: usize| 0 <= k < nc.len() && x < n implies (
                #[trigger] nc[k]@.contains(x) <==> reaches(adj@, nc[k]@[0], x) && !in_components(
                    adj_view(nc),
                    k,
                    x,
                )) by {
                    assert(in_components(adj_view(nc), k, x) == in_components(adj_view(cb), k, x));
                    if k == kk {
                        assert(vb[x as int] == in_components(adj_view(cb), kk, x));
                    }
                }
                assert forall|k: int| 0 <= k < nc.len() implies discovery_ordered(adj@, #[trigger] nc[k]@) by {
                    if k < kk {
                        assert(nc[k] == cb[k]);
                    }
                }
                assert forall|k: int| 0 <= k < nc.len() implies breadth_first(adj@, #[trigger] nc[k]@) by {
                    if k < kk {
                        assert(nc[k] == cb[k]);
                    }
                }
            }
        }
        start = start + 1;
    }
    proof {
        assert forall|x: usize| x < n implies #[trigger] in_components(
            adj_view(comps@),
            comps@.len() as int,
            x,
        ) by {
            assert(visited@[x as int]);
        }
    }
    comps
}

} // verus!

verus! {

/// Adjacency lists are symmetric and record exactly the edges given: `y`
/// is a neighbour of `x` iff some edge joins `x` and `y` (in either
/// direction); no list repeats a neighbour.
pub proof fn lemma_adjacency(n: nat, edges: Seq<(usize, usize)>, k: int)
    requires
        0 <= k <= edges.len(),
    ensures
        adjacency_upto(n, edges, k).len() == n,
        forall|x: usize, y: usize|
            x < n && y < n ==> (#[trigger] adjacency_upto(n, edges, k)[x as int].contains(y) <==> exists|
                e: int,
            | 0 <= e < k && (#[trigger] edges[e] == (x, y) || edges[e] == (y, x))),
        forall|x: int, i: int, j: int|
            0 <= x < n && 0 <= i < j < adjacency_upto(n, edges, k)[x].len() ==> #[trigger] adjacency_upto(
                n,
                edges,
                k,
            )[x][i] != #[trigger] adjacency_upto(n, edges, k)[x][j],
    decreases k,
{
    lemma_adjacency_len(n, edges, k);
    if k > 0 {
        lemma_adjacency(n, edges, k - 1);
        let prev = adjacency_upto(n, edges, k - 1);
        let cur = adjacency_upto(n, edges, k);
        let a = edges[k - 1].0;
        let b = edges[k - 1].1;
        assert forall|x: usize, y: usize| x < n && y < n implies (#[trigger] cur[x as int].contains(y)
            <==> exists|e: int| 0 <= e < k && (#[trigger] edges[e] == (x, y) || edges[e] == (y, x))) by {
            if exists|e: int| 0 <= e < k - 1 && (#[trigger] edges[e] == (x, y) || edges[e] == (y, x)) {
                let e = choose|e: int| 0 <= e < k - 1 && (#[trigger] edges[e] == (x, y) || edges[e] == (y, x));
                assert(prev[x as int].contains(y));
            }
            if exists|e: int| 0 <= e < k && (#[trigger] edges[e] == (x, y) || edges[e] == (y, x)) {
                let e = choose|e: int| 0 <= e < k && (#[trigger] edges[e] == (x, y) || edges[e] == (y, x));
                if e < k - 1 {
                    assert(exists|e2: int| 0 <= e2 < k - 1 && (#[trigger] edges[e2] == (x, y) || edges[e2] == (y, x)));
                }
            }
            if a < n && b < n {
                let s1 = prev.update(a as int, add_unique(prev[a as int], b));
                if prev[x as int].contains(y) {
                    let w = choose|w: int| 0 <= w < prev[x as int].len() && prev[x as int][w] == y;
                    assert(s1[x as int].contains(y)) by {
                        assert(s1[x as int][w] == y);
                    }
                    assert(cur[x as int][w] == y);
                }
                if cur[x as int].contains(y) && !prev[x as int].contains(y) {
                    let w = choose|w: int| 0 <= w < cur[x as int].len() && cur[x as int][w] == y;
                    if x == b {
                        if s1[b as int].contains(y) {
                            if b != a {
                                assert(s1[b as int] == prev[b as int]);
                            } else {
                                let w2 = choose|w2: int| 0 <= w2 < s1[b as int].len() && s1[b as int][w2] == y;
                                if w2 < prev[a as int].len() {
                                    assert(prev[a as int][w2] == y);
                                }
                            }
                        } else {
                            assert(y == a);
                        }
                    } else {
                        assert(x == a);
                        if w < prev[a as int].len() {
                            assert(prev[a as int][w] == y);
                        }
                    }
                    assert(edges[k - 1] == (x, y) || edges[k - 1] == (y, x));
                }
                if edges[k - 1] == (x, y) || edges[k - 1] == (y, x) {
                    if x == b {
                        assert(cur[b as int] == add_unique(s1[b as int], a));
                        assert(cur[b as int].contains(a)) by {
                            if !s1[b as int].contains(a) {
                                assert(cur[b as int][s1[b as int].len() as int] == a);
                            }
                        }
                        if y != a {
                            assert(x == a && y == b);
                        }
                    } else {
                        assert(x == a);
                        assert(y == b);
                        assert(s1[a as int].contains(b)) by {
                            if !prev[a as int].contains(b) {
                                assert(s1[a as int][prev[a as int].len() as int] == b);
                            }
                        }
                        let w = choose|w: int| 0 <= w < s1[a as int].len() && s1[a as int][w] == b;
                        assert(cur[a as int][w] == b);
                    }
                }
            }
        }
        assert forall|x: int, i: int, j: int|
            0 <= x < n && 0 <= i < j < cur[x].len() implies #[trigger] cur[x][i] != #[trigger] cur[x][j] by {
            if a < n && b < n {
                let s1 = prev.update(a as int, add_unique(prev[a as int], b));
                assert forall|x2: int, i2: int, j2: int|
                    0 <= x2 < n && 0 <= i2 < j2 < s1[x2].len() implies s1[x2][i2] != s1[x2][j2] by {
                    if x2 == a && j2 == prev[a as int].len() {
                        assert(!prev[a as int].contains(b));
                        assert(prev[a as int][i2] != b);
                    } else {
                        assert(prev[x2][i2] != prev[x2][j2]);
                    }
                }
                if x == b && j == s1[b as int].len() {
                    assert(!s1[b as int].contains(a));
                    assert(s1[b as int][i] != a);
                } else {
                    assert(s1[x][i] != s1[x][j]);
                }
            }
        }
    }
}

} // verus!

verus! {

/// Every adjacency is mutual.
pub open spec fn symmetric_adjacency(adj: Seq<Vec<usize>>) -> bool {
    forall|x: int, y: usize|
        0 <= x < adj.len() && y < adj.len() && #[trigger] adj[x]@.contains(y) ==> adj[y as int]@.contains(
            x as usize,
        )
}

proof fn lemma_reach_trans(adj: Seq<Vec<usize>>, x: usize, y: usize, z: usize)
    requires
        reaches(adj, x, y),
        reaches(adj, y, z),
    ensures
        reaches(adj, x, z),
{
    let p1 = choose|path: Seq<usize>|
        #[trigger] is_walk(adj, path) && path[0] == x && path[path.len() - 1] == y;
    let p2 = choose|path: Seq<usize>|
        #[trigger] is_walk(adj, path) && path[0] == y && path[path.len() - 1] == z;
    let p = p1 + p2.drop_first();
    assert forall|k: int| 0 <= k < p.len() implies #[trigger] p[k] < adj.len() by {
        if k < p1.len() {
            assert(p[k] == p1[k]);
        } else {
            assert(p[k] == p2[k - p1.len() + 1]);
        }
    }
    assert forall|k: int| 0 <= k < p.len() - 1 implies adj[#[trigger] p[k] as int]@.contains(p[k + 1]) by {
        if k < p1.len() - 1 {
            assert(p[k] == p1[k]);
            assert(p[k + 1] == p1[k + 1]);
            assert(adj[p1[k] as int]@.contains(p1[k + 1]));
        } else if k == p1.len() - 1 {
            assert(p[k] == y);
            assert(p[k + 1] == p2[1]);
            assert(adj[p2[0] as int]@.contains(p2[1]));
        } else {
            let m = k - p1.len() + 1;
            assert(p[k] == p2[m]);
            assert(p[k + 1] == p2[m + 1]);
            assert(adj[p2[m] as int]@.contains(p2[m + 1]));
        }
    }
    if p2.len() == 1 {
        assert(p =~= p1);
    } else {
        assert(p[p.len() - 1] == p2[p2.len() - 1]);
    }
    assert(is_walk(adj, p));
}

proof fn lemma_reach_symm(adj: Seq<Vec<usize>>, x: usize, y: usize)
    requires
        symmetric_adjacency(adj),
        reaches(adj, x, y),
    ensures
        reaches(adj, y, x),
{
    let path = choose|path: Seq<usize>|
        #[trigger] is_walk(adj, path) && path[0] == x && path[path.len() - 1] == y;
    let rev = path.reverse();
    assert forall|k: int| 0 <= k < rev.len() implies #[trigger] rev[k] < adj.len() by {
        assert(rev[k] == path[path.len() - 1 - k]);
    }
    assert forall|k: int| 0 <= k < rev.len() - 1 implies adj[#[trigger] rev[k] as int]@.contains(rev[k + 1]) by {
        let m = path.len() - 2 - k;
        assert(adj[path[m] as int]@.contains(path[m + 1]));
        assert(rev[k] == path[m + 1]);
        assert(rev[k + 1] == path[m]);
        assert((path[m] as int) as usize == path[m]);
    }
    assert(is_walk(adj, rev));
}

/// With mutual adjacency, the component holding `x` holds exactly the nodes
/// reachable from `x` (for any split that meets the contract of
/// [`connected_components`]).
pub proof fn lemma_component_is_reach_class(adj: Seq<Vec<usize>>, comps: Seq<Seq<usize>>, k: int, x: usize, y: usize)
    requires
        symmetric_adjacency(adj),
        forall|k1: int, t1: int, k2: int, t2: int|
            0 <= k1 < comps.len() && 0 <= t1 < comps[k1].len() && 0 <= k2 < comps.len() && 0 <= t2
                < comps[k2].len() && (k1 != k2 || t1 != t2) ==> #[trigger] comps[k1][t1]
                != #[trigger] comps[k2][t2],
        forall|k: int| 0 <= k < comps.len() ==> #[trigger] comps[k].len() > 0,
        forall|k: int, x: usize|
            0 <= k < comps.len() && x < adj.len() ==> (#[trigger] comps[k].contains(x) <==> reaches(
                adj,
                comps[k][0],
                x,
            ) && !in_components(comps, k, x)),
        0 <= k < comps.len(),
        x < adj.len(),
        y < adj.len(),
        comps[k].contains(x),
    ensures
        comps[k].contains(y) <==> reaches(adj, x, y),
{
    let s = comps[k][0];
    assert(reaches(adj, s, x));
    lemma_reach_symm(adj, s, x);
    if comps[k].contains(y) {
        assert(reaches(adj, s, y));
        lemma_reach_trans(adj, x, s, y);
    }
    if reaches(adj, x, y) {
        lemma_reach_trans(adj, s, x, y);
        if in_components(comps, k, y) {
            let j = choose|j: int| 0 <= j < k && #[trigger] comps[j].contains(y);
            let sj = comps[j][0];
            assert(reaches(adj, sj, y));
            lemma_reach_symm(adj, x, y);
            lemma_reach_trans(adj, sj, y, x);
            if in_components(comps, j, x) {
                let j2 = choose|j2: int| 0 <= j2 < j && #[trigger] comps[j2].contains(x);
                let t2 = choose|t: int| 0 <= t < comps[j2].len() && comps[j2][t] == x;
                let t1 = choose|t: int| 0 <= t < comps[k].len() && comps[k][t] == x;
                assert(comps[j2][t2] == comps[k][t1]);
            } else {
                assert(comps[j].contains(x));
                let t2 = choose|t: int| 0 <= t < comps[j].len() && comps[j][t] == x;
                let t1 = choose|t: int| 0 <= t < comps[k].len() && comps[k][t] == x;
                assert(comps[j][t2] == comps[k][t1]);
            }
        }
    }
}

} // verus!
