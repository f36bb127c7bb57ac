//! Single-linkage connectivity among the positions of a point list.
//!
//! `linked[p][q]` says that data points `p` and `q` lie within the clustering
//! threshold of each other. Positions `i < j` of a point list are linked when
//! `linked[points[i]][points[j]]` holds; two positions are chained when a
//! sequence of linked positions leads from one to the other.
use vstd::prelude::*;

verus! {

/// Every point of the list indexes a row of the square linkage matrix.
pub open spec fn linkage_fits(points: Seq<usize>, linked: Seq<Vec<bool>>) -> bool {
    &&& forall|i: int| 0 <= i < points.len() ==> #[trigger] points[i] < linked.len()
    &&& forall|p: int| 0 <= p < linked.len() ==> #[trigger] linked[p]@.len() == linked.len()
}

/// Positions `i` and `j` are directly linked (the pair is read in increasing
/// position order, as the clustering examines it).
pub open spec fn linked_pair(points: Seq<usize>, linked: Seq<Vec<bool>>, i: int, j: int) -> bool {
    ||| (i < j && linked[points[i] as int]@[points[j] as int])
    ||| (j < i && linked[points[j] as int]@[points[i] as int])
}

/// `path` is a sequence of positions in which each step is a direct link.
pub open spec fn is_chain(points: Seq<usize>, linked: Seq<Vec<bool>>, path: Seq<int>) -> bool {
    &&& path.len() >= 1
    &&& forall|k: int| 0 <= k < path.len() ==> 0 <= #[trigger] path[k] < points.len()
    &&& forall|k: int|
        0 <= k < path.len() - 1 ==> linked_pair(points, linked, #[trigger] path[k], path[k + 1])
}

/// Positions `i` and `j` are joined by a chain of direct links.
pub open spec fn chained(points: Seq<usize>, linked: Seq<Vec<bool>>, i: int, j: int) -> bool {
    exists|path: Seq<int>|
        #[trigger] is_chain(points, linked, path) && path[0] == i && path[path.len() - 1] == j
}

/// Every position is chained to itself.
pub proof fn lemma_chain_refl(points: Seq<usize>, linked: Seq<Vec<bool>>, i: int)
    requires
        0 <= i < points.len(),
    ensures
        chained(points, linked, i, i),
{
    let path = seq![i];
    assert(is_chain(points, linked, path));
}

/// A direct link is a chain.
pub proof fn lemma_chain_step(points: Seq<usize>, linked: Seq<Vec<bool>>, i: int, j: int)
    requires
        0 <= i < points.len(),
        0 <= j < points.len(),
        linked_pair(points, linked, i, j),
    ensures
        chained(points, linked, i, j),
{
    let path = seq![i, j];
    assert(is_chain(points, linked, path));
}

/// Chains can be walked backwards.
pub proof fn lemma_chain_symm(points: Seq<usize>, linked: Seq<Vec<bool>>, i: int, j: int)
    requires
        chained(points, linked, i, j),
    ensures
        chained(points, linked, j, i),
{
    let path = choose|path: Seq<int>|
        #[trigger] is_chain(points, linked, path) && path[0] == i && path[path.len() - 1] == j;
    let rev = path.reverse();
    assert forall|k: int| 0 <= k < rev.len() - 1 implies linked_pair(
        points,
        linked,
        #[trigger] rev[k],
        rev[k + 1],
    ) by {
        let m = path.len() - 2 - k;
        assert(linked_pair(points, linked, path[m], path[m + 1]));
        assert(rev[k] == path[m + 1]);
        assert(rev[k + 1] == path[m]);
    }
    assert forall|k: int| 0 <= k < rev.len() implies 0 <= #[trigger] rev[k] < points.len() by {
        assert(rev[k] == path[path.len() - 1 - k]);
    }
    assert(is_chain(points, linked, rev));
}

/// Two chains that meet join into one.
pub proof fn lemma_chain_trans(points: Seq<usize>, linked: Seq<Vec<bool>>, i: int, j: int, l: int)
    requires
        chained(points, linked, i, j),
        chained(points, linked, j, l),
    ensures
        chained(points, linked, i, l),
{
    let p1 = choose|path: Seq<int>|
        #[trigger] is_chain(points, linked, path) && path[0] == i && path[path.len() - 1] == j;
    let p2 = choose|path: Seq<int>|
        #[trigger] is_chain(points, linked, path) && path[0] == j && path[path.len() - 1] == l;
    let p = p1 + p2.drop_first();
    assert forall|k: int| 0 <= k < p.len() implies 0 <= #[trigger] p[k] < points.len() by {
        if k < p1.len() {
            assert(p[k] == p1[k]);
        } else {
            assert(p[k] == p2[k - p1.len() + 1]);
        }
    }
    assert forall|k: int| 0 <= k < p.len() - 1 implies linked_pair(
        points,
        linked,
        #[trigger] p[k],
        p[k + 1],
    ) by {
        if k < p1.len() - 1 {
            assert(p[k] == p1[k]);
            assert(p[k + 1] == p1[k + 1]);
            assert(linked_pair(points, linked, p1[k], p1[k + 1]));
        } else if k == p1.len() - 1 {
            assert(p[k] == j);
            assert(p[k + 1] == p2[1]);
            assert(linked_pair(points, linked, p2[0], p2[1]));
        } else {
            let m = k - p1.len() + 1;
            assert(p[k] == p2[m]);
            assert(p[k + 1] == p2[m + 1]);
            assert(linked_pair(points, linked, p2[m], p2[m + 1]));
        }
    }
    if p2.len() == 1 {
        assert(p =~= p1);
    } else {
        assert(p[p.len() - 1] == p2[p2.len() - 1]);
    }
    assert(is_chain(points, linked, p));
}

} // verus!
