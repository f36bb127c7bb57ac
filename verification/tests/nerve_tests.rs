use mapper_agent::cluster::{build_cluster_map, cluster_all_intervals, ClusterID, ClusterMap};
use mapper_agent::nerve::{build_nerve, edges, simplex_counts_by_dim, triangles};
use mapper_agent::SimplicialComplex;

fn make_clusters() -> ClusterMap {
    let mut m = ClusterMap::new();
    m.insert(ClusterID::new(0, 0), vec![0, 1, 2]);
    m.insert(ClusterID::new(1, 0), vec![2, 3]);
    m.insert(ClusterID::new(2, 0), vec![4, 5]);
    m
}

#[test]
fn test_build_nerve_basic() {
    let clusters = make_clusters();
    let nerve = build_nerve(&clusters);
    assert_eq!(nerve.vertices.len(), 3);
    let edge_list = edges(&nerve);
    assert_eq!(edge_list.len(), 1);
    let sharing: Vec<usize> = nerve
        .vertices
        .iter()
        .enumerate()
        .filter(|(_, v)| v.point_indices.contains(&2))
        .map(|(i, _)| i)
        .collect();
    assert_eq!(sharing.len(), 2);
    let (a, b) = (sharing[0].min(sharing[1]), sharing[0].max(sharing[1]));
    assert!(edge_list.contains(&(a, b)));
}

#[test]
fn test_nerve_no_overlap() {
    let mut clusters = ClusterMap::new();
    clusters.insert(ClusterID::new(0, 0), vec![0, 1]);
    clusters.insert(ClusterID::new(1, 0), vec![2, 3]);
    let nerve = build_nerve(&clusters);
    assert_eq!(edges(&nerve).len(), 0);
}

#[test]
fn test_nerve_empty() {
    let clusters = ClusterMap::new();
    let nerve = build_nerve(&clusters);
    assert!(nerve.vertices.is_empty());
    assert!(nerve.simplices.is_empty());
}

#[test]
fn test_nerve_triangle() {
    let mut clusters = ClusterMap::new();
    clusters.insert(ClusterID::new(0, 0), vec![0, 1]);
    clusters.insert(ClusterID::new(1, 0), vec![0, 2]);
    clusters.insert(ClusterID::new(2, 0), vec![0, 3]);
    let nerve = build_nerve(&clusters);
    let tris = triangles(&nerve);
    assert_eq!(tris.len(), 1);
}

#[test]
fn test_simplex_counts() {
    let clusters = make_clusters();
    let nerve = build_nerve(&clusters);
    let counts = simplex_counts_by_dim(&nerve);
    assert_eq!(counts.get(&0), Some(&3));
    assert!(counts.get(&1).map_or(false, |&c| c >= 1));
}

#[test]
fn test_single_cluster() {
    let mut clusters = ClusterMap::new();
    clusters.insert(ClusterID::new(0, 0), vec![0, 1, 2]);
    let nerve = build_nerve(&clusters);
    assert_eq!(nerve.vertices.len(), 1);
    assert!(nerve.simplices.is_empty());
}

// ─── further cases ──────────────────────────────────────────────────────────

#[test]
fn nerve_lists_all_faces_sorted() {
    let mut clusters = ClusterMap::new();
    clusters.insert(ClusterID::new(0, 0), vec![0, 9]);
    clusters.insert(ClusterID::new(1, 0), vec![0, 7]);
    clusters.insert(ClusterID::new(2, 0), vec![0, 7]);
    clusters.insert(ClusterID::new(3, 0), vec![8]);
    let nerve = build_nerve(&clusters);
    // point 0 is shared by vertices 0, 1, 2; point 7 by 1, 2
    assert_eq!(
        nerve.simplices,
        vec![vec![0, 1], vec![0, 2], vec![1, 2], vec![0, 1, 2]]
    );
    assert_eq!(edges(&nerve), vec![(0, 1), (0, 2), (1, 2)]);
    assert_eq!(triangles(&nerve), vec![(0, 1, 2)]);
    let counts = simplex_counts_by_dim(&nerve);
    assert_eq!(counts.len(), 3);
    assert_eq!(counts.get(&0), Some(&4));
    assert_eq!(counts.get(&1), Some(&3));
    assert_eq!(counts.get(&2), Some(&1));
}

#[test]
fn nerve_keeps_map_order_for_vertices() {
    let clusters = make_clusters();
    let nerve = build_nerve(&clusters);
    assert_eq!(nerve.vertices[0].cluster_id, ClusterID::new(0, 0));
    assert_eq!(nerve.vertices[1].cluster_id, ClusterID::new(1, 0));
    assert_eq!(nerve.vertices[2].point_indices, vec![4, 5]);
    assert_eq!(nerve.simplices, vec![vec![0, 1]]);
}

#[test]
fn nerve_of_many_sharing_clusters_keeps_every_face() {
    let mut clusters = ClusterMap::new();
    for i in 0..17 {
        clusters.insert(ClusterID::new(i, 0), vec![100]);
    }
    let nerve = build_nerve(&clusters);
    // 17 clusters share point 100: every selection of 2 or more of them
    assert_eq!(nerve.simplices.len(), (1usize << 17) - 17 - 1);
    assert_eq!(nerve.simplices[0], vec![0, 1]);
    assert_eq!(nerve.simplices[nerve.simplices.len() - 1], (0..17).collect::<Vec<usize>>());
    assert!(nerve.simplices.contains(&vec![0, 1, 2]));
    assert!(nerve.simplices.contains(&vec![3, 9, 16]));
    // C(17, 3) triangles
    assert_eq!(triangles(&nerve).len(), 680);
    let counts = simplex_counts_by_dim(&nerve);
    assert_eq!(counts.get(&16), Some(&1));
    assert_eq!(counts.get(&15), Some(&17));
}

#[test]
fn counts_include_one_vertex_simplices_in_dimension_zero() {
    let complex = SimplicialComplex {
        vertices: vec![],
        simplices: vec![vec![4], vec![1, 2]],
    };
    let counts = simplex_counts_by_dim(&complex);
    assert_eq!(counts.get(&0), Some(&1));
    assert_eq!(counts.get(&1), Some(&1));
}

#[test]
fn every_interval_point_reaches_a_nerve_vertex() {
    // points 0..6; 0-1-2 linked in a chain, 3 alone, 4-5 linked
    let n = 6;
    let mut linked = vec![vec![false; n]; n];
    for &(a, b) in &[(0, 1), (1, 2), (4, 5)] {
        linked[a][b] = true;
        linked[b][a] = true;
    }
    let sets = vec![vec![0, 1, 3], vec![2, 3, 4], vec![], vec![5, 4]];
    let map = build_cluster_map(&cluster_all_intervals(&sets, &linked));
    let nerve = build_nerve(&map);
    for set in &sets {
        for p in set {
            assert!(nerve.vertices.iter().any(|v| v.point_indices.contains(p)));
        }
    }
    // interval 0: {0,1}, {3}; interval 1: {2}, {3}, {4}; interval 3: {5,4}
    assert_eq!(nerve.vertices.len(), 6);
    assert_eq!(edges(&nerve), vec![(1, 3), (4, 5)]);
}
