use mapper_agent::cluster::{
    build_cluster_map, cluster_all_intervals, cluster_points, ClusterID, ClusterMap, UnionFind,
};

fn sample_data() -> Vec<Vec<f64>> {
    vec![
        vec![0.0, 0.0], // 0
        vec![0.5, 0.5], // 1
        vec![1.0, 1.0], // 2
        vec![5.0, 5.0], // 3 — far from others
        vec![5.5, 5.5], // 4 — close to 3
    ]
}

fn euclidean_distance(a: &[f64], b: &[f64]) -> f64 {
    a.iter().zip(b.iter()).map(|(x, y)| (x - y) * (x - y)).sum::<f64>().sqrt()
}

/// Which pairs of data points lie within `threshold` of each other.
fn linkage(data: &[Vec<f64>], threshold: f64) -> Vec<Vec<bool>> {
    let n = data.len();
    let mut linked = vec![vec![false; n]; n];
    for i in 0..n {
        for j in 0..n {
            linked[i][j] = euclidean_distance(&data[i], &data[j]) <= threshold;
        }
    }
    linked
}

#[test]
fn test_union_find_basic() {
    let mut uf = UnionFind::new(5);
    assert_eq!(uf.find(0), 0);
    assert_eq!(uf.num_sets(), 5);
    assert!(uf.union(0, 1));
    assert!(!uf.union(0, 1)); // already merged
    assert_eq!(uf.num_sets(), 4);
}

#[test]
fn test_union_find_path_compression() {
    let mut uf = UnionFind::new(5);
    uf.union(0, 1);
    uf.union(1, 2);
    uf.union(2, 3);
    let root = uf.find(3);
    assert_eq!(uf.find(0), root);
    assert_eq!(uf.find(1), root);
    assert_eq!(uf.find(2), root);
}

#[test]
fn test_union_find_large() {
    let mut uf = UnionFind::new(100);
    for i in 0..99 {
        uf.union(i, i + 1);
    }
    assert_eq!(uf.num_sets(), 1);
    let root = uf.find(0);
    for i in 0..100 {
        assert_eq!(uf.find(i), root);
    }
}

#[test]
fn test_cluster_two_groups() {
    let data = sample_data();
    let points = vec![0, 1, 2, 3, 4];
    let clusters = cluster_points(&points, &linkage(&data, 2.0));
    assert_eq!(clusters.len(), 2);
    for c in &clusters {
        if c.contains(&0) {
            assert!(c.contains(&1));
            assert!(c.contains(&2));
        }
        if c.contains(&3) {
            assert!(c.contains(&4));
        }
    }
}

#[test]
fn test_cluster_single_point() {
    let data = sample_data();
    let clusters = cluster_points(&[0], &linkage(&data, 1.0));
    assert_eq!(clusters.len(), 1);
    assert_eq!(clusters[0], vec![0]);
}

#[test]
fn test_cluster_empty() {
    let clusters = cluster_points(&[], &linkage(&sample_data(), 1.0));
    assert!(clusters.is_empty());
}

#[test]
fn test_cluster_all_merged() {
    let data = sample_data();
    let clusters = cluster_points(&[0, 1, 2, 3, 4], &linkage(&data, 100.0));
    assert_eq!(clusters.len(), 1);
    assert_eq!(clusters[0].len(), 5);
}

#[test]
fn test_cluster_all_intervals() {
    let data = sample_data();
    let intervals: Vec<Vec<usize>> = vec![vec![0, 1, 2], vec![3, 4]];
    let results = cluster_all_intervals(&intervals, &linkage(&data, 2.0));
    assert_eq!(results.len(), 2);
}

#[test]
fn test_build_cluster_map() {
    let data = sample_data();
    let intervals: Vec<Vec<usize>> = vec![vec![0, 1, 2], vec![3, 4]];
    let results = cluster_all_intervals(&intervals, &linkage(&data, 2.0));
    let map = build_cluster_map(&results);
    assert!(!map.is_empty());
    for (id, points) in map.entries() {
        assert!(!points.is_empty());
        assert_eq!(id.cluster, 0);
    }
}

#[test]
fn test_cluster_id() {
    let id = ClusterID::new(3, 7);
    assert_eq!(id.interval, 3);
    assert_eq!(id.cluster, 7);
}

// ─── further cases ──────────────────────────────────────────────────────────

#[test]
fn union_find_new_gives_singletons() {
    let mut uf = UnionFind::new(4);
    assert_eq!(uf.num_sets(), 4);
    for i in 0..4 {
        assert_eq!(uf.find(i), i);
    }
    let mut empty = UnionFind::new(0);
    assert_eq!(empty.num_sets(), 0);
}

#[test]
fn union_by_rank_keeps_root_of_first_on_equal_ranks() {
    let mut uf = UnionFind::new(4);
    // equal ranks: the representative of `a` survives
    assert!(uf.union(2, 3));
    assert_eq!(uf.find(3), 2);
    // {2,3} has rank 1, {0} rank 0: the lower-rank root goes below
    assert!(uf.union(0, 3));
    assert_eq!(uf.find(0), 2);
    assert_eq!(uf.num_sets(), 2);
}

#[test]
fn union_merges_exactly_two_sets() {
    let mut uf = UnionFind::new(6);
    uf.union(0, 1);
    uf.union(2, 3);
    uf.union(1, 3);
    assert_eq!(uf.find(0), uf.find(2));
    assert_ne!(uf.find(0), uf.find(4));
    assert_ne!(uf.find(4), uf.find(5));
    assert_eq!(uf.num_sets(), 3);
}

#[test]
fn clusters_chain_through_neighbours() {
    // 0 -- 1 -- 2 chained (each step 1.0), 3 isolated
    let data = vec![vec![0.0], vec![1.0], vec![2.0], vec![10.0]];
    let clusters = cluster_points(&[0, 1, 2, 3], &linkage(&data, 1.0));
    assert_eq!(clusters, vec![vec![0, 1, 2], vec![3]]);
}

#[test]
fn clusters_follow_first_positions() {
    // positions 0 and 2 close, 1 far: groups ordered by first position
    let data = vec![vec![0.0], vec![9.0], vec![0.5], vec![9.2]];
    let clusters = cluster_points(&[2, 1, 0, 3], &linkage(&data, 1.0));
    assert_eq!(clusters, vec![vec![2, 0], vec![1, 3]]);
}

#[test]
fn empty_intervals_are_skipped() {
    let data = sample_data();
    let intervals: Vec<Vec<usize>> = vec![vec![], vec![3, 4], vec![]];
    let results = cluster_all_intervals(&intervals, &linkage(&data, 2.0));
    assert_eq!(results.len(), 1);
    assert_eq!(results[0].interval_index, 1);
    assert_eq!(results[0].clusters, vec![vec![3, 4]]);
}

#[test]
fn cluster_map_ids_and_points() {
    let data = sample_data();
    let intervals: Vec<Vec<usize>> = vec![vec![0, 3], vec![1, 2]];
    let results = cluster_all_intervals(&intervals, &linkage(&data, 2.0));
    let map = build_cluster_map(&results);
    assert_eq!(map.len(), 3);
    assert_eq!(map.get(&ClusterID::new(0, 0)), Some(&vec![0]));
    assert_eq!(map.get(&ClusterID::new(0, 1)), Some(&vec![3]));
    assert_eq!(map.get(&ClusterID::new(1, 0)), Some(&vec![1, 2]));
    assert_eq!(map.get(&ClusterID::new(1, 1)), None);
}

#[test]
fn cluster_map_insert_replaces() {
    let mut map = ClusterMap::new();
    assert_eq!(map.insert(ClusterID::new(0, 0), vec![1, 2]), None);
    assert_eq!(map.insert(ClusterID::new(1, 0), vec![3]), None);
    assert_eq!(map.insert(ClusterID::new(0, 0), vec![4]), Some(vec![1, 2]));
    assert_eq!(map.len(), 2);
    assert_eq!(map.get(&ClusterID::new(0, 0)), Some(&vec![4]));
    assert_eq!(map.entries()[0].0, ClusterID::new(0, 0));
    assert_eq!(map.get(&ClusterID::new(1, 0)), Some(&vec![3]));
}

#[test]
fn every_interval_point_lands_in_a_cluster() {
    let data = sample_data();
    let intervals: Vec<Vec<usize>> = vec![vec![0, 1, 2, 3], vec![2, 3, 4]];
    let results = cluster_all_intervals(&intervals, &linkage(&data, 0.8));
    let map = build_cluster_map(&results);
    for set in &intervals {
        for p in set {
            assert!(map.entries().iter().any(|(_, pts)| pts.contains(p)));
        }
    }
}

#[test]
fn single_point_needs_no_linkage() {
    assert_eq!(cluster_points(&[42], &vec![]), vec![vec![42]]);
    let all = cluster_all_intervals(&[vec![], vec![7]], &vec![]);
    assert_eq!(all.len(), 1);
    assert_eq!(all[0].interval_index, 1);
    assert_eq!(all[0].clusters, vec![vec![7]]);
}

#[test]
fn union_history_decides_sets_and_count() {
    let n = 8;
    let mut uf = UnionFind::new(n);
    let pairs = [(0, 1), (2, 3), (1, 3), (0, 2), (5, 6), (6, 5), (4, 4)];
    let mut merges = 0;
    for &(a, b) in &pairs {
        if uf.union(a, b) {
            merges += 1;
        }
    }
    // chains of pairs: {0,1,2,3}, {4}, {5,6}, {7}
    assert_eq!(merges, 4);
    assert_eq!(uf.num_sets(), n - merges);
    let groups = [vec![0, 1, 2, 3], vec![4], vec![5, 6], vec![7]];
    for g in &groups {
        for h in &groups {
            let same = g == h;
            assert_eq!(uf.find(g[0]) == uf.find(h[0]), same);
        }
        for &x in g {
            assert_eq!(uf.find(x), uf.find(g[0]));
            let r = uf.find(x);
            assert_eq!(uf.find(r), r);
        }
    }
}

#[test]
fn union_find_from_links_checks_consistency() {
    let mut uf = UnionFind::new(4);
    uf.union(0, 1);
    uf.union(2, 3);
    uf.union(1, 3);
    let back = UnionFind::from_links(uf.parents().clone(), uf.ranks().clone()).unwrap();
    assert_eq!(back.parents(), uf.parents());
    assert_eq!(back.num_sets(), 1);
    // a cycle, a link out of range, a rank too large for its set
    assert!(UnionFind::from_links(vec![1, 0], vec![0, 0]).is_none());
    assert!(UnionFind::from_links(vec![5], vec![0]).is_none());
    assert!(UnionFind::from_links(vec![0, 1], vec![1, 0]).is_none());
    assert!(UnionFind::from_links(vec![0], vec![]).is_none());
    assert!(UnionFind::from_links(vec![1, 1], vec![0, 1]).is_some());
}
