use mapper_agent::cover::{assign_points, covers_all_points};

/// Interval membership for filter values `0.0 ..= n-1` split into
/// `num_intervals` overlapping intervals, as the cover construction lays
/// them out (the last interval ends at the maximum).
fn memberships(n: usize, num_intervals: usize, overlap: f64) -> Vec<Vec<bool>> {
    let values: Vec<f64> = (0..n).map(|i| i as f64).collect();
    let fmin = 0.0;
    let fmax = (n - 1) as f64;
    let w = (fmax - fmin) / (num_intervals as f64 * (1.0 - overlap) + overlap);
    let step = w * (1.0 - overlap);
    let bounds: Vec<(f64, f64)> = (0..num_intervals)
        .map(|i| {
            let start = fmin + i as f64 * step;
            let end = if i == num_intervals - 1 { fmax } else { start + w };
            (start, end)
        })
        .collect();
    values
        .iter()
        .map(|v| bounds.iter().map(|(s, e)| *v >= *s && *v <= *e).collect())
        .collect()
}

#[test]
fn test_cover_basic() {
    let sets = assign_points(&memberships(10, 3, 0.3), 3);
    assert_eq!(sets.len(), 3);
    assert!(covers_all_points(&sets, 10), "Every point should be covered: {:?}", sets);
}

#[test]
fn test_cover_overlap() {
    let sets = assign_points(&memberships(10, 5, 0.3), 5);
    let total_assignments: usize = sets.iter().map(|s| s.len()).sum();
    assert!(
        total_assignments > 10,
        "With overlap, total assignments should exceed point count"
    );
}

// ─── further cases ──────────────────────────────────────────────────────────

#[test]
fn assign_points_lists_marked_points_in_order() {
    let rows = vec![
        vec![true, false, false],
        vec![true, true, false],
        vec![false, true, false],
        vec![false, true, false],
    ];
    assert_eq!(assign_points(&rows, 3), vec![vec![0, 1], vec![1, 2, 3], vec![]]);
}

#[test]
fn assign_points_without_points_or_intervals() {
    assert_eq!(assign_points(&vec![], 2), vec![Vec::<usize>::new(), vec![]]);
    assert!(assign_points(&vec![vec![], vec![]], 0).is_empty());
}

#[test]
fn uncovered_point_is_reported() {
    let rows = vec![vec![true, false], vec![false, false], vec![false, true]];
    let sets = assign_points(&rows, 2);
    assert_eq!(sets, vec![vec![0], vec![2]]);
    assert!(!covers_all_points(&sets, 3));
    assert!(covers_all_points(&sets, 1));
}
