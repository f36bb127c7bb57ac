use mapper_agent::ascii::{draw_line, render_ascii};
use mapper_agent::cluster::{ClusterID, ClusterMap};
use mapper_agent::cover::covers_all_points;
use mapper_agent::nerve::{build_nerve, edges};
use mapper_agent::text::{dot_text, edge_list_text};
use mapper_agent::visualization::{build_adjacency, connected_components};
use mapper_agent::SimplicialComplex;

fn test_nerve() -> SimplicialComplex {
    let mut clusters = ClusterMap::new();
    clusters.insert(ClusterID::new(0, 0), vec![0, 1]);
    clusters.insert(ClusterID::new(1, 0), vec![1, 2]);
    build_nerve(&clusters)
}

fn nodes_of(nerve: &SimplicialComplex) -> Vec<(usize, usize)> {
    nerve
        .vertices
        .iter()
        .enumerate()
        .map(|(i, v)| (i, v.point_indices.len()))
        .collect()
}

#[test]
fn test_mapper_graph_from_nerve() {
    let nerve = test_nerve();
    let edge_list = edges(&nerve);
    let adj = build_adjacency(nerve.vertices.len(), &edge_list);
    assert_eq!(adj.len(), 2);
    assert!(edge_list.len() >= 1);
}

#[test]
fn test_connected_components_single() {
    let nerve = test_nerve();
    let adj = build_adjacency(nerve.vertices.len(), &edges(&nerve));
    let cc = connected_components(&adj);
    assert_eq!(cc.len(), 1);
}

#[test]
fn test_connected_components_disconnected() {
    let mut clusters = ClusterMap::new();
    clusters.insert(ClusterID::new(0, 0), vec![0]);
    clusters.insert(ClusterID::new(1, 0), vec![1]);
    let nerve = build_nerve(&clusters);
    let adj = build_adjacency(nerve.vertices.len(), &edges(&nerve));
    let cc = connected_components(&adj);
    assert_eq!(cc.len(), 2);
}

#[test]
fn test_to_dot() {
    let nerve = test_nerve();
    let dot = dot_text(&nodes_of(&nerve), &edges(&nerve));
    assert!(dot.starts_with("graph mapper {"));
    assert!(dot.contains("--"));
}

#[test]
fn test_to_edge_list() {
    let nerve = test_nerve();
    let edge_list = edges(&nerve);
    let el = edge_list_text(&edge_list);
    assert!(!el.is_empty() || edge_list.len() == 0);
}

#[test]
fn test_empty_graph() {
    let nerve = SimplicialComplex {
        vertices: vec![],
        simplices: vec![],
    };
    assert_eq!(nerve.vertices.len(), 0);
    let picture = render_ascii(&vec![], &vec![], &edges(&nerve), 20, 10);
    assert!(picture.contains("empty"));
}

#[test]
fn test_coverage_verification_fails() {
    // one interval holding only 2 of 10 points
    let intervals = vec![vec![0, 1]];
    assert!(!covers_all_points(&intervals, 10));
}

// ─── further cases ──────────────────────────────────────────────────────────

#[test]
fn coverage_passes_and_ignores_out_of_range() {
    let intervals = vec![vec![0, 1, 2], vec![2, 3, 17]];
    assert!(covers_all_points(&intervals, 4));
    assert!(!covers_all_points(&intervals, 5));
    assert!(covers_all_points(&vec![], 0));
}

#[test]
fn adjacency_is_symmetric_and_deduplicated() {
    let adj = build_adjacency(4, &vec![(0, 1), (1, 0), (1, 2), (2, 9), (3, 3)]);
    assert_eq!(adj, vec![vec![1], vec![0, 2], vec![1], vec![3]]);
}

#[test]
fn components_in_bfs_order() {
    // 0 - 2 - 3 chain, 1 alone, 4 - 5
    let adj = build_adjacency(6, &vec![(0, 2), (2, 3), (4, 5)]);
    let cc = connected_components(&adj);
    assert_eq!(cc, vec![vec![0, 2, 3], vec![1], vec![4, 5]]);
    let star = build_adjacency(4, &vec![(0, 3), (0, 1), (1, 2)]);
    assert_eq!(connected_components(&star), vec![vec![0, 3, 1, 2]]);
    assert!(connected_components(&vec![]).is_empty());
}

#[test]
fn components_go_level_by_level() {
    // breadth first: both children of 0 before any grandchild
    let adj = vec![vec![1, 2], vec![3, 0], vec![4, 0], vec![1], vec![2]];
    assert_eq!(connected_components(&adj), vec![vec![0, 1, 2, 3, 4]]);
    // a repeated neighbour is taken at its first place
    let adj = vec![vec![2, 1, 2], vec![0], vec![0]];
    assert_eq!(connected_components(&adj), vec![vec![0, 2, 1]]);
}

#[test]
fn dot_text_exact() {
    let dot = dot_text(&vec![(0, 2), (1, 12)], &vec![(0, 1)]);
    assert_eq!(
        dot,
        "graph mapper {\n  0 [label=\"n0 (size=2)\"];\n  1 [label=\"n1 (size=12)\"];\n  0 -- 1;\n}\n"
    );
}

#[test]
fn edge_list_text_exact() {
    assert_eq!(edge_list_text(&vec![(0, 1), (10, 205)]), "0\t1\n10\t205");
    assert_eq!(edge_list_text(&vec![]), "");
}

#[test]
fn draw_line_cells() {
    let mut canvas = vec![vec![' '; 5]; 3];
    draw_line(&mut canvas, 0, 0, 4, 2, '-');
    let rows: Vec<String> = canvas.iter().map(|r| r.iter().collect()).collect();
    assert_eq!(rows, vec!["-    ", " --  ", "   --"]);
    // only blank cells are drawn on; cells off the canvas are skipped
    let mut canvas = vec![vec![' ', 'o', ' ']];
    draw_line(&mut canvas, -2, 0, 5, 0, '-');
    assert_eq!(canvas, vec![vec!['-', 'o', '-']]);
}

#[test]
fn render_ascii_exact() {
    let picture = render_ascii(&vec![3, 8], &vec![(0, 0), (4, 2)], &vec![(0, 1)], 5, 3);
    assert_eq!(picture, "o    \n --  \n   -O\n");
    // nodes outside the canvas are not drawn
    let picture = render_ascii(&vec![1], &vec![(7, 0)], &vec![], 2, 1);
    assert_eq!(picture, "  \n");
}

#[test]
fn empty_graph_with_stray_edges_renders_empty() {
    assert_eq!(render_ascii(&vec![], &vec![], &vec![(0, 1), (3, 7)], 5, 3), "(empty graph)\n");
}
