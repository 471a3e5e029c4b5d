use mcf_timetable::graph::{dot_code, TimetableGraph};
use mcf_timetable::graph_weight::{TimetableEdge, TimetableNode};
use mcf_timetable::simple_paths::all_simple_paths_dfs_dorian;
use mcf_timetable::subgraph::subgraph_from_edges;
use petgraph::graph::{EdgeIndex, NodeIndex};
use std::collections::HashSet;

/// 0 -> 1 -> 2 (2 + 3 minutes), 0 -> 2 (10 minutes), 0 -> 3 -> 2 (1 + 1 minutes)
fn diamond() -> TimetableGraph {
    let mut g = TimetableGraph::default();
    for i in 0..4u64 {
        g.add_node(TimetableNode::Transfer { time: i, station_id: i, station_name: format!("S{}", i) });
    }
    let n = |i: usize| NodeIndex::new(i);
    g.add_edge(n(0), n(1), TimetableEdge::Walk { duration: 2 });
    g.add_edge(n(1), n(2), TimetableEdge::Walk { duration: 3 });
    g.add_edge(n(0), n(2), TimetableEdge::Walk { duration: 10 });
    g.add_edge(n(0), n(3), TimetableEdge::Walk { duration: 1 });
    g.add_edge(n(3), n(2), TimetableEdge::Walk { duration: 1 });
    g
}

#[test]
fn dorian_walks_within_limit() {
    let g = diamond();
    let found = all_simple_paths_dfs_dorian(&g, 0, 2, 8, 1);
    // the latest edge is tried first; the direct edge is too long and is found at the limit
    assert_eq!(found, vec![(6, vec![3, 4]), (0, vec![]), (3, vec![0, 1])]);
}

#[test]
fn dorian_walks_at_tight_limit() {
    let g = diamond();
    let found = all_simple_paths_dfs_dorian(&g, 0, 2, 5, 1);
    assert_eq!(found, vec![(3, vec![3, 4]), (0, vec![]), (0, vec![0])]);
}

#[test]
fn dorian_gives_up_remaining_edges() {
    let g = diamond();
    // the edge to node 1 does not fit and no later edge leads to the destination
    let found = all_simple_paths_dfs_dorian(&g, 0, 2, 2, 1);
    assert_eq!(found, vec![(0, vec![3]), (0, vec![])]);
}

#[test]
fn dorian_without_rides() {
    let g = diamond();
    let found = all_simple_paths_dfs_dorian(&g, 0, 2, 8, 0);
    assert_eq!(found, vec![(0, vec![2]), (0, vec![])]);
}

#[test]
fn dorian_from_missing_node() {
    let g = diamond();
    assert!(all_simple_paths_dfs_dorian(&g, 9, 2, 8, 1).is_empty());
}

#[test]
fn dot_code_lists_nodes_and_edges() {
    let g = diamond();
    let text = dot_code(&g);
    assert!(text.starts_with("digraph {"));
    assert!(text.contains("0 -> 1"));
    assert!(text.contains("3 -> 2"));
    assert!(text.contains("S3"));
}

#[test]
fn subgraph_keeps_listed_edges_and_their_nodes() {
    let g = diamond();
    // 0 -> 3 and 3 -> 2, and an index beyond the edges
    let edges: HashSet<usize> = [3, 4, 17].into_iter().collect();
    let sub = subgraph_from_edges(&g, &edges);
    assert_eq!(sub.node_count(), 3);
    let names: Vec<String> = sub.node_indices().map(|n| sub[n].station_name()).collect();
    assert_eq!(names, vec!["S0".to_string(), "S2".to_string(), "S3".to_string()]);
    assert_eq!(sub.edge_count(), 2);
    let ends: Vec<(usize, usize)> = (0..2)
        .map(|e| {
            let (a, b) = sub.edge_endpoints(EdgeIndex::new(e)).unwrap();
            (a.index(), b.index())
        })
        .collect();
    // node 3 is now at position 2, node 2 at position 1
    assert_eq!(ends, vec![(0, 2), (2, 1)]);
    assert!(matches!(sub[EdgeIndex::new(1)], TimetableEdge::Walk { duration: 1 }));
}
