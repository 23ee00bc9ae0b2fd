use lau_graph_theory::graph::Graph;
use lau_graph_theory::traversal::{bfs, dfs, topological_sort};

#[test]
fn test_bfs_simple() {
    let mut g: Graph<u64> = Graph::new(4);
    g.add_edge_unit(0, 1);
    g.add_edge_unit(0, 2);
    g.add_edge_unit(1, 3);
    let order = bfs(&g, 0);
    assert_eq!(order[0], 0);
    assert!(order.contains(&1));
    assert!(order.contains(&2));
    assert!(order.contains(&3));
}

#[test]
fn test_dfs_simple() {
    let mut g: Graph<u64> = Graph::new(3);
    g.add_edge_unit(0, 1);
    g.add_edge_unit(1, 2);
    let order = dfs(&g, 0);
    assert_eq!(order, vec![0, 1, 2]);
}

#[test]
fn test_topological_sort() {
    let mut g: Graph<u64> = Graph::new_directed(4);
    g.add_edge_unit(0, 1);
    g.add_edge_unit(0, 2);
    g.add_edge_unit(1, 3);
    g.add_edge_unit(2, 3);
    let order = topological_sort(&g).unwrap();
    assert_eq!(order[0], 0);
    assert!(order.iter().position(|&x| x == 1) < order.iter().position(|&x| x == 3));
    assert!(order.iter().position(|&x| x == 2) < order.iter().position(|&x| x == 3));
}

#[test]
fn test_topological_cycle() {
    let mut g: Graph<u64> = Graph::new_directed(3);
    g.add_edge_unit(0, 1);
    g.add_edge_unit(1, 2);
    g.add_edge_unit(2, 0);
    assert!(topological_sort(&g).is_none());
}

#[test]
fn test_bfs_disconnected() {
    let mut g: Graph<u64> = Graph::new(5);
    g.add_edge_unit(0, 1);
    g.add_edge_unit(2, 3);
    let order = bfs(&g, 0);
    assert!(!order.contains(&2));
    assert!(!order.contains(&3));
}

#[test]
fn test_dfs_branching() {
    let mut g: Graph<u64> = Graph::new(4);
    g.add_edge_unit(0, 1);
    g.add_edge_unit(0, 2);
    g.add_edge_unit(1, 3);
    g.add_edge_unit(2, 3);
    let order = dfs(&g, 0);
    assert_eq!(order[0], 0);
    assert_eq!(order.len(), 4);
}

#[test]
fn test_topological_linear() {
    let mut g: Graph<u64> = Graph::new_directed(3);
    g.add_edge_unit(0, 1);
    g.add_edge_unit(1, 2);
    let order = topological_sort(&g).unwrap();
    assert_eq!(order, vec![0, 1, 2]);
}

#[test]
fn bfs_visits_level_by_level_in_adjacency_order() {
    let mut g: Graph<u64> = Graph::new(6);
    g.add_edge_unit(0, 2);
    g.add_edge_unit(0, 1);
    g.add_edge_unit(2, 3);
    g.add_edge_unit(1, 4);
    g.add_edge_unit(4, 5);
    assert_eq!(bfs(&g, 0), vec![0, 2, 1, 3, 4, 5]);
}

#[test]
fn dfs_goes_deep_first() {
    let mut g: Graph<u64> = Graph::new(5);
    g.add_edge_unit(0, 1);
    g.add_edge_unit(0, 2);
    g.add_edge_unit(1, 3);
    g.add_edge_unit(2, 4);
    assert_eq!(dfs(&g, 0), vec![0, 1, 3, 2, 4]);
}

#[test]
fn bfs_and_dfs_follow_direction() {
    let mut g: Graph<f64> = Graph::new_directed(3);
    g.add_edge(1, 0, 0.5);
    g.add_edge(1, 2, 0.5);
    assert_eq!(bfs(&g, 0), vec![0]);
    assert_eq!(dfs(&g, 0), vec![0]);
    let mut r = bfs(&g, 1);
    r.sort();
    assert_eq!(r, vec![0, 1, 2]);
}

#[test]
fn bfs_single_vertex_with_self_loop() {
    let mut g: Graph<u64> = Graph::new(1);
    g.add_edge_unit(0, 0);
    assert_eq!(bfs(&g, 0), vec![0]);
    assert_eq!(dfs(&g, 0), vec![0]);
}

#[test]
fn topological_sort_follows_queue_order() {
    let mut g: Graph<u64> = Graph::new_directed(5);
    g.add_edge_unit(3, 1);
    g.add_edge_unit(4, 1);
    g.add_edge_unit(1, 0);
    g.add_edge_unit(2, 0);
    assert_eq!(topological_sort(&g), Some(vec![2, 3, 4, 1, 0]));
}

#[test]
fn topological_sort_self_loop_is_a_cycle() {
    let mut g: Graph<u64> = Graph::new_directed(2);
    g.add_edge_unit(0, 1);
    g.add_edge_unit(1, 1);
    assert_eq!(topological_sort(&g), None);
}

#[test]
fn topological_sort_parallel_edges() {
    let mut g: Graph<u64> = Graph::new_directed(2);
    g.add_edge_unit(0, 1);
    g.add_edge_unit(0, 1);
    assert_eq!(topological_sort(&g), Some(vec![0, 1]));
}

#[test]
fn topological_sort_empty_graph() {
    let g: Graph<u64> = Graph::new_directed(0);
    assert_eq!(topological_sort(&g), Some(vec![]));
}
