use lau_graph_theory::graph::{Edge, Graph};

#[test]
fn test_graph_edge_count_undirected() {
    let mut g: Graph<u64> = Graph::new(4);
    g.add_edge_unit(0, 1);
    g.add_edge_unit(1, 2);
    g.add_edge_unit(2, 3);
    assert_eq!(g.edge_count(), 3);
}

#[test]
fn test_graph_edge_count_directed() {
    let mut g: Graph<u64> = Graph::new_directed(3);
    g.add_edge_unit(0, 1);
    g.add_edge_unit(1, 2);
    g.add_edge_unit(2, 0);
    assert_eq!(g.edge_count(), 3);
}

#[test]
fn test_graph_degree() {
    let mut g: Graph<u64> = Graph::new(4);
    g.add_edge_unit(0, 1);
    g.add_edge_unit(0, 2);
    g.add_edge_unit(0, 3);
    assert_eq!(g.degree(0), 3);
    assert_eq!(g.degree(1), 1);
}

#[test]
fn test_graph_from_edge_list() {
    let edges = vec![(0, 1, 2.0), (1, 2, 3.0)];
    let g = Graph::from_edge_list(3, &edges, false);
    assert_eq!(g.n, 3);
    assert_eq!(g.edge_count(), 2);
}

#[test]
fn test_adjacency_matrix() {
    let mut g = Graph::new(3);
    g.add_edge(0, 1, 2.0);
    g.add_edge(1, 2, 3.0);
    let mat = g.adjacency_matrix(f64::INFINITY, 0.0);
    assert!((mat[0][0] - 0.0).abs() < 1e-9);
    assert!((mat[0][1] - 2.0).abs() < 1e-9);
    assert!((mat[1][2] - 3.0).abs() < 1e-9);
    assert!(mat[0][2].is_infinite());
}

#[test]
fn test_edge_list() {
    let mut g: Graph<u64> = Graph::new(3);
    g.add_edge(0, 1, 1);
    g.add_edge(1, 2, 2);
    let edges = g.edge_list();
    assert_eq!(edges.len(), 2);
}

#[test]
fn test_neighbors() {
    let mut g = Graph::new(3);
    g.add_edge(0, 1, 5.0);
    g.add_edge(0, 2, 3.0);
    let nb = g.neighbors(0);
    assert_eq!(nb.len(), 2);
}

#[test]
fn add_edge_undirected_appends_both_directions() {
    let mut g = Graph::new(3);
    g.add_edge(0, 2, 7.5);
    assert_eq!(g.adj[0], vec![(2, 7.5)]);
    assert_eq!(g.adj[2], vec![(0, 7.5)]);
    assert!(g.adj[1].is_empty());
}

#[test]
fn add_edge_directed_appends_one_direction() {
    let mut g = Graph::new_directed(3);
    g.add_edge(0, 2, 7.5);
    assert_eq!(g.adj[0], vec![(2, 7.5)]);
    assert!(g.adj[2].is_empty());
}

#[test]
fn self_loop_undirected_appears_twice_in_its_row() {
    let mut g: Graph<u64> = Graph::new(2);
    g.add_edge(1, 1, 4);
    assert_eq!(g.adj[1], vec![(1, 4), (1, 4)]);
    assert_eq!(g.degree(1), 2);
    assert_eq!(g.edge_count(), 1);
}

#[test]
fn edge_list_keeps_first_of_each_key() {
    let mut g: Graph<u64> = Graph::new(3);
    g.add_edge(2, 0, 5);
    g.add_edge(0, 1, 1);
    g.add_edge(0, 1, 1);
    g.add_edge(0, 1, 2);
    let edges = g.edge_list();
    assert_eq!(
        edges,
        vec![
            Edge { from: 0, to: 2, weight: 5 },
            Edge { from: 0, to: 1, weight: 1 },
            Edge { from: 0, to: 1, weight: 2 },
        ]
    );
}

#[test]
fn edge_list_directed_keeps_both_directions() {
    let mut g: Graph<u64> = Graph::new_directed(2);
    g.add_edge(0, 1, 3);
    g.add_edge(1, 0, 3);
    let edges = g.edge_list();
    assert_eq!(edges, vec![Edge { from: 0, to: 1, weight: 3 }, Edge { from: 1, to: 0, weight: 3 }]);
}

#[test]
fn adjacency_matrix_last_parallel_edge_wins_and_self_loop_overrides_diagonal() {
    let mut g: Graph<i64> = Graph::new_directed(2);
    g.add_edge(0, 1, 4);
    g.add_edge(0, 1, 9);
    g.add_edge(1, 1, 6);
    let mat = g.adjacency_matrix(-1, 0);
    assert_eq!(mat, vec![vec![0, 9], vec![-1, 6]]);
}

#[test]
fn from_edge_list_matches_repeated_add_edge() {
    let edges = vec![(0, 1, 1u64), (2, 1, 4), (0, 0, 2)];
    let g = Graph::from_edge_list(3, &edges, false);
    let mut h: Graph<u64> = Graph::new(3);
    for &(u, v, w) in &edges {
        h.add_edge(u, v, w);
    }
    assert_eq!(g.adj, h.adj);
    assert_eq!(g.edge_count(), 3);
}

#[test]
fn empty_graph_has_no_edges() {
    let g: Graph<f64> = Graph::new(0);
    assert_eq!(g.edge_count(), 0);
    assert!(g.adj.is_empty());
}

#[test]
fn edge_list_of_added_edges_lists_each_once() {
    let mut g: Graph<u64> = Graph::new(4);
    g.add_edge(2, 0, 5);
    g.add_edge(0, 1, 1);
    g.add_edge(3, 1, 2);
    g.add_edge(2, 2, 7);
    let edges = g.edge_list();
    assert_eq!(edges.len(), g.edge_count());
    assert_eq!(edges.len(), 4);
    for e in edges.iter() {
        assert!(e.from <= e.to);
    }
    for w in edges.windows(2) {
        assert!(w[0].from <= w[1].from);
    }
    let mut d: Graph<u64> = Graph::new_directed(3);
    d.add_edge(2, 0, 5);
    d.add_edge(0, 2, 5);
    d.add_edge(1, 0, 3);
    let de = d.edge_list();
    assert_eq!(de.len(), d.edge_count());
    assert_eq!(de.len(), 3);
}
