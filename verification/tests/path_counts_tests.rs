use lau_graph_theory::graph::Graph;
use lau_graph_theory::path_counts::path_counts;

#[test]
fn shortest_walks_around_a_square() {
    let mut g: Graph<u64> = Graph::new(4);
    g.add_edge_unit(0, 1);
    g.add_edge_unit(1, 2);
    g.add_edge_unit(2, 3);
    g.add_edge_unit(3, 0);
    let pc = path_counts(&g, 0).unwrap();
    assert_eq!(pc.order, vec![0, 1, 3, 2]);
    assert_eq!(pc.dist, vec![0, 1, 2, 1]);
    assert_eq!(pc.sigma, vec![1, 1, 2, 1]);
    assert_eq!(pc.pred[2], vec![1, 3]);
    assert_eq!(pc.pred[1], vec![0]);
    assert!(pc.pred[0].is_empty());
}

#[test]
fn unreached_vertices_have_no_walks() {
    let mut g: Graph<u64> = Graph::new(4);
    g.add_edge_unit(0, 1);
    g.add_edge_unit(2, 3);
    let pc = path_counts(&g, 0).unwrap();
    assert_eq!(pc.order, vec![0, 1]);
    assert_eq!(pc.dist[2], usize::MAX);
    assert_eq!(pc.sigma[3], 0);
    assert!(pc.pred[3].is_empty());
}

#[test]
fn parallel_entries_are_separate_walks() {
    let mut g: Graph<u64> = Graph::new(3);
    g.add_edge_unit(0, 1);
    g.add_edge_unit(0, 1);
    g.add_edge_unit(1, 2);
    let pc = path_counts(&g, 0).unwrap();
    assert_eq!(pc.sigma, vec![1, 2, 2]);
    assert_eq!(pc.pred[1], vec![0, 0]);
}

#[test]
fn directed_walks_follow_the_arrows() {
    let mut g: Graph<u64> = Graph::new_directed(4);
    g.add_edge_unit(0, 1);
    g.add_edge_unit(0, 2);
    g.add_edge_unit(1, 3);
    g.add_edge_unit(2, 3);
    g.add_edge_unit(3, 0);
    let pc = path_counts(&g, 0).unwrap();
    assert_eq!(pc.dist, vec![0, 1, 1, 2]);
    assert_eq!(pc.sigma, vec![1, 1, 1, 2]);
    assert_eq!(pc.pred[3], vec![1, 2]);
}
