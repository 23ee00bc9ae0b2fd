use lau_graph_theory::graph::Graph;
use lau_graph_theory::matching::bipartite_matching;

#[test]
fn test_bipartite_matching_simple() {
    // Left: 0,1,2  Right: 3,4,5
    let mut g: Graph<u64> = Graph::new(6);
    g.add_edge_unit(0, 3);
    g.add_edge_unit(0, 4);
    g.add_edge_unit(1, 3);
    g.add_edge_unit(2, 5);
    let matching = bipartite_matching(&g, 3, 3);
    assert_eq!(matching.len(), 3);
}

#[test]
fn test_bipartite_matching_partial() {
    // Left: 0,1  Right: 2,3,4
    let mut g: Graph<u64> = Graph::new(5);
    g.add_edge_unit(0, 2);
    g.add_edge_unit(0, 3);
    g.add_edge_unit(1, 2);
    let matching = bipartite_matching(&g, 2, 3);
    assert_eq!(matching.len(), 2);
}

#[test]
fn test_bipartite_matching_no_match() {
    let g: Graph<u64> = Graph::new(4);
    // No edges
    let matching = bipartite_matching(&g, 2, 2);
    assert!(matching.is_empty());
}

#[test]
fn test_bipartite_complete_k22() {
    let mut g: Graph<u64> = Graph::new(4);
    g.add_edge_unit(0, 2);
    g.add_edge_unit(0, 3);
    g.add_edge_unit(1, 2);
    g.add_edge_unit(1, 3);
    let matching = bipartite_matching(&g, 2, 2);
    assert_eq!(matching.len(), 2);
}

#[test]
fn matching_needs_an_augmenting_path() {
    // 0 is first matched to 3, then 1 can only use 3 and pushes 0 to 4
    let mut g: Graph<u64> = Graph::new(5);
    g.add_edge_unit(0, 3);
    g.add_edge_unit(0, 4);
    g.add_edge_unit(1, 3);
    let m = bipartite_matching(&g, 3, 2);
    assert_eq!(m.len(), 2);
    for &(u, v) in &m {
        assert!(u < 3 && v >= 3);
        assert!(g.adj[u].iter().any(|&(t, _)| t == v));
    }
    assert_ne!(m[0].1, m[1].1);
    assert!(m[0].0 < m[1].0);
}

#[test]
fn matching_ignores_edges_inside_the_left_side() {
    let mut g: Graph<u64> = Graph::new(4);
    g.add_edge_unit(0, 1);
    g.add_edge_unit(1, 2);
    let m = bipartite_matching(&g, 2, 2);
    assert_eq!(m, vec![(1, 2)]);
}

#[test]
fn matching_of_empty_sides() {
    let g: Graph<f64> = Graph::new(0);
    assert!(bipartite_matching(&g, 0, 0).is_empty());
}

fn brute_max(adj: &[Vec<usize>], i: usize, used: &mut Vec<bool>) -> usize {
    if i == adj.len() {
        return 0;
    }
    let mut best = brute_max(adj, i + 1, used);
    for &r in &adj[i] {
        if !used[r] {
            used[r] = true;
            let got = 1 + brute_max(adj, i + 1, used);
            used[r] = false;
            if got > best {
                best = got;
            }
        }
    }
    best
}

#[test]
fn matching_is_as_large_as_any() {
    let cases: Vec<(usize, usize, Vec<(usize, usize)>)> = vec![
        (3, 3, vec![(0, 0), (0, 1), (1, 0), (2, 1), (2, 2)]),
        (4, 3, vec![(0, 0), (1, 0), (2, 0), (3, 1), (3, 2)]),
        (4, 4, vec![(0, 1), (1, 0), (1, 2), (2, 1), (2, 3), (3, 2)]),
        (3, 2, vec![(0, 0), (0, 0), (1, 1)]),
        (5, 5, vec![(0, 0), (0, 1), (1, 0), (2, 0), (2, 2), (3, 3), (3, 4), (4, 3)]),
    ];
    for (nl, nr, es) in cases {
        let mut g: Graph<u64> = Graph::new(nl + nr);
        let mut adj = vec![Vec::new(); nl];
        for &(a, b) in &es {
            g.add_edge_unit(a, nl + b);
            adj[a].push(b);
        }
        let m = bipartite_matching(&g, nl, nr);
        let mut used = vec![false; nr];
        assert_eq!(m.len(), brute_max(&adj, 0, &mut used));
        for w in m.windows(2) {
            assert!(w[0].0 < w[1].0 && w[0].1 != w[1].1);
        }
    }
}
