use lau_graph_theory::graph::{Edge, Graph};
use lau_graph_theory::mst::{kruskal, prim, sort_by_weight, UnionFind};

fn total(edges: &[Edge<u64>]) -> u64 {
    edges.iter().map(|e| e.weight).sum()
}

#[test]
fn test_kruskal() {
    let mut g: Graph<u64> = Graph::new(4);
    g.add_edge(0, 1, 1);
    g.add_edge(0, 2, 2);
    g.add_edge(1, 2, 3);
    g.add_edge(1, 3, 4);
    g.add_edge(2, 3, 5);
    let mst = kruskal(&g);
    assert_eq!(mst.len(), 3);
    assert_eq!(total(&mst), 7); // 1+2+4
}

#[test]
fn test_prim() {
    let mut g: Graph<u64> = Graph::new(4);
    g.add_edge(0, 1, 1);
    g.add_edge(0, 2, 2);
    g.add_edge(1, 2, 3);
    g.add_edge(1, 3, 4);
    g.add_edge(2, 3, 5);
    let mst = prim(&g, 0);
    assert_eq!(mst.len(), 3);
    assert_eq!(total(&mst), 7);
}

#[test]
fn test_mst_kruskal_prim_agree() {
    let mut g: Graph<u64> = Graph::new(5);
    g.add_edge(0, 1, 2);
    g.add_edge(0, 3, 6);
    g.add_edge(1, 2, 3);
    g.add_edge(1, 3, 8);
    g.add_edge(1, 4, 5);
    g.add_edge(2, 4, 7);
    g.add_edge(3, 4, 9);
    let tw = total(&kruskal(&g));
    let tp = total(&prim(&g, 0));
    assert_eq!(tw, tp);
    assert_eq!(tw, 16); // 2+3+5+6
}

#[test]
fn test_kruskal_single_edge() {
    let mut g: Graph<u64> = Graph::new(2);
    g.add_edge(0, 1, 5);
    let mst = kruskal(&g);
    assert_eq!(mst.len(), 1);
    assert_eq!(total(&mst), 5);
}

#[test]
fn test_prim_dense() {
    let mut g: Graph<u64> = Graph::new(4);
    g.add_edge(0, 1, 1);
    g.add_edge(0, 2, 2);
    g.add_edge(0, 3, 3);
    g.add_edge(1, 2, 4);
    g.add_edge(1, 3, 5);
    g.add_edge(2, 3, 6);
    let mst = prim(&g, 0);
    assert_eq!(total(&mst), 6); // 1+2+3
}

#[test]
fn kruskal_edges_in_weight_order() {
    let mut g: Graph<u64> = Graph::new(4);
    g.add_edge(2, 3, 9);
    g.add_edge(0, 1, 4);
    g.add_edge(1, 2, 1);
    g.add_edge(0, 2, 3);
    assert_eq!(
        kruskal(&g),
        vec![
            Edge { from: 1, to: 2, weight: 1 },
            Edge { from: 0, to: 2, weight: 3 },
            Edge { from: 2, to: 3, weight: 9 },
        ]
    );
}

#[test]
fn kruskal_on_forest_stops_short() {
    let mut g: Graph<u64> = Graph::new(4);
    g.add_edge(0, 1, 1);
    g.add_edge(2, 3, 1);
    let mst = kruskal(&g);
    assert_eq!(mst.len(), 2);
}

#[test]
fn kruskal_empty_graph() {
    let g: Graph<u64> = Graph::new(0);
    assert!(kruskal(&g).is_empty());
}

#[test]
fn prim_edges_join_in_greedy_order() {
    let mut g: Graph<u64> = Graph::new(4);
    g.add_edge(0, 1, 5);
    g.add_edge(0, 2, 1);
    g.add_edge(2, 1, 2);
    g.add_edge(1, 3, 7);
    assert_eq!(
        prim(&g, 0),
        vec![
            Edge { from: 0, to: 2, weight: 1 },
            Edge { from: 2, to: 1, weight: 2 },
            Edge { from: 1, to: 3, weight: 7 },
        ]
    );
}

#[test]
fn prim_covers_only_the_start_component() {
    let mut g: Graph<u64> = Graph::new(4);
    g.add_edge(0, 1, 3);
    g.add_edge(2, 3, 1);
    assert_eq!(prim(&g, 2), vec![Edge { from: 2, to: 3, weight: 1 }]);
}

#[test]
fn sort_by_weight_is_stable() {
    let es = vec![
        Edge { from: 0, to: 1, weight: 2 },
        Edge { from: 1, to: 2, weight: 1 },
        Edge { from: 0, to: 2, weight: 2 },
        Edge { from: 2, to: 3, weight: 1 },
    ];
    let s = sort_by_weight(&es);
    assert_eq!(s, vec![es[1], es[3], es[0], es[2]]);
}

#[test]
fn union_find_merges_sets() {
    let mut uf = UnionFind::new(5);
    assert!(uf.union(0, 1));
    assert!(uf.union(3, 4));
    assert!(!uf.union(1, 0));
    assert_eq!(uf.find(0), uf.find(1));
    assert_ne!(uf.find(1), uf.find(3));
    assert!(uf.union(1, 4));
    assert_eq!(uf.find(0), uf.find(3));
    assert_ne!(uf.find(2), uf.find(0));
    assert_eq!(uf.find(2), 2);
}

#[test]
fn union_find_singletons_are_their_own_roots() {
    let mut uf = UnionFind::new(3);
    for x in 0..3 {
        assert_eq!(uf.find(x), x);
    }
}

fn joined(edges: &[Edge<u64>], n: usize, a: usize, b: usize) -> bool {
    let mut seen = vec![false; n];
    let mut todo = vec![a];
    seen[a] = true;
    while let Some(z) = todo.pop() {
        if z == b {
            return true;
        }
        for e in edges {
            let next = if e.from == z { Some(e.to) } else if e.to == z { Some(e.from) } else { None };
            if let Some(w) = next {
                if !seen[w] {
                    seen[w] = true;
                    todo.push(w);
                }
            }
        }
    }
    false
}

#[test]
fn kruskal_keeps_a_spanning_forest() {
    let mut g: Graph<u64> = Graph::new(7);
    g.add_edge(0, 1, 4);
    g.add_edge(1, 2, 4);
    g.add_edge(2, 0, 1);
    g.add_edge(3, 4, 2);
    g.add_edge(4, 5, 9);
    g.add_edge(5, 3, 3);
    g.add_edge(2, 2, 0);
    let mst = kruskal(&g);
    for (i, e) in mst.iter().enumerate() {
        assert!(g.neighbors(e.from).iter().any(|&(w, _)| w == e.to));
        assert!(!joined(&mst[..i], g.n, e.from, e.to));
    }
    for a in 0..g.n {
        for &(b, w) in g.neighbors(a) {
            assert!(joined(&mst, g.n, a, b));
            let lighter: Vec<Edge<u64>> = mst.iter().copied().filter(|e| e.weight <= w).collect();
            assert!(joined(&lighter, g.n, a, b));
        }
    }
    assert_eq!(total(&mst), 1 + 4 + 2 + 3);
}

/// Every choice of `n - 1` undirected edges of `g` that joins all vertices.
fn spanning_tree_totals(g: &Graph<u64>) -> Vec<u64> {
    let mut edges: Vec<Edge<u64>> = Vec::new();
    for a in 0..g.n {
        for &(b, w) in g.neighbors(a) {
            if a < b {
                edges.push(Edge { from: a, to: b, weight: w });
            }
        }
    }
    let m = edges.len();
    let mut totals = Vec::new();
    for mask in 0u32..(1u32 << m) {
        if mask.count_ones() as usize + 1 != g.n {
            continue;
        }
        let chosen: Vec<Edge<u64>> = (0..m).filter(|&i| mask & (1 << i) != 0).map(|i| edges[i]).collect();
        if (0..g.n).all(|x| joined(&chosen, g.n, 0, x)) {
            totals.push(total(&chosen));
        }
    }
    totals
}

fn connected_samples() -> Vec<Graph<u64>> {
    let shapes: Vec<(usize, Vec<(usize, usize, u64)>)> = vec![
        (4, vec![(0, 1, 3), (1, 2, 3), (2, 3, 1), (3, 0, 2), (0, 2, 5), (1, 3, 4)]),
        (5, vec![(0, 1, 7), (1, 2, 2), (2, 3, 2), (3, 4, 7), (4, 0, 1), (1, 4, 6), (0, 2, 9)]),
        (5, vec![(0, 1, 1), (0, 2, 1), (0, 3, 1), (0, 4, 1), (1, 2, 1), (3, 4, 1)]),
        (6, vec![(0, 1, 5), (1, 2, 4), (2, 0, 3), (2, 3, 8), (3, 4, 2), (4, 5, 6), (5, 3, 1), (1, 4, 9)]),
    ];
    shapes
        .into_iter()
        .map(|(n, es)| {
            let mut g: Graph<u64> = Graph::new(n);
            for (a, b, w) in es {
                g.add_edge(a, b, w);
            }
            g
        })
        .collect()
}

#[test]
fn kruskal_weighs_least_among_spanning_trees() {
    for g in connected_samples() {
        let k = total(&kruskal(&g));
        let totals = spanning_tree_totals(&g);
        assert!(!totals.is_empty());
        assert_eq!(k, *totals.iter().min().unwrap());
    }
}

#[test]
fn prim_from_every_start_weighs_as_kruskal() {
    for g in connected_samples() {
        let k = total(&kruskal(&g));
        for s in 0..g.n {
            let p = prim(&g, s);
            assert_eq!(p.len() + 1, g.n);
            assert_eq!(total(&p), k, "start {}", s);
        }
    }
}

#[test]
fn kruskal_keeps_one_edge_less_than_vertices_per_component() {
    let mut g: Graph<u64> = Graph::new(8);
    g.add_edge(0, 1, 3);
    g.add_edge(1, 2, 1);
    g.add_edge(2, 0, 2);
    g.add_edge(3, 4, 5);
    g.add_edge(5, 5, 1);
    g.add_edge(6, 7, 4);
    g.add_edge(6, 7, 2);
    let mst = kruskal(&g);
    let comps = lau_graph_theory::connectivity::connected_components(&g);
    assert_eq!(comps.len(), 4);
    assert_eq!(mst.len() + comps.len(), g.n);
}

#[test]
fn union_keeps_the_first_root_on_equal_ranks() {
    let mut uf = UnionFind::new(3);
    assert!(uf.union(0, 1));
    assert_eq!(uf.find(1), 0);
    assert_eq!(uf.find(2), 2);
    assert!(uf.union(2, 1));
    assert_eq!(uf.find(2), 0);
    assert!(!uf.union(1, 2));
}
