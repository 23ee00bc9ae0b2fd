use lau_graph_theory::connectivity::{articulation_points, biconnected_components, bridges, connected_components};
use lau_graph_theory::graph::Graph;

#[test]
fn test_connected_components() {
    let mut g: Graph<u64> = Graph::new(5);
    g.add_edge_unit(0, 1);
    g.add_edge_unit(1, 2);
    g.add_edge_unit(3, 4);
    let comps = connected_components(&g);
    assert_eq!(comps.len(), 2);
}

#[test]
fn test_connected_single() {
    let g: Graph<u64> = Graph::new(3);
    let comps = connected_components(&g);
    assert_eq!(comps.len(), 3);
}

#[test]
fn test_bridges() {
    let mut g: Graph<u64> = Graph::new(5);
    g.add_edge_unit(0, 1);
    g.add_edge_unit(1, 2);
    g.add_edge_unit(2, 0);
    g.add_edge_unit(1, 3);
    g.add_edge_unit(3, 4);
    g.add_edge_unit(4, 1);
    let br = bridges(&g);
    assert!(br.is_empty());
}

#[test]
fn test_bridges_with_bridge() {
    let mut g: Graph<u64> = Graph::new(4);
    g.add_edge_unit(0, 1);
    g.add_edge_unit(1, 2);
    g.add_edge_unit(2, 3);
    g.add_edge_unit(3, 1);
    let br = bridges(&g);
    assert!(br.contains(&(0, 1)));
}

#[test]
fn test_articulation_points() {
    let mut g: Graph<u64> = Graph::new(5);
    g.add_edge_unit(0, 1);
    g.add_edge_unit(1, 2);
    g.add_edge_unit(2, 0);
    g.add_edge_unit(1, 3);
    g.add_edge_unit(3, 4);
    g.add_edge_unit(4, 1);
    let ap = articulation_points(&g);
    assert!(ap.is_empty() || ap.contains(&1));
}

#[test]
fn test_articulation_simple() {
    let mut g: Graph<u64> = Graph::new(4);
    g.add_edge_unit(0, 1);
    g.add_edge_unit(1, 2);
    g.add_edge_unit(2, 3);
    let ap = articulation_points(&g);
    assert!(ap.contains(&1));
    assert!(ap.contains(&2));
    assert!(!ap.contains(&0));
    assert!(!ap.contains(&3));
}

#[test]
fn test_biconnected_components() {
    let mut g: Graph<u64> = Graph::new(4);
    g.add_edge_unit(0, 1);
    g.add_edge_unit(1, 2);
    g.add_edge_unit(2, 3);
    g.add_edge_unit(3, 1);
    let bcc = biconnected_components(&g);
    assert!(bcc.len() >= 1);
}

#[test]
fn test_connected_all_connected() {
    let mut g: Graph<u64> = Graph::new(3);
    g.add_edge_unit(0, 1);
    g.add_edge_unit(1, 2);
    let comps = connected_components(&g);
    assert_eq!(comps.len(), 1);
    assert_eq!(comps[0].len(), 3);
}

#[test]
fn test_bridges_no_bridges_cycle() {
    let mut g: Graph<u64> = Graph::new(4);
    g.add_edge_unit(0, 1);
    g.add_edge_unit(1, 2);
    g.add_edge_unit(2, 3);
    g.add_edge_unit(3, 0);
    let br = bridges(&g);
    assert!(br.is_empty());
}

#[test]
fn test_articulation_points_star() {
    let mut g: Graph<u64> = Graph::new(5);
    g.add_edge_unit(0, 1);
    g.add_edge_unit(0, 2);
    g.add_edge_unit(0, 3);
    g.add_edge_unit(0, 4);
    let ap = articulation_points(&g);
    assert!(ap.contains(&0));
    assert_eq!(ap.len(), 1);
}

#[test]
fn test_biconnected_simple() {
    let mut g: Graph<u64> = Graph::new(3);
    g.add_edge_unit(0, 1);
    g.add_edge_unit(1, 2);
    g.add_edge_unit(0, 2);
    let bcc = biconnected_components(&g);
    assert_eq!(bcc.len(), 1);
}

#[test]
fn components_listed_from_least_vertex_in_bfs_order() {
    let mut g: Graph<f64> = Graph::new(6);
    g.add_edge(4, 1, 1.0);
    g.add_edge(1, 5, 1.0);
    g.add_edge(2, 0, 1.0);
    let comps = connected_components(&g);
    assert_eq!(comps, vec![vec![0, 2], vec![1, 4, 5], vec![3]]);
}

#[test]
fn bridges_of_a_path_sorted() {
    let mut g: Graph<u64> = Graph::new(4);
    g.add_edge_unit(3, 2);
    g.add_edge_unit(2, 1);
    g.add_edge_unit(1, 0);
    assert_eq!(bridges(&g), vec![(0, 1), (1, 2), (2, 3)]);
}

#[test]
fn bridges_between_two_triangles() {
    let mut g: Graph<u64> = Graph::new(6);
    g.add_edge_unit(0, 1);
    g.add_edge_unit(1, 2);
    g.add_edge_unit(2, 0);
    g.add_edge_unit(3, 4);
    g.add_edge_unit(4, 5);
    g.add_edge_unit(5, 3);
    g.add_edge_unit(2, 3);
    assert_eq!(bridges(&g), vec![(2, 3)]);
    assert_eq!(articulation_points(&g), vec![2, 3]);
    assert_eq!(biconnected_components(&g).len(), 3);
}

#[test]
fn articulation_points_of_disconnected_paths() {
    let mut g: Graph<u64> = Graph::new(6);
    g.add_edge_unit(0, 1);
    g.add_edge_unit(1, 2);
    g.add_edge_unit(3, 4);
    g.add_edge_unit(4, 5);
    assert_eq!(articulation_points(&g), vec![1, 4]);
}

#[test]
fn biconnected_components_of_a_path_are_its_edges() {
    let mut g: Graph<u64> = Graph::new(3);
    g.add_edge_unit(0, 1);
    g.add_edge_unit(1, 2);
    let bcc = biconnected_components(&g);
    assert_eq!(bcc, vec![vec![(1, 2)], vec![(0, 1)]]);
}

fn reach_without_vertex(g: &Graph<u64>, x: usize, a: usize, b: usize) -> bool {
    let mut seen = vec![false; g.n];
    let mut todo = vec![a];
    seen[a] = true;
    while let Some(z) = todo.pop() {
        if z == b {
            return true;
        }
        for &(w, _) in g.neighbors(z) {
            if w != x && !seen[w] {
                seen[w] = true;
                todo.push(w);
            }
        }
    }
    false
}

fn reach_without_edge(g: &Graph<u64>, a: usize, b: usize) -> bool {
    let mut seen = vec![false; g.n];
    let mut todo = vec![a];
    seen[a] = true;
    while let Some(z) = todo.pop() {
        if z == b {
            return true;
        }
        for &(w, _) in g.neighbors(z) {
            let cut = (z == a && w == b) || (z == b && w == a);
            if !cut && !seen[w] {
                seen[w] = true;
                todo.push(w);
            }
        }
    }
    false
}

fn sample_graphs() -> Vec<Graph<u64>> {
    let shapes: Vec<(usize, Vec<(usize, usize)>)> = vec![
        (7, vec![(0, 1), (1, 2), (2, 0), (2, 3), (3, 4), (4, 5), (5, 3), (5, 6)]),
        (6, vec![(0, 1), (0, 2), (0, 3), (3, 4), (4, 5), (5, 3)]),
        (8, vec![(0, 1), (1, 2), (2, 3), (3, 0), (1, 4), (4, 5), (6, 7), (7, 6), (5, 5)]),
        (5, vec![(0, 1), (0, 1), (1, 2), (2, 3), (3, 4), (4, 2)]),
        (9, vec![(4, 0), (4, 1), (1, 2), (2, 4), (4, 3), (3, 5), (5, 6), (6, 3), (7, 8)]),
    ];
    shapes
        .into_iter()
        .map(|(n, es)| {
            let mut g: Graph<u64> = Graph::new(n);
            for (a, b) in es {
                g.add_edge_unit(a, b);
            }
            g
        })
        .collect()
}

#[test]
fn articulation_points_are_exactly_the_cut_vertices() {
    for g in sample_graphs() {
        let ap = articulation_points(&g);
        for x in 0..g.n {
            let mut cut = false;
            for a in 0..g.n {
                for b in 0..g.n {
                    if a != x && b != x && reach_without_vertex(&g, g.n, a, b) && !reach_without_vertex(&g, x, a, b) {
                        cut = true;
                    }
                }
            }
            assert_eq!(ap.contains(&x), cut, "vertex {}", x);
        }
    }
}

#[test]
fn bridges_are_exactly_the_cut_edges() {
    for g in sample_graphs() {
        let br = bridges(&g);
        for a in 0..g.n {
            for &(b, _) in g.neighbors(a) {
                if a <= b {
                    let is_bridge = !reach_without_edge(&g, a, b);
                    assert_eq!(br.contains(&(a, b)), is_bridge, "edge {} {}", a, b);
                }
            }
        }
        for &(a, b) in &br {
            assert!(a <= b);
            assert!(g.neighbors(a).iter().any(|&(w, _)| w == b));
        }
    }
}

#[test]
fn parallel_edges_still_form_a_bridge() {
    let mut g: Graph<u64> = Graph::new(2);
    g.add_edge_unit(0, 1);
    g.add_edge_unit(0, 1);
    assert_eq!(bridges(&g), vec![(0, 1)]);
    assert_eq!(articulation_points(&g), Vec::<usize>::new());
}

#[test]
fn root_with_two_branches_is_an_articulation_point() {
    let mut g: Graph<u64> = Graph::new(3);
    g.add_edge_unit(0, 1);
    g.add_edge_unit(0, 2);
    assert_eq!(articulation_points(&g), vec![0]);
    assert_eq!(bridges(&g), vec![(0, 1), (0, 2)]);
}

#[test]
fn biconnected_components_cover_every_edge() {
    for g in sample_graphs() {
        let comps = biconnected_components(&g);
        for c in &comps {
            assert!(!c.is_empty());
            for &(a, b) in c {
                assert!(a <= b);
                assert!(g.neighbors(a).iter().any(|&(w, _)| w == b));
            }
        }
        for a in 0..g.n {
            for &(b, _) in g.neighbors(a) {
                if a != b {
                    let pair = if a <= b { (a, b) } else { (b, a) };
                    assert!(comps.iter().any(|c| c.contains(&pair)), "edge {} {}", a, b);
                }
            }
        }
    }
}

#[test]
fn biconnected_components_leave_loops_out() {
    let mut g: Graph<u64> = Graph::new(2);
    g.add_edge_unit(0, 0);
    g.add_edge_unit(0, 1);
    assert_eq!(biconnected_components(&g), vec![vec![(0, 1)]]);
}

#[test]
fn bridge_end_with_another_neighbour_is_an_articulation_point() {
    for g in sample_graphs() {
        let br = bridges(&g);
        let ap = articulation_points(&g);
        for &(u, v) in br.iter() {
            for (a, b) in [(u, v), (v, u)] {
                let other = g.neighbors(a).iter().any(|&(c, _)| c != a && c != b);
                if other {
                    assert!(ap.contains(&a), "bridge ({}, {}) end {}", u, v, a);
                }
            }
        }
    }
}

#[test]
fn biconnected_components_share_no_pair() {
    for g in sample_graphs() {
        let bcc = biconnected_components(&g);
        for i in 0..bcc.len() {
            for j in 0..bcc.len() {
                if i != j {
                    for e in bcc[i].iter() {
                        assert!(!bcc[j].contains(e), "pair {:?} in components {} and {}", e, i, j);
                    }
                }
            }
        }
    }
}

#[test]
fn bridge_and_triangle_are_separate_blocks() {
    let mut g: Graph<u64> = Graph::new(4);
    g.add_edge_unit(0, 1);
    g.add_edge_unit(1, 2);
    g.add_edge_unit(2, 3);
    g.add_edge_unit(3, 1);
    let mut bcc: Vec<Vec<(usize, usize)>> = biconnected_components(&g)
        .into_iter()
        .map(|mut c| {
            c.sort();
            c
        })
        .collect();
    bcc.sort();
    assert_eq!(bcc, vec![vec![(0, 1)], vec![(1, 2), (1, 3), (2, 3)]]);
}

#[test]
fn blocks_hold_each_edge_once_without_parallel_edges() {
    let mut g: Graph<u64> = Graph::new(7);
    for &(a, b) in &[(0, 1), (1, 2), (2, 0), (2, 3), (3, 4), (4, 2), (4, 5), (5, 6), (6, 4), (1, 5)] {
        g.add_edge_unit(a, b);
    }
    let bcc = biconnected_components(&g);
    let mut all: Vec<(usize, usize)> = bcc.iter().flatten().copied().collect();
    let total = all.len();
    all.sort();
    all.dedup();
    assert_eq!(all.len(), total);
    assert_eq!(total, 10);
    // the extra edge 1-5 joins every cycle into one block
    assert_eq!(bcc.len(), 1);
}
