use lau_graph_theory::agent_network::{
    apply_infections, count_infected, infection_candidates, neighbour_links, seed_infection,
};
use lau_graph_theory::graph::Graph;

#[test]
fn links_among_neighbours_of_a_triangle_vertex() {
    let mut g: Graph<u64> = Graph::new(3);
    g.add_edge_unit(0, 1);
    g.add_edge_unit(1, 2);
    g.add_edge_unit(2, 0);
    assert_eq!(neighbour_links(&g, 0), Some(2));
    assert_eq!(neighbour_links(&g, 1), Some(2));
}

#[test]
fn no_links_among_neighbours_on_a_line() {
    let mut g: Graph<u64> = Graph::new(3);
    g.add_edge_unit(0, 1);
    g.add_edge_unit(1, 2);
    assert_eq!(neighbour_links(&g, 1), Some(0));
    assert_eq!(neighbour_links(&g, 0), Some(0));
}

#[test]
fn links_in_a_complete_graph() {
    let mut g: Graph<u64> = Graph::new(4);
    for a in 0..4 {
        for b in (a + 1)..4 {
            g.add_edge_unit(a, b);
        }
    }
    // three neighbours, three links among them, each seen from both ends
    assert_eq!(neighbour_links(&g, 2), Some(6));
}

#[test]
fn seeds_start_the_infection() {
    let infected = seed_infection(4, &[1, 3, 1]);
    assert_eq!(infected, vec![false, true, false, true]);
    assert_eq!(count_infected(&infected), 2);
}

#[test]
fn one_step_of_spreading() {
    let mut g: Graph<u64> = Graph::new(4);
    g.add_edge_unit(0, 1);
    g.add_edge_unit(1, 2);
    g.add_edge_unit(2, 3);
    let infected = seed_infection(4, &[1]);
    let cands = infection_candidates(&g, &infected);
    assert_eq!(cands, vec![0, 2]);
    let next = apply_infections(&infected, &cands, &vec![true, false]);
    assert_eq!(next, vec![true, true, false, false]);
    assert_eq!(count_infected(&next), 2);
    let cands = infection_candidates(&g, &next);
    assert_eq!(cands, vec![2]);
    let after = apply_infections(&next, &cands, &vec![true]);
    assert_eq!(after, vec![true, true, true, false]);
    assert_eq!(count_infected(&after), 3);
}

#[test]
fn nothing_spreads_without_hits() {
    let mut g: Graph<u64> = Graph::new(3);
    g.add_edge_unit(0, 1);
    g.add_edge_unit(0, 2);
    let infected = seed_infection(3, &[0]);
    let cands = infection_candidates(&g, &infected);
    assert_eq!(cands, vec![1, 2]);
    let next = apply_infections(&infected, &cands, &vec![false, false]);
    assert_eq!(next, infected);
}
