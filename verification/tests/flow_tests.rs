use lau_graph_theory::flow::augmenting_path;

fn matrix(n: usize, pairs: &[(usize, usize)]) -> Vec<Vec<bool>> {
    let mut m = vec![vec![false; n]; n];
    for &(a, b) in pairs {
        m[a][b] = true;
    }
    m
}

#[test]
fn finds_a_shortest_open_path() {
    let open = matrix(5, &[(0, 1), (1, 2), (2, 4), (0, 3), (3, 4)]);
    assert_eq!(augmenting_path(&open, 0, 4), Some(vec![0, 3, 4]));
}

#[test]
fn lower_vertices_are_scanned_first() {
    let open = matrix(4, &[(0, 2), (0, 1), (1, 3), (2, 3)]);
    assert_eq!(augmenting_path(&open, 0, 3), Some(vec![0, 1, 3]));
}

#[test]
fn no_path_when_the_sink_is_cut_off() {
    let open = matrix(4, &[(0, 1), (1, 0), (2, 3)]);
    assert_eq!(augmenting_path(&open, 0, 3), None);
}

#[test]
fn pairs_are_one_way() {
    let open = matrix(3, &[(1, 0), (2, 1)]);
    assert_eq!(augmenting_path(&open, 0, 2), None);
    assert_eq!(augmenting_path(&open, 2, 0), Some(vec![2, 1, 0]));
}

#[test]
fn source_equal_to_sink_is_a_path_of_one_vertex() {
    let open = matrix(2, &[(0, 1)]);
    assert_eq!(augmenting_path(&open, 1, 1), Some(vec![1]));
}

#[test]
fn of_the_shortest_paths_the_first_in_dictionary_order() {
    // shortest paths 0-4-1-6, 0-2-3-6, 0-2-5-6: the search takes 0-2-3-6
    let open = matrix(7, &[(0, 4), (0, 2), (4, 1), (1, 6), (2, 5), (2, 3), (5, 6), (3, 6)]);
    assert_eq!(augmenting_path(&open, 0, 6), Some(vec![0, 2, 3, 6]));
}
