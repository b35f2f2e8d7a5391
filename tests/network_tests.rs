use grid_search::{cliques_of_size, get_neighbours, is_clique, NetworkMap};

fn sample() -> NetworkMap {
    let mut net = NetworkMap::new(5);
    for (a, b) in [(0, 1), (2, 0), (1, 2), (3, 1), (2, 3), (3, 4)] {
        net.add_edge(a, b);
    }
    net
}

#[test]
fn edges_are_undirected() {
    let net = sample();
    assert!(net.has_edge(0, 2));
    assert!(net.has_edge(2, 0));
    assert!(!net.has_edge(0, 3));
    assert_eq!(net.size(), 5);
}

#[test]
fn neighbour_lists_are_sorted() {
    let m = get_neighbours(&sample());
    assert_eq!(m, vec![vec![1, 2], vec![0, 2, 3], vec![0, 1, 3], vec![1, 2, 4], vec![3]]);
}

#[test]
fn clique_check() {
    let net = sample();
    assert!(is_clique(&net, &[0, 1, 2]));
    assert!(is_clique(&net, &[3]));
    assert!(is_clique(&net, &[]));
    assert!(!is_clique(&net, &[0, 1, 3]));
}

#[test]
fn triangles_of_sample() {
    let net = sample();
    let m = get_neighbours(&net);
    assert_eq!(cliques_of_size(&net, &m, 3), vec![vec![0, 1, 2], vec![1, 2, 3]]);
    assert!(cliques_of_size(&net, &m, 4).is_empty());
    assert_eq!(cliques_of_size(&net, &m, 2).len(), 6);
    assert_eq!(cliques_of_size(&net, &m, 1).len(), 5);
    assert_eq!(cliques_of_size(&net, &m, 0), vec![Vec::<usize>::new()]);
}
