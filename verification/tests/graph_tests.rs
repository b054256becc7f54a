use shortest_paths::graph::build_dense_graph;
use shortest_paths::graph::build_sparse_graph;
use shortest_paths::graph::Edge;

fn e(from: usize, to: usize, weight: i32) -> Edge {
    Edge { weight, from, to }
}

#[test]
fn edge_accessors() {
    let edge = e(3, 7, 42);
    assert_eq!(*edge.id(), 7);
    assert_eq!(edge.weight(), 42);
}

#[test]
fn sparse_neighbors_in_insertion_order() {
    let mut g = build_sparse_graph(vec![0, 1, 2]);
    g.connect(0, 1, 10);
    g.connect(0, 2, 20);
    let adj = g.neighbors(0).unwrap();
    assert_eq!(adj.len(), 2);
    assert_eq!(adj[0], e(0, 1, 10));
    assert_eq!(adj[1], e(0, 2, 20));
    assert_eq!(g.neighbors(1).unwrap().len(), 0);
}

#[test]
fn sparse_unregistered_node_has_no_neighbors() {
    let g = build_sparse_graph(vec![0, 1]);
    assert!(g.neighbors(5).is_none());
}

#[test]
fn sparse_connect_lazily_registers_source() {
    let mut g = build_sparse_graph(vec![0]);
    assert!(g.neighbors(9).is_none());
    g.connect(9, 0, 1);
    let adj = g.neighbors(9).unwrap();
    assert_eq!(adj.len(), 1);
    assert_eq!(adj[0], e(9, 0, 1));
    assert_eq!(g.size(), 2);
    assert_eq!(g.nodes(), vec![0, 9]);
}

#[test]
fn sparse_duplicate_edges_are_kept() {
    let mut g = build_sparse_graph(vec![0, 1]);
    g.connect_all(vec![e(0, 1, 3), e(0, 1, 4)]);
    let adj = g.neighbors(0).unwrap();
    assert_eq!(adj.len(), 2);
    assert_eq!(adj[0].weight, 3);
    assert_eq!(adj[1].weight, 4);
}

#[test]
fn sparse_nodes_and_size() {
    let g = build_sparse_graph(vec![4, 2, 4, 7]);
    assert_eq!(g.size(), 3);
    assert_eq!(g.nodes(), vec![4, 2, 7]);
}

#[test]
fn dense_connect_unknown_endpoint_is_ignored() {
    let mut g = build_dense_graph(vec![10, 20]);
    g.connect(10, 99, 5);
    g.connect(99, 20, 5);
    assert_eq!(g.neighbors(0), vec![]);
    assert_eq!(g.neighbors(1), vec![]);
}

#[test]
fn dense_neighbors_nonzero_cells_ascending() {
    let mut g = build_dense_graph(vec![10, 20, 30]);
    g.connect(10, 30, 7);
    g.connect(10, 20, 5);
    assert_eq!(g.neighbors(0), vec![(1, 5), (2, 7)]);
    assert_eq!(g.neighbors(1), vec![]);
}

#[test]
fn dense_zero_weight_edge_is_indistinguishable_from_absence() {
    let mut g = build_dense_graph(vec![0, 1]);
    g.connect(0, 1, 5);
    assert_eq!(g.neighbors(0), vec![(1, 5)]);
    g.connect(0, 1, 0);
    assert_eq!(g.neighbors(0), vec![]);
}

#[test]
fn dense_connect_all_overwrites_with_last_weight() {
    let mut g = build_dense_graph(vec![0, 1]);
    g.connect_all(vec![e(0, 1, 3), e(0, 1, 8)]);
    assert_eq!(g.neighbors(0), vec![(1, 8)]);
}

#[test]
fn sparse_and_dense_neighbors_agree_on_shared_build() {
    // Same nodes and edges in both representations: every endpoint
    // registered, no zero weights, one edge per ordered pair.
    let nodes = vec![0, 1, 2, 3];
    let edges = vec![e(0, 1, 4), e(0, 2, 1), e(2, 1, 2), e(1, 3, 1), e(2, 3, 5)];
    let mut sg = build_sparse_graph(nodes.clone());
    sg.connect_all(edges.clone());
    let mut dg = build_dense_graph(nodes.clone());
    dg.connect_all(edges);
    // Node identifiers are 0..4 in first-seen order, so a node's dense
    // index equals its identifier.
    for k in 0..nodes.len() {
        let mut sparse_pairs: Vec<(usize, i32)> = sg
            .neighbors(k)
            .unwrap()
            .iter()
            .map(|edge| (edge.to, edge.weight))
            .collect();
        sparse_pairs.sort();
        let dense_pairs = dg.neighbors(k);
        assert_eq!(sparse_pairs, dense_pairs);
    }
}
