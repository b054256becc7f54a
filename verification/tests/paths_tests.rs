use shortest_paths::graph::build_sparse_graph;
use shortest_paths::graph::Edge;
use shortest_paths::graph::SparseGraph;
use shortest_paths::paths::bellman;
use shortest_paths::paths::dijkstra;
use shortest_paths::paths::Dist;
use shortest_paths::paths::DistanceMap;

fn e(from: usize, to: usize, weight: i32) -> Edge {
    Edge { weight, from, to }
}

/// The demo graph, with its fractional weights scaled by ten to integers:
/// edges from node 0 to nodes 1..=9 with weights [1.2, 5.2, 1.9, 10.9,
/// 5.4, 8.1, 3.0, 1.8, 7.2], and from node 1 to nodes 2..=9 with weights
/// [2.2, 9.9, 11.9, 4.2, 10.1, 3.0, 0.8, 1.2].
fn demo_graph() -> SparseGraph {
    let mut g = build_sparse_graph((0..10).collect());
    let edges = vec![
        e(0, 1, 12),
        e(0, 2, 52),
        e(0, 3, 19),
        e(0, 4, 109),
        e(0, 5, 54),
        e(0, 6, 81),
        e(0, 7, 30),
        e(0, 8, 18),
        e(0, 9, 72),
        e(1, 2, 22),
        e(1, 3, 99),
        e(1, 4, 119),
        e(1, 5, 42),
        e(1, 6, 101),
        e(1, 7, 30),
        e(1, 8, 8),
        e(1, 9, 12),
    ];
    g.connect_all(edges);
    g
}

#[test]
fn dijkstra_demo_scenario() {
    let g = demo_graph();
    let dist = dijkstra(&g, 0);
    assert_eq!(dist.get(0), Some(0));
    assert_eq!(dist.get(1), Some(12));
    // min(5.2, 1.2 + 2.2) = 3.4
    assert_eq!(dist.get(2), Some(34));
    assert_eq!(dist.get(3), Some(19));
    assert_eq!(dist.get(4), Some(109));
    assert_eq!(dist.get(5), Some(54));
    assert_eq!(dist.get(6), Some(81));
    assert_eq!(dist.get(7), Some(30));
    assert_eq!(dist.get(8), Some(18));
    // min(7.2, 1.2 + 1.2) = 2.4
    assert_eq!(dist.get(9), Some(24));
}

#[test]
fn bellman_agrees_with_dijkstra_on_nonnegative_graph() {
    let g = demo_graph();
    let dd = dijkstra(&g, 0);
    let bd = bellman(&g, 0);
    let mut dkeys = dd.keys();
    let mut bkeys = bd.keys();
    dkeys.sort();
    bkeys.sort();
    assert_eq!(dkeys, bkeys);
    for k in dkeys {
        assert_eq!(bd.get(k), Some(Dist::Fin(dd.get(k).unwrap())));
    }
}

#[test]
fn dijkstra_brute_force_small_graph() {
    // All walks enumerable by hand: 0->1 direct (4) or through 2 (1+2);
    // 0->3 through 1 (3+1) or through 2 (1+5).
    let mut g = build_sparse_graph(vec![0, 1, 2, 3]);
    g.connect_all(vec![e(0, 1, 4), e(0, 2, 1), e(2, 1, 2), e(1, 3, 1), e(2, 3, 5)]);
    let dist = dijkstra(&g, 0);
    assert_eq!(dist.get(0), Some(0));
    assert_eq!(dist.get(1), Some(3));
    assert_eq!(dist.get(2), Some(1));
    assert_eq!(dist.get(3), Some(4));
}

#[test]
fn dijkstra_unreached_nodes_are_absent() {
    let mut g = build_sparse_graph(vec![0, 1, 2]);
    g.connect(0, 1, 5);
    let dist = dijkstra(&g, 0);
    assert_eq!(dist.get(0), Some(0));
    assert_eq!(dist.get(1), Some(5));
    assert_eq!(dist.get(2), None);
    assert_eq!(dist.len(), 2);
}

#[test]
fn dijkstra_source_not_in_graph() {
    let g = build_sparse_graph(vec![0, 1]);
    let dist = dijkstra(&g, 9);
    assert_eq!(dist.get(9), Some(0));
    assert_eq!(dist.len(), 1);
}

#[test]
fn bellman_detects_negative_cycle() {
    // 1 -> 2 -> 1 is a cycle of weight -40, reachable from 0.
    let mut g = build_sparse_graph(vec![0, 1, 2]);
    g.connect_all(vec![e(0, 1, 10), e(1, 2, -50), e(2, 1, 10)]);
    let dist = bellman(&g, 0);
    // At least the direct successor of a cycle edge holds the sentinel;
    // here the detection pass marks both cycle members.
    assert_eq!(dist.get(2), Some(Dist::NegInf));
    assert_eq!(dist.get(1), Some(Dist::NegInf));
    // A finite value survives for the source.
    assert_eq!(dist.get(0), Some(Dist::Fin(0)));
}

#[test]
fn bellman_negative_edge_without_cycle_is_exact() {
    let mut g = build_sparse_graph(vec![0, 1, 2]);
    g.connect_all(vec![e(0, 1, 10), e(1, 2, -3)]);
    let dist = bellman(&g, 0);
    assert_eq!(dist.get(0), Some(Dist::Fin(0)));
    assert_eq!(dist.get(1), Some(Dist::Fin(10)));
    assert_eq!(dist.get(2), Some(Dist::Fin(7)));
}

#[test]
fn distance_map_insert_get_len() {
    let mut dm: DistanceMap<i64> = DistanceMap::new();
    assert_eq!(dm.len(), 0);
    assert_eq!(dm.get(3), None);
    dm.insert(3, 30);
    dm.insert(5, 50);
    assert_eq!(dm.get(3), Some(30));
    dm.insert(3, 31);
    assert_eq!(dm.get(3), Some(31));
    assert_eq!(dm.get(5), Some(50));
    assert_eq!(dm.len(), 2);
    assert_eq!(dm.keys(), vec![3, 5]);
}
