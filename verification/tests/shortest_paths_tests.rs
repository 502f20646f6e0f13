use tsp::errors::RouteError;
use tsp::graph::Graph;
use tsp::shortest_paths::{astar, dijkstra, reconstruct_path};

fn five_node_graph() -> Graph {
    let mut g = Graph::new(5);
    g.add_edge(0, 1, 1);
    g.add_edge(0, 2, 2);
    g.add_edge(1, 2, 1);
    g.add_edge(1, 3, 3);
    g.add_edge(2, 3, 1);
    g.add_edge(2, 4, 2);
    g.add_edge(3, 4, 1);
    g
}

#[test]
fn test_dijkstra() {
    let g = five_node_graph();
    let prev = dijkstra(&g, 0, 4).unwrap();
    assert_eq!(prev.0, 4);
}

#[test]
fn test_reconstruct_path() {
    let g = five_node_graph();
    let prev = dijkstra(&g, 0, 4).unwrap();
    let path = reconstruct_path(prev.1, 4).unwrap();
    assert_eq!(path, vec![0, 2, 4]);
}

#[test]
fn test_reconstruct_path2() {
    let mut g = Graph::new(4);
    g.add_edge(0, 1, 1);
    g.add_edge(0, 2, 5);
    g.add_edge(3, 0, 2);
    g.add_edge(1, 2, 2);
    let prev = dijkstra(&g, 0, 2).unwrap();
    let path = reconstruct_path(prev.1, 2).unwrap();
    assert_eq!(path, vec![0, 1, 2]);
}

// Searching from a node to itself yields distance zero and the
// single-element path, whatever the graph.
#[test]
fn dijkstra_source_equals_destination() {
    let g = five_node_graph();
    for s in 0..5 {
        let (d, prev) = dijkstra(&g, s, s).unwrap();
        assert_eq!(d, 0);
        let path = reconstruct_path(prev, s).unwrap();
        assert_eq!(path, vec![s]);
    }
    let lonely = Graph::new(1);
    let (d, prev) = dijkstra(&lonely, 0, 0).unwrap();
    assert_eq!(d, 0);
    assert_eq!(reconstruct_path(prev, 0).unwrap(), vec![0]);
}

// An unreachable destination is an explicit failure, never a panic.
#[test]
fn dijkstra_no_path() {
    let mut g = Graph::new(3);
    g.add_edge(0, 1, 7);
    let r = dijkstra(&g, 0, 2);
    assert_eq!(r.unwrap_err(), RouteError::NoPathFound);
}

// With a consistent heuristic, A* reports the same distance as Dijkstra.
#[test]
fn astar_matches_dijkstra_with_consistent_heuristic() {
    let g = five_node_graph();
    // Exact remaining distances to node 4: the tightest consistent
    // heuristic there is.
    let exact = vec![4i64, 3, 2, 1, 0];
    let zero = vec![0i64; 5];
    for src in 0..5 {
        let d_plain = dijkstra(&g, src, 4).unwrap().0;
        let d_exact = astar(&g, &exact, src, 4).unwrap().0;
        let d_zero = astar(&g, &zero, src, 4).unwrap().0;
        assert_eq!(d_plain, d_exact);
        assert_eq!(d_plain, d_zero);
    }
    let mut g2 = Graph::new(4);
    g2.add_edge(0, 1, 1);
    g2.add_edge(0, 2, 5);
    g2.add_edge(3, 0, 2);
    g2.add_edge(1, 2, 2);
    let h2 = vec![3i64, 2, 0, 5];
    assert_eq!(dijkstra(&g2, 0, 2).unwrap().0, astar(&g2, &h2, 0, 2).unwrap().0);
    assert_eq!(astar(&g2, &h2, 0, 2).unwrap().0, 3);
}

// The engine tolerates multi-edges and self-loops.
#[test]
fn dijkstra_multi_edges_and_loops() {
    let mut g = Graph::new(3);
    g.add_edge(0, 0, 5);
    g.add_edge(0, 1, 9);
    g.add_edge(0, 1, 2);
    g.add_edge(1, 2, 1);
    let (d, prev) = dijkstra(&g, 0, 2).unwrap();
    assert_eq!(d, 3);
    assert_eq!(reconstruct_path(prev, 2).unwrap(), vec![0, 1, 2]);
}
