use tsp::coordinate::Coordinate;
use tsp::graph::Graph;
use tsp::kdtree::KdTree;
use tsp::shortest_paths::dijkstra;

fn pt(lat: i64, lng: i64, id: usize) -> Coordinate {
    Coordinate { lat, lng, id }
}

fn sample_points() -> Vec<Coordinate> {
    vec![
        pt(4_665_179, -74_063_324, 0),
        pt(4_700_000, -74_000_000, 1),
        pt(4_600_000, -74_100_000, 2),
        pt(4_650_000, -74_050_000, 3),
        pt(4_680_000, -74_200_000, 4),
        pt(4_500_000, -73_900_000, 5),
        pt(4_710_000, -74_120_000, 6),
        pt(4_655_000, -74_061_000, 7),
    ]
}

fn brute_force_nearest(points: &[Coordinate], target: &Coordinate) -> Coordinate {
    let mut best = points[0];
    for p in points.iter() {
        if KdTree::distance(target, p) < KdTree::distance(target, &best) {
            best = *p;
        }
    }
    best
}

// The index returns the same nearest point as a brute-force scan over
// squared distance.
#[test]
fn nearest_neighbor_matches_brute_force() {
    let points = sample_points();
    let tree = KdTree::new(points.clone());
    let targets = vec![
        pt(4_665_000, -74_063_000, 0),
        pt(4_000_000, -74_000_000, 0),
        pt(5_000_000, -75_000_000, 0),
        pt(4_655_001, -74_061_002, 0),
    ];
    for t in targets {
        let got = tree.get_nearest_neighbor(&t).unwrap();
        let want = brute_force_nearest(&points, &t);
        assert_eq!(KdTree::distance(&t, &got), KdTree::distance(&t, &want));
    }
}

// The degenerate one-point set still answers.
#[test]
fn nearest_neighbor_singleton() {
    let tree = KdTree::new(vec![pt(1, 2, 9)]);
    let got = tree.get_nearest_neighbor(&pt(100, 100, 0)).unwrap();
    assert_eq!(got.id, 9);
}

// An empty index fails instead of answering.
#[test]
fn nearest_neighbor_empty() {
    let tree = KdTree::new(Vec::new());
    assert!(tree.get_nearest_neighbor(&pt(0, 0, 0)).is_err());
}

// The ranked list holds at most k points, sorted by non-decreasing
// distance, without duplicate identities, and its head is the single
// nearest answer.
#[test]
fn k_nearest_ranked_list() {
    let points = sample_points();
    let tree = KdTree::new(points.clone());
    let t = pt(4_660_000, -74_060_000, 0);
    for k in [0usize, 1, 3, 5, 8, 100] {
        let got = tree.get_n_nearest_neighbor(&t, k).unwrap();
        assert!(got.len() <= k);
        for w in got.windows(2) {
            assert!(KdTree::distance(&t, &w[0]) <= KdTree::distance(&t, &w[1]));
        }
        for a in 0..got.len() {
            for b in 0..got.len() {
                if a != b {
                    assert_ne!(got[a].id, got[b].id);
                }
            }
        }
        if k > 0 {
            let single = tree.get_nearest_neighbor(&t).unwrap();
            assert_eq!(KdTree::distance(&t, &got[0]), KdTree::distance(&t, &single));
        }
    }
}

// Squared-distance arithmetic and the pointwise helpers.
#[test]
fn distance_and_closest() {
    let a = pt(3, 4, 0);
    let b = pt(0, 0, 1);
    assert_eq!(KdTree::distance(&a, &b), 25);
    let c = pt(3, 5, 2);
    let best = KdTree::closest(&b, &a, &c);
    assert_eq!(best.id, 0);
    assert_eq!(KdTree::compare(&a, &c, 1), std::cmp::Ordering::Less);
    assert_eq!(KdTree::compare(&a, &c, 0), std::cmp::Ordering::Greater);
}

// Rebuilding the index and the graph from identical input yields
// query-equivalent answers.
#[test]
fn rebuild_is_query_equivalent() {
    let points = sample_points();
    let tree_a = KdTree::new(points.clone());
    let tree_b = KdTree::new(points.clone());
    let targets = vec![pt(4_664_000, -74_062_000, 0), pt(4_540_000, -73_950_000, 0)];
    for t in &targets {
        let a = tree_a.get_nearest_neighbor(t).unwrap();
        let b = tree_b.get_nearest_neighbor(t).unwrap();
        assert_eq!(a.id, b.id);
        let ka = tree_a.get_n_nearest_neighbor(t, 3).unwrap();
        let kb = tree_b.get_n_nearest_neighbor(t, 3).unwrap();
        let ids_a: Vec<usize> = ka.iter().map(|c| c.id).collect();
        let ids_b: Vec<usize> = kb.iter().map(|c| c.id).collect();
        assert_eq!(ids_a, ids_b);
    }
    let build = || {
        let mut g = Graph::new(4);
        g.add_edge(0, 1, 2);
        g.add_edge(1, 2, 2);
        g.add_edge(0, 2, 5);
        g.add_edge(2, 3, 1);
        g
    };
    let g1 = build();
    let g2 = build();
    for s in 0..4 {
        for d in 0..4 {
            let r1 = dijkstra(&g1, s, d).map(|x| x.0);
            let r2 = dijkstra(&g2, s, d).map(|x| x.0);
            assert_eq!(r1, r2);
        }
    }
}
