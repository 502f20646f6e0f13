use tsp::coordinate::Coordinate;
use tsp::errors::RouteError;
use tsp::graph::Graph;
use tsp::tsp_solver::TspSolver;

fn pt(lat: i64, lng: i64, id: usize) -> Coordinate {
    Coordinate { lat, lng, id }
}

fn tour_cost(dists: &[Vec<u64>], order: &[usize]) -> u64 {
    let mut total = 0u64;
    for w in order.windows(2) {
        total += dists[w[0]][w[1]];
    }
    total
}

fn permutations(rest: &mut Vec<usize>, chosen: &mut Vec<usize>, out: &mut Vec<Vec<usize>>) {
    if rest.is_empty() {
        out.push(chosen.clone());
        return;
    }
    for i in 0..rest.len() {
        let v = rest.remove(i);
        chosen.push(v);
        permutations(rest, chosen, out);
        chosen.pop();
        rest.insert(i, v);
    }
}

fn brute_force_best(dists: &[Vec<u64>]) -> u64 {
    let n = dists.len();
    let mut rest: Vec<usize> = (1..n).collect();
    let mut perms = Vec::new();
    permutations(&mut rest, &mut Vec::new(), &mut perms);
    let mut best = u64::MAX;
    for perm in perms {
        let mut order = vec![0];
        order.extend(perm);
        order.push(0);
        best = best.min(tour_cost(dists, &order));
    }
    best
}

fn run_instance(dists: Vec<Vec<u64>>) {
    let n = dists.len();
    let g = Graph::new(1);
    let nodes: Vec<Coordinate> = (0..n).map(|i| pt(i as i64, -(i as i64), i + 100)).collect();
    let mut solver = TspSolver::new(&g, nodes.clone(), dists.clone());
    let path = solver.held_karp_solve().unwrap();
    // A closed tour over every waypoint exactly once.
    assert_eq!(path.len(), n + 1);
    assert_eq!(path[0], nodes[0].id);
    assert_eq!(path[n], nodes[0].id);
    let mut order: Vec<usize> = Vec::new();
    for id in &path {
        let idx = nodes.iter().position(|c| c.id == *id).unwrap();
        order.push(idx);
    }
    let mut seen = order[1..n].to_vec();
    seen.sort();
    assert_eq!(seen, (1..n).collect::<Vec<usize>>());
    // The tour's cost is the optimum found by exhaustive search.
    assert_eq!(tour_cost(&dists, &order), brute_force_best(&dists));
}

// The known 4-waypoint instance reproduces the exhaustive-search optimum.
#[test]
fn held_karp_four_waypoints() {
    let dists = vec![
        vec![0, 10, 15, 20],
        vec![10, 0, 35, 25],
        vec![15, 35, 0, 30],
        vec![20, 25, 30, 0],
    ];
    assert_eq!(brute_force_best(&dists), 80);
    run_instance(dists);
}

// Pseudo-random instances up to eight waypoints cross-check against brute
// force.
#[test]
fn held_karp_random_small_instances() {
    let mut seed: u64 = 0x9E37_79B9;
    let mut next = move || {
        seed = seed.wrapping_mul(6364136223846793005).wrapping_add(1442695040888963407);
        (seed >> 33) % 97 + 1
    };
    for n in 2..=8usize {
        let mut dists = vec![vec![0u64; n]; n];
        for i in 0..n {
            for j in 0..n {
                if i != j {
                    dists[i][j] = next();
                }
            }
        }
        run_instance(dists);
    }
}

// Undersized and oversized waypoint lists are rejected explicitly.
#[test]
fn held_karp_input_gates() {
    let g = Graph::new(1);
    let mut one = TspSolver::new(&g, vec![pt(0, 0, 0)], vec![vec![0]]);
    assert_eq!(one.held_karp_solve().unwrap_err(), RouteError::InvalidInput);
    let mut none = TspSolver::new(&g, Vec::new(), Vec::new());
    assert_eq!(none.held_karp_solve().unwrap_err(), RouteError::InvalidInput);
    let big = 21usize;
    let nodes: Vec<Coordinate> = (0..big).map(|i| pt(i as i64, 0, i)).collect();
    let dists = vec![vec![1u64; big]; big];
    let mut over = TspSolver::new(&g, nodes, dists);
    assert_eq!(over.held_karp_solve().unwrap_err(), RouteError::CapacityExceeded);
}

// Expanding a solved tour walks real road segments between consecutive
// tour nodes, and fails only when a pair cannot be connected.
#[test]
fn expand_path_follows_road() {
    let mut g = Graph::new(3);
    g.add_edge(0, 1, 1);
    g.add_edge(1, 2, 1);
    g.add_edge(2, 0, 1);
    g.add_edge(1, 0, 1);
    g.add_edge(2, 1, 1);
    g.add_edge(0, 2, 1);
    let nodes = vec![pt(0, 0, 0), pt(1, 1, 2)];
    let dists = vec![vec![0, 5], vec![5, 0]];
    let mut solver = TspSolver::new(&g, nodes, dists);
    let tour = solver.held_karp_solve().unwrap();
    assert_eq!(tour, vec![0, 2, 0]);
    let expanded = solver.expand_path().unwrap();
    assert!(expanded.len() >= 3);
    for v in &expanded {
        assert!(*v < 3);
    }
    let mut disconnected = Graph::new(3);
    disconnected.add_edge(0, 1, 1);
    let nodes2 = vec![pt(0, 0, 0), pt(1, 1, 2)];
    let dists2 = vec![vec![0, 5], vec![5, 0]];
    let mut solver2 = TspSolver::new(&disconnected, nodes2, dists2);
    solver2.held_karp_solve().unwrap();
    assert_eq!(solver2.expand_path().unwrap_err(), RouteError::NoPathFound);
}
