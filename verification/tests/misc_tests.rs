use sha2::{Digest, Sha512};
use std::collections::HashMap;
use tsp::bfs::{bfs, bfs_with_array_queue};
use tsp::claims::Claims;
use tsp::coordinate::Coordinate;
use tsp::errors::RouteError;
use tsp::global::Data;
use tsp::graph::Graph;
use tsp::hash::hash_password;
use tsp::kdtree::KdTree;
use tsp::salt::gen_salt;
use tsp::shortestpath::{approximate_coordinate, build_path};
use tsp::signup::check_email;
use tsp::trip::Location;

fn pt(lat: i64, lng: i64, id: usize) -> Coordinate {
    Coordinate { lat, lng, id }
}

// The salted hash is the SHA-512 hex digest of salt then password.
#[test]
fn hash_password_matches_sha512() {
    let got = hash_password(&String::new(), "abc");
    let known = "ddaf35a193617abacc417349ae20413112e6fa4e89a97ea20a9eeee64b55d39a2192992a274fc1a836ba3c23a3feebbd454d4423643ce80e2a9ac94fa54ca49f";
    assert_eq!(got, known);
    let salt = String::from("pepper");
    let got2 = hash_password(&salt, "hunter2");
    let mut hasher = Sha512::new();
    hasher.update("pepperhunter2".as_bytes());
    let want: String = hasher.finalize().iter().map(|b| format!("{:02x}", b)).collect();
    assert_eq!(got2, want);
}

// A fresh salt is always thirty-two hexadecimal characters.
#[test]
fn gen_salt_shape() {
    for _ in 0..8 {
        let s = gen_salt();
        assert_eq!(s.len(), 32);
        assert!(s.chars().all(|c| c.is_ascii_hexdigit() && !c.is_ascii_uppercase()));
    }
}

// The account-email gate accepts ordinary addresses and rejects malformed
// or upper-case ones.
#[test]
fn check_email_gate() {
    assert!(check_email("user@example.com"));
    assert!(check_email("a_b+c@mail.co"));
    assert!(!check_email("not-an-email"));
    assert!(!check_email("USER@EXAMPLE.COM"));
    assert!(!check_email("@example.com"));
}

// Claims whose expiry precedes their issue time are inconsistent.
#[test]
fn claims_window() {
    let good = Claims { uid: 1, username: String::from("ada"), exp: 200, iat: 100 };
    let bad = Claims { uid: 1, username: String::from("ada"), exp: 99, iat: 100 };
    assert!(good.times_consistent());
    assert!(!bad.times_consistent());
}

// Every error variant renders its own message.
#[test]
fn error_messages() {
    assert_eq!(RouteError::NoPathFound.message(), "No path found");
    assert_eq!(RouteError::InvalidInput.message(), "Invalid input");
    assert_eq!(RouteError::CapacityExceeded.message(), "Capacity exceeded");
}

// Both breadth-first variants mark every node of the graph.
#[test]
fn bfs_marks_everything() {
    let mut g = Graph::new(6);
    g.add_edge(0, 1, 1);
    g.add_edge(1, 2, 1);
    g.add_edge(4, 5, 1);
    let marked = bfs(&g);
    assert_eq!(marked, vec![true; 6]);
    let marked2 = bfs_with_array_queue(&g);
    assert_eq!(marked2, vec![true; 6]);
}

fn small_context() -> Data {
    let mut g = Graph::new(5);
    for (u, v) in [(0, 1), (1, 2), (2, 3), (3, 4)] {
        g.add_edge(u, v, 1);
        g.add_edge(v, u, 1);
    }
    let points = vec![
        pt(0, 0, 0),
        pt(10, 0, 1),
        pt(20, 0, 2),
        pt(30, 0, 3),
        pt(40, 0, 4),
    ];
    let mut map = HashMap::new();
    for p in &points {
        map.insert(p.id, *p);
    }
    Data { graph: g, map_id_to_coordinates: map, kd_tree: KdTree::new(points) }
}

fn loc(c: Coordinate) -> Location {
    Location {
        address: String::new(),
        address_complement: String::new(),
        coordinates: c,
        place_id: String::new(),
        id: c.id,
    }
}

// Raw coordinates resolve to nearby road nodes, ranked by proximity.
#[test]
fn approximate_coordinate_ranks() {
    let data = small_context();
    let got = approximate_coordinate(&data, &pt(11, 0, 0));
    assert!(!got.is_empty() && got.len() <= 5);
    assert_eq!(got[0].id, 1);
    for w in got.windows(2) {
        assert!(
            KdTree::distance(&pt(11, 0, 0), &w[0]) <= KdTree::distance(&pt(11, 0, 0), &w[1])
        );
    }
}

// A connected pair of stops resolves to a road path with its distance; a
// pair that no candidate pair can connect fails with NoPathFound.
#[test]
fn build_path_resolves_or_fails() {
    let data = small_context();
    let stops = vec![loc(pt(1, 0, 0)), loc(pt(39, 0, 4))];
    let (d, coords) = build_path(&stops, &data).unwrap();
    assert!(d > 0);
    assert!(!coords.is_empty());
    let mut lonely_graph = Graph::new(2);
    lonely_graph.add_edge(0, 1, 1);
    let one_point = vec![pt(0, 0, 0)];
    let mut map = HashMap::new();
    map.insert(0usize, one_point[0]);
    map.insert(1usize, pt(5, 5, 1));
    let lonely = Data {
        graph: lonely_graph,
        map_id_to_coordinates: map,
        kd_tree: KdTree::new(one_point),
    };
    let stops2 = vec![loc(pt(0, 0, 0)), loc(pt(1, 1, 0))];
    assert_eq!(build_path(&stops2, &lonely).unwrap_err(), RouteError::NoPathFound);
}
