//! Route-planning core: a weighted directed road graph, an indexed binary
//! min-heap with decrease-key, Dijkstra and A* shortest-path search, a
//! two-dimensional KD-tree for nearest-point lookup, and a Held-Karp
//! dynamic-programming solver for small waypoint tours.

pub mod bfs;
pub mod claims;
pub mod coordinate;
pub mod ds;
pub mod errors;
pub mod global;
pub mod hash;
pub mod graph;
pub mod kdtree;
pub mod loader;
pub mod locations;
pub mod path;
pub mod priority_queue;
pub mod response;
pub mod salt;
pub mod shortest_paths;
pub mod shortestpath;
pub mod signup;
pub mod trip;
pub mod tsp_solver;
pub mod user;
