use crate::coordinate::Coordinate;
use crate::graph::Graph;
use crate::kdtree::{all_in_range, distinct_ids, KdTree};
use std::collections::HashMap;
use vstd::prelude::*;

verus! {

broadcast use vstd::std_specs::hash::group_hash_axioms, vstd::seq_lib::lemma_seq_contains;

/// The process-wide read-only routing context, built once at startup: the
/// road graph, the map from node identity to coordinate, and the spatial
/// index over all coordinates. Indices agree across all three structures.
pub struct Data {
    pub graph: Graph,
    pub map_id_to_coordinates: HashMap<usize, Coordinate>,
    pub kd_tree: KdTree,
}

impl Data {
    /// The three structures agree: the graph and the index are well formed,
    /// every graph node has a coordinate under its own identity, and every
    /// indexed point names a graph node, no identity twice.
    pub open spec fn wf(self) -> bool {
        &&& self.graph.well_formed()
        &&& self.kd_tree.wf()
        &&& distinct_ids(self.kd_tree.root@)
        &&& forall|v: usize|
            v < self.graph.n() ==> self.map_id_to_coordinates@.contains_key(v) && (
            #[trigger] self.map_id_to_coordinates@[v]).in_range()
        &&& forall|x: int|
            0 <= x < self.kd_tree.root@.len() ==> (#[trigger] self.kd_tree.root@[x]).id
                < self.graph.n()
    }
}

} // verus!
