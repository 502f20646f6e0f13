use vstd::prelude::*;

verus! {

/// An immutable weighted directed graph in adjacency-list form. Node
/// identities are the dense integers `0..n`. `edges[u]` lists the heads of
/// the arcs leaving `u`, and `weights[u]` holds, in parallel, each arc's
/// non-negative weight. Multi-edges and self-loops are permitted.
#[derive(Debug)]
pub struct Graph {
    pub edges: Vec<Vec<usize>>,
    pub weights: Vec<Vec<u32>>,
}

impl Graph {
    /// The number of nodes.
    pub open spec fn n(self) -> int {
        self.edges@.len() as int
    }

    /// The two lists are parallel and every arc head is a node of the graph.
    pub open spec fn well_formed(self) -> bool {
        &&& self.weights@.len() == self.edges@.len()
        &&& forall|u: int|
            0 <= u < self.n() ==> (#[trigger] self.edges@[u])@.len() == self.weights@[u]@.len()
        &&& forall|u: int, i: int|
            0 <= u < self.n() && 0 <= i < self.edges@[u]@.len() ==> #[trigger] self.edges@[u]@[i]
                < self.n()
    }

    /// There is an arc from `u` to `v` of weight `w`.
    pub open spec fn has_edge(self, u: int, v: int, w: int) -> bool {
        exists|i: int|
            0 <= i < (#[trigger] self.edges@[u])@.len() && self.edges@[u]@[i] == v
                && self.weights@[u]@[i] == w
    }

    /// Allocates a graph of `n` nodes with no arcs.
    pub fn new(n: usize) -> (g: Graph)
        ensures
            g.well_formed(),
            g.n() == n,
            forall|u: int| 0 <= u < n ==> (#[trigger] g.edges@[u])@.len() == 0,
    {
        let mut edges: Vec<Vec<usize>> = Vec::new();
        let mut weights: Vec<Vec<u32>> = Vec::new();
        let mut i: usize = 0;
        while i < n
            invariant
                i <= n,
                edges@.len() == i,
                weights@.len() == i,
                forall|u: int| 0 <= u < i ==> (#[trigger] edges@[u])@.len() == 0,
                forall|u: int| 0 <= u < i ==> (#[trigger] weights@[u])@.len() == 0,
            decreases n - i,
        {
            edges.push(Vec::new());
            weights.push(Vec::new());
            i = i + 1;
        }
        Graph { edges, weights }
    }

    /// Appends the arc `u -> v` with weight `w`. Constant-time; the caller
    /// must pass node identities below `n`.
    pub fn add_edge(&mut self, u: usize, v: usize, w: u32)
        requires
            old(self).well_formed(),
            u < old(self).n(),
            v < old(self).n(),
        ensures
            final(self).well_formed(),
            final(self).n() == old(self).n(),
            final(self).edges@[u as int]@ == old(self).edges@[u as int]@.push(v),
            final(self).weights@[u as int]@ == old(self).weights@[u as int]@.push(w),
            forall|x: int|
                0 <= x < old(self).n() && x != u ==> (#[trigger] final(self).edges@[x]) == old(
                    self,
                ).edges@[x] && final(self).weights@[x] == old(self).weights@[x],
    {
        self.edges[u].push(v);
        self.weights[u].push(w);
    }
}

} // verus!
