use crate::errors::RouteError;
use crate::graph::Graph;
use crate::priority_queue::{contains_id, MinHeap, Prioritiness};
use vstd::prelude::*;

verus! {

broadcast use vstd::seq_lib::group_to_multiset_ensures, vstd::multiset::group_multiset_axioms, vstd::seq_lib::lemma_seq_contains;

/// Sentinel distance of a node that has not been reached. Finite enough
/// that sums with an edge weight and two heuristic estimates stay inside
/// `i64`.
pub const INFINITY: i64 = 0x4000_0000_0000_0000;

/// Upper bound admitted for one heuristic estimate.
pub const HEURISTIC_LIMIT: i64 = 0x100_0000_0000;

/// A node identity paired with its tentative distance; the element type of
/// the search queue and of predecessor-table entries.
#[derive(Clone, Copy, Debug)]
pub struct NodeInfo {
    pub distance: i64,
    pub id: usize,
}

impl NodeInfo {
    fn new(distance: i64, id: usize) -> (r: Self)
        ensures
            r.distance == distance,
            r.id == id,
    {
        Self { distance, id }
    }
}

impl Prioritiness for NodeInfo {
    open spec fn spec_id(&self) -> usize {
        self.id
    }

    open spec fn spec_priority(&self) -> i64 {
        self.distance
    }

    fn id(&self) -> usize {
        self.id
    }

    fn priority(&self) -> i64 {
        self.distance
    }

    fn change_priority(&mut self, new_p: i64) {
        self.distance = new_p;
    }
}

/// The all-zero heuristic of an `n`-node graph: it turns A* into Dijkstra.
pub open spec fn zero_heuristic(n: int) -> Seq<i64> {
    Seq::new(n as nat, |i: int| 0i64)
}

/// A usable heuristic-estimate table: one in-range estimate per node,
/// consistent with the arc weights (along any arc the estimate falls by at
/// most the arc's weight).
pub open spec fn heuristic_wf(g: Graph, h: Seq<i64>) -> bool {
    &&& h.len() == g.n()
    &&& forall|v: int| 0 <= v < h.len() ==> 0 <= #[trigger] h[v] <= HEURISTIC_LIMIT
    &&& forall|u: int, i: int|
        0 <= u < g.n() && 0 <= i < g.edges@[u]@.len() ==> h[u] <= g.weights@[u]@[i] + h[
            #[trigger] g.edges@[u]@[i] as int
        ]
}

/// What one search run guarantees of its outputs, witnessed by the final
/// tentative-distance table `dist` (distances are heuristic-adjusted:
/// `dist[v]` carries `+ h[v] - h[src]`).
///
/// Every predecessor entry `prev[v] == Some(u)` names a real arc `u.id -> v`
/// whose relaxation produced `dist[v]`, and a node other than the source
/// without a predecessor was never reached.
pub open spec fn search_table_wf(
    g: Graph,
    h: Seq<i64>,
    src: int,
    prev: Seq<Option<NodeInfo>>,
    dist: Seq<i64>,
) -> bool {
    &&& dist.len() == g.n()
    &&& prev.len() == g.n()
    &&& dist[src] == 0
    &&& prev[src] is None
    &&& forall|v: int| 0 <= v < dist.len() ==> 0 <= #[trigger] dist[v] <= INFINITY
    &&& forall|v: int| 0 <= v < dist.len() ==> h[v] - h[src] <= #[trigger] dist[v]
    &&& forall|v: int|
        0 <= v < prev.len() && (#[trigger] prev[v]) is Some ==> {
            let u = prev[v]->Some_0;
            &&& u.id < g.n()
            &&& u.distance == dist[u.id as int]
            &&& u.distance < INFINITY
            &&& dist[v] < INFINITY
            &&& exists|i: int|
                0 <= i < g.edges@[u.id as int]@.len() && #[trigger] g.edges@[u.id as int]@[i] == v
                    && dist[v] == u.distance + g.weights@[u.id as int]@[i] + h[v] - h[u.id as int]
        }
    &&& forall|v: int|
        0 <= v < prev.len() && v != src && (#[trigger] prev[v]) is None ==> dist[v] == INFINITY
}

/// The predecessor table admits a ranking under which every predecessor
/// strictly precedes its successor: following predecessors always
/// terminates.
pub open spec fn prev_table_ranked(prev: Seq<Option<NodeInfo>>, rank: Seq<nat>) -> bool {
    &&& rank.len() == prev.len()
    &&& forall|v: int|
        0 <= v < prev.len() && (#[trigger] prev[v]) is Some ==> {
            let u = prev[v]->Some_0;
            u.id < prev.len() && rank[u.id as int] < rank[v]
        }
}

/// The predecessor table is acyclic: some ranking orders it.
pub open spec fn prev_table_acyclic(prev: Seq<Option<NodeInfo>>) -> bool {
    exists|rank: Seq<nat>| prev_table_ranked(prev, rank)
}

/// What `dijkstra` and `astar` promise. On success the distance equals the
/// destination's final tentative distance with the heuristic adjustment
/// removed, the table is consistent and acyclic, and no walk from source to
/// destination costs less than the reported distance; on failure every such
/// walk costs at least the sentinel, so a destination reachable within the
/// sentinel is never refused. Searching a node from itself always succeeds
/// with distance zero.
pub open spec fn search_post(
    g: Graph,
    h: Seq<i64>,
    src: int,
    dest: int,
    r: Result<(i64, Vec<Option<NodeInfo>>), RouteError>,
) -> bool {
    &&& match r {
        Ok((d, prev)) => {
            &&& prev@.len() == g.n()
            &&& prev_table_acyclic(prev@)
            &&& exists|dist: Seq<i64>|
                {
                    &&& #[trigger] search_table_wf(g, h, src, prev@, dist)
                    &&& dist[dest] < INFINITY
                    &&& d == dist[dest] - h[dest] + h[src]
                }
            &&& d >= 0
            &&& src == dest ==> d == 0 && prev@[dest] is None
            &&& forall|nodes: Seq<usize>, arcs: Seq<int>|
                #[trigger] walk_connects(g, nodes, arcs, src, dest) ==> d <= walk_cost(
                    g,
                    nodes,
                    arcs,
                    arcs.len() as int,
                )
        },
        Err(e) => {
            &&& e == RouteError::NoPathFound
            &&& src != dest
            &&& forall|nodes: Seq<usize>, arcs: Seq<int>|
                #[trigger] walk_connects(g, nodes, arcs, src, dest) ==> walk_cost(
                    g,
                    nodes,
                    arcs,
                    arcs.len() as int,
                ) + h[dest] - h[src] >= INFINITY
        },
    }
}

/// A walk of the graph: a non-empty node sequence together with, for each
/// step, the index of the arc taken.
pub open spec fn is_walk(g: Graph, nodes: Seq<usize>, arcs: Seq<int>) -> bool {
    &&& nodes.len() >= 1
    &&& arcs.len() == nodes.len() - 1
    &&& forall|x: int| 0 <= x < nodes.len() ==> #[trigger] nodes[x] < g.n()
    &&& forall|x: int|
        0 <= x < arcs.len() ==> 0 <= #[trigger] arcs[x] && arcs[x] < g.edges@[
            nodes[x] as int
        ]@.len() && g.edges@[nodes[x] as int]@[arcs[x]] == nodes[x + 1]
}

/// The summed weight of the first `k` steps of a walk.
pub open spec fn walk_cost(g: Graph, nodes: Seq<usize>, arcs: Seq<int>, k: int) -> int
    decreases k,
{
    if k <= 0 {
        0
    } else {
        walk_cost(g, nodes, arcs, k - 1) + g.weights@[nodes[k - 1] as int]@[arcs[k - 1]]
    }
}

/// A walk that joins `src` to `dest`.
pub open spec fn walk_connects(
    g: Graph,
    nodes: Seq<usize>,
    arcs: Seq<int>,
    src: int,
    dest: int,
) -> bool {
    is_walk(g, nodes, arcs) && nodes[0] == src && nodes[nodes.len() - 1] == dest
}

/// Every arc leaving `u` among the first `upto` is relaxed: its head's
/// adjusted distance is no more than what crossing the arc from `u` gives.
pub open spec fn relaxed_upto(g: Graph, h: Seq<i64>, dist: Seq<i64>, u: int, upto: int) -> bool {
    forall|i: int|
        0 <= i < upto ==> dist[#[trigger] g.edges@[u]@[i] as int] <= dist[u] + g.weights@[u]@[i]
            + h[g.edges@[u]@[i] as int] - h[u]
}

/// Every arc leaving `u` is relaxed.
pub open spec fn relaxed_from(g: Graph, h: Seq<i64>, dist: Seq<i64>, u: int) -> bool {
    relaxed_upto(g, h, dist, u, g.edges@[u]@.len() as int)
}

/// Relaxedness survives when no distance grows and `u`'s own stays put.
proof fn lemma_relaxed_preserved(
    g: Graph,
    h: Seq<i64>,
    old_dist: Seq<i64>,
    new_dist: Seq<i64>,
    u: int,
    upto: int,
)
    requires
        g.well_formed(),
        0 <= u < g.n(),
        upto <= g.edges@[u]@.len(),
        relaxed_upto(g, h, old_dist, u, upto),
        new_dist.len() == old_dist.len(),
        old_dist.len() == g.n(),
        forall|v: int| 0 <= v < old_dist.len() ==> #[trigger] new_dist[v] <= old_dist[v],
        new_dist[u] == old_dist[u],
    ensures
        relaxed_upto(g, h, new_dist, u, upto),
{
    assert forall|i: int| 0 <= i < upto implies new_dist[#[trigger] g.edges@[u]@[i] as int]
        <= new_dist[u] + g.weights@[u]@[i] + h[g.edges@[u]@[i] as int] - h[u] by {
        assert(old_dist[g.edges@[u]@[i] as int] <= old_dist[u] + g.weights@[u]@[i] + h[
            g.edges@[u]@[i] as int
        ] - h[u]);
    }
}

/// Consistency telescopes along a walk: the estimate at any position is at
/// most the remaining walk cost plus the estimate at the end.
proof fn lemma_walk_telescope(g: Graph, h: Seq<i64>, nodes: Seq<usize>, arcs: Seq<int>, k: int)
    requires
        g.well_formed(),
        heuristic_wf(g, h),
        is_walk(g, nodes, arcs),
        0 <= k < nodes.len(),
    ensures
        walk_cost(g, nodes, arcs, k) + h[nodes[k] as int] <= walk_cost(
            g,
            nodes,
            arcs,
            arcs.len() as int,
        ) + h[nodes[nodes.len() - 1] as int],
    decreases nodes.len() - k,
{
    if k < nodes.len() - 1 {
        assert(h[nodes[k] as int] <= g.weights@[nodes[k] as int]@[arcs[k]] + h[
            #[trigger] g.edges@[nodes[k] as int]@[arcs[k]] as int
        ]);
        lemma_walk_telescope(g, h, nodes, arcs, k + 1);
    }
}

/// Along a walk whose prefix is finalized, the tentative adjusted distance
/// never exceeds the walk's own adjusted prefix cost.
proof fn lemma_walk_prefix_bound(
    g: Graph,
    h: Seq<i64>,
    src: int,
    dist: Seq<i64>,
    visited: Seq<bool>,
    nodes: Seq<usize>,
    arcs: Seq<int>,
    k: int,
)
    requires
        g.well_formed(),
        heuristic_wf(g, h),
        is_walk(g, nodes, arcs),
        nodes[0] == src,
        0 <= src < g.n(),
        dist.len() == g.n(),
        visited.len() == g.n(),
        dist[src] == 0,
        0 <= k < nodes.len(),
        forall|u: int| 0 <= u < g.n() && visited[u] ==> #[trigger] relaxed_from(g, h, dist, u),
        forall|i: int| 0 <= i < k ==> visited[#[trigger] nodes[i] as int],
    ensures
        dist[nodes[k] as int] <= walk_cost(g, nodes, arcs, k) + h[nodes[k] as int] - h[src],
    decreases k,
{
    if k > 0 {
        lemma_walk_prefix_bound(g, h, src, dist, visited, nodes, arcs, k - 1);
        assert(relaxed_from(g, h, dist, nodes[k - 1] as int));
        assert(dist[#[trigger] g.edges@[nodes[k - 1] as int]@[arcs[k - 1]] as int] <= dist[
            nodes[k - 1] as int
        ] + g.weights@[nodes[k - 1] as int]@[arcs[k - 1]] + h[
            g.edges@[nodes[k - 1] as int]@[arcs[k - 1]] as int
        ] - h[nodes[k - 1] as int]);
    }
}

/// The cut argument: at the end of a search every walk to the destination
/// witnesses a bound on the destination's adjusted distance — either the
/// whole walk was finalized, or its first unfinalized node still bounds the
/// destination from below.
proof fn lemma_walk_cut(
    g: Graph,
    h: Seq<i64>,
    src: int,
    dest: int,
    dist: Seq<i64>,
    visited: Seq<bool>,
    nodes: Seq<usize>,
    arcs: Seq<int>,
    k: int,
)
    requires
        g.well_formed(),
        heuristic_wf(g, h),
        walk_connects(g, nodes, arcs, src, dest),
        0 <= src < g.n(),
        0 <= dest < g.n(),
        dist.len() == g.n(),
        visited.len() == g.n(),
        dist[src] == 0,
        forall|u: int| 0 <= u < g.n() && visited[u] ==> #[trigger] relaxed_from(g, h, dist, u),
        forall|v: int| 0 <= v < g.n() && !(#[trigger] visited[v]) ==> dist[dest] <= dist[v],
        0 <= k < nodes.len(),
        forall|i: int| 0 <= i < k ==> visited[#[trigger] nodes[i] as int],
    ensures
        dist[dest] <= walk_cost(g, nodes, arcs, arcs.len() as int) + h[dest] - h[src],
    decreases nodes.len() - k,
{
    if !visited[nodes[k] as int] {
        lemma_walk_prefix_bound(g, h, src, dist, visited, nodes, arcs, k);
        lemma_walk_telescope(g, h, nodes, arcs, k);
    } else if k == nodes.len() - 1 {
        lemma_walk_prefix_bound(g, h, src, dist, visited, nodes, arcs, k);
    } else {
        lemma_walk_cut(g, h, src, dest, dist, visited, nodes, arcs, k + 1);
    }
}

/// A reconstructed chain against a predecessor table: it starts at a node
/// without a predecessor and every step follows a recorded predecessor
/// entry. `reconstruct_path` returns exactly such chains.
pub open spec fn path_links(prev: Seq<Option<NodeInfo>>, path: Seq<usize>) -> bool {
    &&& path.len() >= 1
    &&& forall|x: int| 0 <= x < path.len() ==> #[trigger] path[x] < prev.len()
    &&& prev[path[0] as int] is None
    &&& forall|x: int|
        0 <= x < path.len() - 1 ==> (#[trigger] prev[path[x + 1] as int]) is Some && prev[path[x
            + 1] as int]->Some_0.id == path[x]
}

/// The per-step true arc weight of a chain, recovered from the adjusted
/// distances, summed over the first `k` steps.
pub open spec fn chain_weight_sum(h: Seq<i64>, dist: Seq<i64>, path: Seq<usize>, k: int) -> int
    decreases k,
{
    if k <= 0 {
        0
    } else {
        chain_weight_sum(h, dist, path, k - 1) + (dist[path[k] as int] - dist[path[k - 1] as int]
            - h[path[k] as int] + h[path[k - 1] as int])
    }
}

/// The per-step weights of a chain telescope.
proof fn lemma_chain_weight_telescopes(h: Seq<i64>, dist: Seq<i64>, path: Seq<usize>, k: int)
    requires
        0 <= k < path.len(),
        forall|x: int| 0 <= x < path.len() ==> #[trigger] path[x] < dist.len(),
        forall|x: int| 0 <= x < path.len() ==> path[x] < h.len(),
    ensures
        chain_weight_sum(h, dist, path, k) == dist[path[k] as int] - dist[path[0] as int] - h[
            path[k] as int
        ] + h[path[0] as int],
    decreases k,
{
    if k > 0 {
        lemma_chain_weight_telescopes(h, dist, path, k - 1);
    }
}

/// The soundness law of the search: any reconstructed chain ending at a
/// reached node is a real walk of the graph that starts at the search's
/// source, every step of it crosses a real arc, and the true weights of
/// those arcs sum to exactly the distance the search reports for the end
/// node.
pub proof fn lemma_search_path_sound(
    g: Graph,
    h: Seq<i64>,
    src: int,
    prev: Seq<Option<NodeInfo>>,
    dist: Seq<i64>,
    path: Seq<usize>,
)
    requires
        0 <= src < g.n(),
        heuristic_wf(g, h),
        search_table_wf(g, h, src, prev, dist),
        path_links(prev, path),
        dist[path[path.len() - 1] as int] < INFINITY,
    ensures
        path[0] == src,
        forall|x: int|
            0 <= x < path.len() - 1 ==> g.has_edge(
                #[trigger] path[x] as int,
                path[x + 1] as int,
                dist[path[x + 1] as int] - dist[path[x] as int] - h[path[x + 1] as int] + h[
                    path[x] as int
                ],
            ),
        chain_weight_sum(h, dist, path, path.len() - 1) == dist[path[path.len() - 1] as int] - h[
            path[path.len() - 1] as int
        ] + h[src],
{
    assert forall|x: int|
        0 <= x < path.len() - 1 implies g.has_edge(
        #[trigger] path[x] as int,
        path[x + 1] as int,
        dist[path[x + 1] as int] - dist[path[x] as int] - h[path[x + 1] as int] + h[
            path[x] as int
        ],
    ) by {
        let u = prev[path[x + 1] as int]->Some_0;
        assert(u.id == path[x] && u.distance == dist[path[x] as int]);
        let i = choose|i: int|
            0 <= i < g.edges@[u.id as int]@.len() && #[trigger] g.edges@[u.id as int]@[i] == path[x
                + 1] as int && dist[path[x + 1] as int] == u.distance + g.weights@[u.id as int]@[i]
                + h[path[x + 1] as int] - h[u.id as int];
        assert(g.edges@[path[x] as int]@[i] == path[x + 1] as int);
    }
    assert(dist[path[0] as int] < INFINITY) by {
        if path.len() >= 2 {
            let u = prev[path[1] as int]->Some_0;
            assert(u.id == path[0] && u.distance == dist[path[0] as int] && u.distance < INFINITY);
        }
    }
    assert(path[0] == src) by {
        assert(prev[path[0] as int] is None);
    }
    lemma_chain_weight_telescopes(h, dist, path, path.len() - 1);
}

/// A successful search's table always contains a concrete walk realizing
/// the destination's distance: chains of predecessor entries are walks.
proof fn lemma_table_to_walk(
    g: Graph,
    h: Seq<i64>,
    src: int,
    prev: Seq<Option<NodeInfo>>,
    dist: Seq<i64>,
    rank: Seq<nat>,
    v: int,
)
    requires
        g.n() <= usize::MAX,
        0 <= src < g.n(),
        0 <= v < g.n(),
        g.well_formed(),
        heuristic_wf(g, h),
        search_table_wf(g, h, src, prev, dist),
        prev_table_ranked(prev, rank),
        dist[v] < INFINITY,
    ensures
        exists|nodes: Seq<usize>, arcs: Seq<int>|
            #[trigger] walk_connects(g, nodes, arcs, src, v) && walk_cost(
                g,
                nodes,
                arcs,
                arcs.len() as int,
            ) == dist[v] - h[v] + h[src],
    decreases rank[v],
{
    if prev[v] is None {
        assert(v == src);
        let nodes = seq![src as usize];
        let arcs = Seq::<int>::empty();
        assert(nodes.len() == 1 && nodes[0] == src as usize && arcs.len() == 0);
        assert(is_walk(g, nodes, arcs));
        assert(dist[v] == 0 && h[v] == h[src]);
        assert(walk_cost(g, nodes, arcs, arcs.len() as int) == 0);
        assert(walk_connects(g, nodes, arcs, src, v));
        assert(walk_cost(g, nodes, arcs, arcs.len() as int) == dist[v] - h[v] + h[src]);
    } else {
        let u = prev[v]->Some_0;
        lemma_table_to_walk(g, h, src, prev, dist, rank, u.id as int);
        let (nodes0, arcs0) = choose|nodes: Seq<usize>, arcs: Seq<int>|
            #[trigger] walk_connects(g, nodes, arcs, src, u.id as int) && walk_cost(
                g,
                nodes,
                arcs,
                arcs.len() as int,
            ) == dist[u.id as int] - h[u.id as int] + h[src];
        let i = choose|i: int|
            0 <= i < g.edges@[u.id as int]@.len() && #[trigger] g.edges@[u.id as int]@[i] == v
                && dist[v] == u.distance + g.weights@[u.id as int]@[i] + h[v] - h[u.id as int];
        let nodes = nodes0.push(v as usize);
        let arcs = arcs0.push(i);
        assert(is_walk(g, nodes, arcs)) by {
            assert(forall|x: int| 0 <= x < nodes0.len() ==> nodes[x] == #[trigger] nodes0[x]);
            assert(forall|x: int| 0 <= x < arcs0.len() ==> arcs[x] == #[trigger] arcs0[x]);
            assert(nodes[nodes0.len() - 1] == nodes0[nodes0.len() - 1]);
        }
        assert(walk_cost(g, nodes, arcs, arcs.len() as int) == walk_cost(
            g,
            nodes0,
            arcs0,
            arcs0.len() as int,
        ) + g.weights@[u.id as int]@[i]) by {
            lemma_walk_cost_prefix(g, nodes, arcs, nodes0, arcs0, arcs0.len() as int);
        }
        assert(walk_connects(g, nodes, arcs, src, v));
    }
}

/// A walk's cost over a prefix agrees with the prefix walk's own cost.
proof fn lemma_walk_cost_prefix(
    g: Graph,
    nodes: Seq<usize>,
    arcs: Seq<int>,
    nodes0: Seq<usize>,
    arcs0: Seq<int>,
    k: int,
)
    requires
        0 <= k <= arcs0.len(),
        arcs.len() >= arcs0.len(),
        forall|x: int| 0 <= x < nodes0.len() ==> #[trigger] nodes[x] == nodes0[x],
        forall|x: int| 0 <= x < arcs0.len() ==> #[trigger] arcs[x] == arcs0[x],
        nodes0.len() == arcs0.len() + 1,
        nodes.len() >= nodes0.len(),
    ensures
        walk_cost(g, nodes, arcs, k) == walk_cost(g, nodes0, arcs0, k),
    decreases k,
{
    if k > 0 {
        lemma_walk_cost_prefix(g, nodes, arcs, nodes0, arcs0, k - 1);
    }
}

/// The heuristic-accelerated search agrees with the plain one: under any
/// consistent heuristic, both reach the same destinations and report the
/// same distance. The one carve-out is the sentinel's edge: a pair whose
/// true distance lies within one heuristic estimate of the sentinel may be
/// accepted by one search and refused by the other, which no real road
/// network approaches.
pub proof fn lemma_astar_matches_dijkstra(
    g: Graph,
    h: Seq<i64>,
    src: int,
    dest: int,
    r1: Result<(i64, Vec<Option<NodeInfo>>), RouteError>,
    r2: Result<(i64, Vec<Option<NodeInfo>>), RouteError>,
)
    requires
        g.well_formed(),
        g.n() <= usize::MAX,
        0 <= src < g.n(),
        0 <= dest < g.n(),
        heuristic_wf(g, h),
        search_post(g, h, src, dest, r1),
        search_post(g, zero_heuristic(g.n()), src, dest, r2),
    ensures
        r1 is Ok && r2 is Ok ==> r1->Ok_0.0 == r2->Ok_0.0,
        r1 is Ok && r1->Ok_0.0 < INFINITY - HEURISTIC_LIMIT ==> r2 is Ok,
        r2 is Ok && r2->Ok_0.0 < INFINITY - HEURISTIC_LIMIT ==> r1 is Ok,
{
    let h0 = zero_heuristic(g.n());
    assert(h0[src] == 0 && h0[dest] == 0);
    if r1 is Ok {
        let (d1, prev1) = r1->Ok_0;
        let dist1 = choose|dist1: Seq<i64>|
            {
                &&& #[trigger] search_table_wf(g, h, src, prev1@, dist1)
                &&& dist1[dest] < INFINITY
                &&& d1 == dist1[dest] - h[dest] + h[src]
            };
        let rank1 = choose|rank1: Seq<nat>| prev_table_ranked(prev1@, rank1);
        lemma_table_to_walk(g, h, src, prev1@, dist1, rank1, dest);
        let (n1, a1) = choose|n1: Seq<usize>, a1: Seq<int>|
            #[trigger] walk_connects(g, n1, a1, src, dest) && walk_cost(g, n1, a1, a1.len() as int)
                == dist1[dest] - h[dest] + h[src];
        assert(walk_cost(g, n1, a1, a1.len() as int) == d1);
        if r2 is Ok {
            let (d2, prev2) = r2->Ok_0;
            let dist2 = choose|dist2: Seq<i64>|
                {
                    &&& #[trigger] search_table_wf(g, h0, src, prev2@, dist2)
                    &&& dist2[dest] < INFINITY
                    &&& d2 == dist2[dest] - h0[dest] + h0[src]
                };
            let rank2 = choose|rank2: Seq<nat>| prev_table_ranked(prev2@, rank2);
            lemma_table_to_walk(g, h0, src, prev2@, dist2, rank2, dest);
            let (n2, a2) = choose|n2: Seq<usize>, a2: Seq<int>|
                #[trigger] walk_connects(g, n2, a2, src, dest) && walk_cost(
                    g,
                    n2,
                    a2,
                    a2.len() as int,
                ) == dist2[dest] - h0[dest] + h0[src];
            assert(walk_cost(g, n2, a2, a2.len() as int) == d2);
            assert(d1 <= d2 && d2 <= d1);
        } else {
            assert(walk_cost(g, n1, a1, a1.len() as int) + h0[dest] - h0[src] >= INFINITY);
            assert(d1 >= INFINITY);
        }
    }
    if r2 is Ok && !(r1 is Ok) {
        let (d2, prev2) = r2->Ok_0;
        let dist2 = choose|dist2: Seq<i64>|
            {
                &&& #[trigger] search_table_wf(g, h0, src, prev2@, dist2)
                &&& dist2[dest] < INFINITY
                &&& d2 == dist2[dest] - h0[dest] + h0[src]
            };
        let rank2 = choose|rank2: Seq<nat>| prev_table_ranked(prev2@, rank2);
        lemma_table_to_walk(g, h0, src, prev2@, dist2, rank2, dest);
        let (n2, a2) = choose|n2: Seq<usize>, a2: Seq<int>|
            #[trigger] walk_connects(g, n2, a2, src, dest) && walk_cost(g, n2, a2, a2.len() as int)
                == dist2[dest] - h0[dest] + h0[src];
        assert(walk_cost(g, n2, a2, a2.len() as int) + h[dest] - h[src] >= INFINITY);
        assert(0 <= h[dest] <= HEURISTIC_LIMIT && 0 <= h[src]);
        assert(d2 >= INFINITY - HEURISTIC_LIMIT);
    }
}

/// No walk below the sentinel joins `a` to `b`: the pair is unreachable as
/// far as any search with the sentinel can see.
pub open spec fn no_route(g: Graph, a: int, b: int) -> bool {
    forall|nodes: Seq<usize>, arcs: Seq<int>|
        #[trigger] walk_connects(g, nodes, arcs, a, b) ==> walk_cost(g, nodes, arcs, arcs.len() as int)
            >= INFINITY
}

/// A stitched route segment between `a` and `b` of cost `c`: the node
/// sequence itself is a real walk whose arc weights sum to `c`, and no walk
/// between the same endpoints is cheaper.
pub open spec fn segment_ok(g: Graph, seg: Seq<usize>, a: int, b: int, c: int) -> bool {
    &&& seg.len() >= 1
    &&& seg[0] == a
    &&& seg[seg.len() - 1] == b
    &&& exists|arcs: Seq<int>|
        #[trigger] walk_connects(g, seg, arcs, a, b) && walk_cost(g, seg, arcs, arcs.len() as int)
            == c
    &&& forall|nodes: Seq<usize>, arcs: Seq<int>|
        #[trigger] walk_connects(g, nodes, arcs, a, b) ==> c <= walk_cost(
            g,
            nodes,
            arcs,
            arcs.len() as int,
        )
}

/// One stitched segment per consecutive pair of stops, each optimal for
/// its own pair.
pub open spec fn route_segments(
    g: Graph,
    stops: Seq<usize>,
    segs: Seq<Seq<usize>>,
    costs: Seq<int>,
) -> bool {
    &&& segs.len() == stops.len() - 1
    &&& costs.len() == segs.len()
    &&& forall|i: int|
        0 <= i < segs.len() ==> #[trigger] segment_ok(
            g,
            segs[i],
            stops[i] as int,
            stops[i + 1] as int,
            costs[i],
        )
}

/// The concatenation of a list of segments.
pub open spec fn concat_all(segs: Seq<Seq<usize>>) -> Seq<usize>
    decreases segs.len(),
{
    if segs.len() == 0 {
        Seq::empty()
    } else {
        concat_all(segs.drop_last()) + segs.last()
    }
}

/// A walk built along a chain costs exactly what the adjusted distances
/// telescope to.
proof fn lemma_chain_walk_cost(
    g: Graph,
    h: Seq<i64>,
    dist: Seq<i64>,
    path: Seq<usize>,
    arcs: Seq<int>,
    k: int,
)
    requires
        g.well_formed(),
        is_walk(g, path, arcs),
        0 <= k < path.len(),
        forall|x: int| 0 <= x < path.len() ==> #[trigger] path[x] < dist.len(),
        forall|x: int| 0 <= x < path.len() ==> path[x] < h.len(),
        forall|x: int|
            0 <= x < arcs.len() ==> g.weights@[#[trigger] path[x] as int]@[arcs[x]] == dist[path[x
                + 1] as int] - dist[path[x] as int] - h[path[x + 1] as int] + h[path[x] as int],
    ensures
        walk_cost(g, path, arcs, k) == dist[path[k] as int] - dist[path[0] as int] - h[
            path[k] as int
        ] + h[path[0] as int],
    decreases k,
{
    if k > 0 {
        lemma_chain_walk_cost(g, h, dist, path, arcs, k - 1);
    }
}

/// A reconstructed chain from a successful search is itself a walk, and its
/// weights sum to the search's reported distance: the chain is a concrete
/// witness for `segment_ok` with the minimality half supplied by the
/// search's own bound.
pub proof fn lemma_chain_to_walk(
    g: Graph,
    h: Seq<i64>,
    src: int,
    prev: Seq<Option<NodeInfo>>,
    dist: Seq<i64>,
    path: Seq<usize>,
)
    requires
        0 <= src < g.n(),
        g.well_formed(),
        heuristic_wf(g, h),
        search_table_wf(g, h, src, prev, dist),
        path_links(prev, path),
        dist[path[path.len() - 1] as int] < INFINITY,
    ensures
        path[0] == src,
        exists|arcs: Seq<int>|
            #[trigger] walk_connects(g, path, arcs, src, path[path.len() - 1] as int) && walk_cost(
                g,
                path,
                arcs,
                arcs.len() as int,
            ) == dist[path[path.len() - 1] as int] - h[path[path.len() - 1] as int] + h[src],
{
    lemma_search_path_sound(g, h, src, prev, dist, path);
    let arcs = Seq::new(
        (path.len() - 1) as nat,
        |x: int|
            choose|i: int|
                0 <= i < g.edges@[path[x] as int]@.len() && g.edges@[path[x] as int]@[i] == path[x
                    + 1] as int && g.weights@[path[x] as int]@[i] == dist[path[x + 1] as int]
                    - dist[path[x] as int] - h[path[x + 1] as int] + h[path[x] as int],
    );
    assert forall|x: int| 0 <= x < arcs.len() implies 0 <= #[trigger] arcs[x] && arcs[x]
        < g.edges@[path[x] as int]@.len() && g.edges@[path[x] as int]@[arcs[x]] == path[x + 1]
        && g.weights@[path[x] as int]@[arcs[x]] == dist[path[x + 1] as int] - dist[
        path[x] as int
    ] - h[path[x + 1] as int] + h[path[x] as int] by {
        assert(g.has_edge(
            path[x] as int,
            path[x + 1] as int,
            dist[path[x + 1] as int] - dist[path[x] as int] - h[path[x + 1] as int] + h[
                path[x] as int
            ],
        ));
    }
    assert(is_walk(g, path, arcs));
    lemma_chain_walk_cost(g, h, dist, path, arcs, path.len() - 1);
    assert(walk_connects(g, path, arcs, src, path[path.len() - 1] as int));
}

/// The shared search core of `dijkstra` and `astar`: every node is queued
/// up front at the sentinel distance (the source at zero), and the minimum
/// node is repeatedly finalized and its outgoing arcs relaxed by
/// `dist[u] + w - h[u] + h[v]`, until the destination is extracted or the
/// queue empties.
fn search(g: &Graph, h: &Vec<i64>, src: usize, dest: usize) -> (r: Result<
    (i64, Vec<Option<NodeInfo>>),
    RouteError,
>)
    requires
        g.well_formed(),
        src < g.n(),
        dest < g.n(),
        heuristic_wf(*g, h@),
    ensures
        search_post(*g, h@, src as int, dest as int, r),
{
    let n = g.edges.len();
    let mut dist: Vec<i64> = Vec::new();
    let mut prev: Vec<Option<NodeInfo>> = Vec::new();
    let mut visited: Vec<bool> = Vec::new();
    let mut q: MinHeap<NodeInfo> = MinHeap::new();
    let mut i: usize = 0;
    while i < n
        invariant
            i <= n,
            n == g.n(),
            src < n,
            dist@.len() == i,
            prev@.len() == i,
            visited@.len() == i,
            q.well_formed(),
            forall|v: int| 0 <= v < i ==> #[trigger] dist@[v] == if v == src { 0i64 } else { INFINITY },
            forall|v: int| 0 <= v < i ==> (#[trigger] prev@[v]) is None,
            forall|v: int| 0 <= v < i ==> !(#[trigger] visited@[v]),
            forall|x: NodeInfo| #[trigger] q@.contains(x) ==> x.id < i && x.distance == dist@[x.id as int],
            forall|v: usize| v < i ==> contains_id(q@, v),
            q@.len() == i,
        decreases n - i,
    {
        let d0: i64 = if i == src {
            0
        } else {
            INFINITY
        };
        dist.push(d0);
        prev.push(None);
        visited.push(false);
        let ghost qpre = q@;
        proof {
            assert(!contains_id(q@, i)) by {
                if contains_id(q@, i) {
                    let j = choose|j: int| 0 <= j < q@.len() && #[trigger] q@[j].spec_id() == i;
                    assert(q@.contains(q@[j]));
                }
            }
        }
        q.insert(NodeInfo::new(d0, i));
        proof {
            assert forall|v: usize| v < i + 1 implies contains_id(q@, v) by {
                if v < i {
                    assert(contains_id(qpre, v));
                    let j = choose|j: int| 0 <= j < qpre.len() && #[trigger] qpre[j].spec_id() == v;
                    assert(qpre.contains(qpre[j]));
                    assert(q@.contains(qpre[j]));
                    let k = choose|k: int| 0 <= k < q@.len() && q@[k] == qpre[j];
                    assert(q@[k].spec_id() == v);
                } else {
                    let el = NodeInfo { distance: d0, id: i };
                    assert(q@.contains(el));
                    let k = choose|k: int| 0 <= k < q@.len() && q@[k] == el;
                    assert(q@[k].spec_id() == i);
                }
            }
        }
        i = i + 1;
    }
    let ghost mut rank: Seq<nat> = Seq::new(n as nat, |v: int| n as nat);
    let ghost mut step: nat = 0;
    while !q.is_empty()
        invariant_except_break
            forall|v: usize| v < n && !visited@[v as int] ==> contains_id(q@, v),
        invariant
            n == g.n(),
            g.well_formed(),
            heuristic_wf(*g, h@),
            src < n,
            dest < n,
            dist@.len() == n,
            prev@.len() == n,
            visited@.len() == n,
            q.well_formed(),
            rank.len() == n,
            step + q@.len() <= n,
            dist@[src as int] == 0,
            prev@[src as int] is None,
            forall|v: int| 0 <= v < n ==> 0 <= #[trigger] dist@[v] <= INFINITY,
            forall|v: int| 0 <= v < n ==> h@[v] - h@[src as int] <= #[trigger] dist@[v],
            forall|x: NodeInfo| #[trigger] q@.contains(x) ==> x.id < n && !visited@[x.id as int]
                && x.distance == dist@[x.id as int],
            forall|v: int|
                0 <= v < n && (#[trigger] prev@[v]) is Some ==> {
                    let u = prev@[v]->Some_0;
                    &&& u.id < n
                    &&& visited@[u.id as int]
                    &&& u.distance == dist@[u.id as int]
                    &&& u.distance < INFINITY
                    &&& dist@[v] < INFINITY
                    &&& exists|k: int|
                        0 <= k < g.edges@[u.id as int]@.len() && #[trigger] g.edges@[
                            u.id as int
                        ]@[k] == v && dist@[v] == u.distance + g.weights@[u.id as int]@[k] + h@[v]
                            - h@[u.id as int]
                },
            forall|v: int|
                0 <= v < n && v != src && (#[trigger] prev@[v]) is None ==> dist@[v] == INFINITY,
            forall|v: int| 0 <= v < n && !visited@[v] ==> #[trigger] rank[v] == n,
            forall|v: int| 0 <= v < n && visited@[v] ==> #[trigger] rank[v] < step,
            forall|v: int|
                0 <= v < n && (#[trigger] prev@[v]) is Some ==> rank[prev@[v]->Some_0.id as int]
                    < rank[v],
            forall|x: NodeInfo, v: int|
                #[trigger] q@.contains(x) && 0 <= v < n && #[trigger] visited@[v] ==> dist@[v]
                    <= x.distance,
            forall|u: int|
                0 <= u < n && #[trigger] visited@[u] ==> relaxed_from(*g, h@, dist@, u),
        ensures
            search_table_wf(*g, h@, src as int, prev@, dist@),
            prev_table_ranked(prev@, rank),
            forall|u: int|
                0 <= u < n && #[trigger] visited@[u] ==> relaxed_from(*g, h@, dist@, u),
            forall|v: int| 0 <= v < n && !(#[trigger] visited@[v]) ==> dist@[dest as int]
                <= dist@[v],
        decreases q@.len(),
    {
        let ghost qtop = q@;
        let node = q.extract_min();
        proof {
            assert(qtop.contains(qtop[0]));
        }
        if node.id == dest {
            proof {
                assert forall|v: int|
                    0 <= v < n && !(#[trigger] visited@[v]) implies dist@[dest as int]
                    <= dist@[v] by {
                    if v != node.id {
                        assert(contains_id(qtop, v as usize));
                        let j = choose|j: int|
                            0 <= j < qtop.len() && #[trigger] qtop[j].spec_id() == (v as usize);
                        assert(node.spec_priority() <= qtop[j].spec_priority());
                        assert(qtop.contains(qtop[j]));
                    }
                }
            }
            break ;
        }
        proof {
            rank = rank.update(node.id as int, step);
            step = step + 1;
        }
        visited.set(node.id, true);
        proof {
            assert forall|v: usize| v < n && !visited@[v as int] implies contains_id(q@, v) by {
                assert(contains_id(qtop, v));
                let j = choose|j: int| 0 <= j < qtop.len() && #[trigger] qtop[j].spec_id() == v;
                assert(qtop.contains(qtop[j]));
                assert(q@.contains(qtop[j]));
            }
            assert forall|x: NodeInfo, v: int|
                #[trigger] q@.contains(x) && 0 <= v < n && #[trigger] visited@[v] implies dist@[v]
                <= x.distance by {
                assert(qtop.contains(x));
                if v == node.id {
                    let j = choose|j: int| 0 <= j < qtop.len() && #[trigger] qtop[j] == x;
                    assert(node.spec_priority() <= qtop[j].spec_priority());
                }
            }
            assert forall|v: int|
                0 <= v < n && #[trigger] visited@[v] implies dist@[v] <= dist@[node.id as int] by {
                if v != node.id {
                    assert(qtop.contains(qtop[0]));
                }
            }
        }
        let edges_len = g.edges[node.id].len();
        let mut k: usize = 0;
        while k < edges_len
            invariant
                n == g.n(),
                g.well_formed(),
                heuristic_wf(*g, h@),
                src < n,
                node.id < n,
                node.id != dest,
                edges_len == g.edges@[node.id as int]@.len(),
                k <= edges_len,
                dist@.len() == n,
                prev@.len() == n,
                visited@.len() == n,
                q.well_formed(),
                rank.len() == n,
                step + q@.len() <= n,
                q@.len() == qtop.len() - 1,
                visited@[node.id as int],
                node.distance == dist@[node.id as int],
                rank[node.id as int] == step - 1,
                dist@[src as int] == 0,
                prev@[src as int] is None,
                forall|v: int| 0 <= v < n ==> 0 <= #[trigger] dist@[v] <= INFINITY,
                forall|v: int| 0 <= v < n ==> h@[v] - h@[src as int] <= #[trigger] dist@[v],
                forall|x: NodeInfo| #[trigger] q@.contains(x) ==> x.id < n && !visited@[x.id as int]
                    && x.distance == dist@[x.id as int],
                forall|v: usize| v < n && !visited@[v as int] ==> contains_id(q@, v),
                forall|v: int|
                    0 <= v < n && (#[trigger] prev@[v]) is Some ==> {
                        let u = prev@[v]->Some_0;
                        &&& u.id < n
                        &&& visited@[u.id as int]
                        &&& u.distance == dist@[u.id as int]
                        &&& u.distance < INFINITY
                        &&& dist@[v] < INFINITY
                        &&& exists|j: int|
                            0 <= j < g.edges@[u.id as int]@.len() && #[trigger] g.edges@[
                                u.id as int
                            ]@[j] == v && dist@[v] == u.distance + g.weights@[u.id as int]@[j]
                                + h@[v] - h@[u.id as int]
                    },
                forall|v: int|
                    0 <= v < n && v != src && (#[trigger] prev@[v]) is None ==> dist@[v]
                        == INFINITY,
                forall|v: int| 0 <= v < n && !visited@[v] ==> #[trigger] rank[v] == n,
                forall|v: int| 0 <= v < n && visited@[v] ==> #[trigger] rank[v] < step,
                forall|v: int|
                    0 <= v < n && (#[trigger] prev@[v]) is Some ==> rank[prev@[v]->Some_0.id as int]
                        < rank[v],
                forall|x: NodeInfo, v: int|
                    #[trigger] q@.contains(x) && 0 <= v < n && #[trigger] visited@[v] ==> dist@[v]
                        <= x.distance,
                forall|v: int|
                    0 <= v < n && #[trigger] visited@[v] ==> dist@[v] <= dist@[node.id as int],
                forall|u: int|
                    0 <= u < n && #[trigger] visited@[u] && u != node.id ==> relaxed_from(
                        *g,
                        h@,
                        dist@,
                        u,
                    ),
                relaxed_upto(*g, h@, dist@, node.id as int, k as int),
            decreases edges_len - k,
        {
            let neighbour = g.edges[node.id][k];
            if !visited[neighbour] {
                let w = g.weights[node.id][k];
                // The heuristic terms are folded into the relaxation:
                // consistency keeps `alt` at or above `dist[node.id]`.
                let alt = dist[node.id] + (w as i64) + h[neighbour] - h[node.id];
                if alt < dist[neighbour] {
                    let ghost dpre = dist@;
                    dist.set(neighbour, alt);
                    prev.set(neighbour, Some(node));
                    let ghost qpre = q@;
                    q.change_priority(neighbour, alt);
                    proof {
                        assert forall|x: NodeInfo| #[trigger] q@.contains(x) implies x.id < n
                            && !visited@[x.id as int] && x.distance == dist@[x.id as int] by {
                            if x.spec_id() != neighbour {
                                assert(qpre.contains(x));
                            }
                        }
                        assert forall|v: usize| v < n && !visited@[v as int] implies contains_id(
                            q@,
                            v,
                        ) by {
                            if v != neighbour {
                                let j = choose|j: int|
                                    0 <= j < qpre.len() && #[trigger] qpre[j].spec_id() == v;
                                assert(q@.contains(qpre[j]));
                            }
                        }
                        // The single lowered entry keeps every relaxation.
                        assert(forall|v: int| 0 <= v < n ==> #[trigger] dist@[v] <= dpre[v]);
                        assert forall|u: int|
                            0 <= u < n && #[trigger] visited@[u] && u != node.id implies relaxed_from(
                            *g,
                            h@,
                            dist@,
                            u,
                        ) by {
                            lemma_relaxed_preserved(
                                *g,
                                h@,
                                dpre,
                                dist@,
                                u,
                                g.edges@[u]@.len() as int,
                            );
                        }
                        lemma_relaxed_preserved(
                            *g,
                            h@,
                            dpre,
                            dist@,
                            node.id as int,
                            k as int,
                        );
                    }
                }
            }
            proof {
                assert(dist@[#[trigger] g.edges@[node.id as int]@[k as int] as int] <= dist@[
                    node.id as int
                ] + g.weights@[node.id as int]@[k as int] + h@[g.edges@[node.id as int]@[
                    k as int
                ] as int] - h@[node.id as int]) by {
                    if visited@[neighbour as int] {
                        assert(h@[node.id as int] <= g.weights@[node.id as int]@[k as int] + h@[
                            #[trigger] g.edges@[node.id as int]@[k as int] as int
                        ]);
                    }
                }
            }
            k = k + 1;
        }
    }
    proof {
        assert forall|nodes: Seq<usize>, arcs: Seq<int>|
            #[trigger] walk_connects(*g, nodes, arcs, src as int, dest as int) implies dist@[
            dest as int
        ] <= walk_cost(*g, nodes, arcs, arcs.len() as int) + h@[dest as int] - h@[
            src as int
        ] by {
            lemma_walk_cut(
                *g,
                h@,
                src as int,
                dest as int,
                dist@,
                visited@,
                nodes,
                arcs,
                0,
            );
        }
    }
    if dist[dest] == INFINITY {
        return Err(RouteError::NoPathFound);
    }
    let d = dist[dest] - h[dest] + h[src];
    Ok((d, prev))
}

/// Dijkstra's algorithm from `src` to `dest`: the zero-heuristic search.
/// On success the distance is minimal over every walk joining the pair;
/// `NoPathFound` comes exactly when no walk below the sentinel joins them.
/// From a node to itself it returns distance `0` and an empty predecessor
/// entry for `dest`, so the reconstructed path is `[dest]`.
pub fn dijkstra(g: &Graph, src: usize, dest: usize) -> (r: Result<
    (i64, Vec<Option<NodeInfo>>),
    RouteError,
>)
    requires
        g.well_formed(),
        src < g.n(),
        dest < g.n(),
    ensures
        search_post(*g, zero_heuristic(g.n()), src as int, dest as int, r),
{
    let n = g.edges.len();
    let mut h: Vec<i64> = Vec::new();
    let mut i: usize = 0;
    while i < n
        invariant
            i <= n,
            h@.len() == i,
            forall|v: int| 0 <= v < i ==> #[trigger] h@[v] == 0i64,
        decreases n - i,
    {
        h.push(0);
        i = i + 1;
    }
    proof {
        assert(h@ =~= zero_heuristic(g.n()));
    }
    search(g, &h, src, dest)
}

/// A* from `src` to `dest` with per-node heuristic estimates `h` (the
/// estimate of the remaining distance to `dest`). The heuristic terms are
/// folded into each relaxation rather than kept as stored f-scores; with a
/// consistent heuristic the arithmetic telescopes, and the returned
/// distance has the adjustment removed again.
pub fn astar(g: &Graph, h: &Vec<i64>, src: usize, dest: usize) -> (r: Result<
    (i64, Vec<Option<NodeInfo>>),
    RouteError,
>)
    requires
        g.well_formed(),
        src < g.n(),
        dest < g.n(),
        heuristic_wf(*g, h@),
    ensures
        search_post(*g, h@, src as int, dest as int, r),
{
    search(g, h, src, dest)
}

/// Walks predecessor pointers back from `dest` to the first node without a
/// predecessor, then reverses: the result runs from the chain's origin to
/// `dest`. On a table produced by a successful search, that origin is the
/// search's source. If `dest` has no predecessor the path is `[dest]`.
pub fn reconstruct_path(prev: Vec<Option<NodeInfo>>, dest: usize) -> (r: Result<
    Vec<usize>,
    RouteError,
>)
    requires
        dest < prev@.len(),
        prev_table_acyclic(prev@),
    ensures
        r is Ok,
        ({
            let path = r->Ok_0@;
            &&& path.len() >= 1
            &&& path[path.len() - 1] == dest
            &&& forall|x: int| 0 <= x < path.len() ==> #[trigger] path[x] < prev@.len()
            &&& prev@[path[0] as int] is None
            &&& forall|x: int|
                0 <= x < path.len() - 1 ==> (#[trigger] prev@[path[x + 1] as int]) is Some
                    && prev@[path[x + 1] as int]->Some_0.id == path[x]
            &&& (prev@[dest as int] is None ==> path =~= seq![dest])
        }),
{
    let ghost rank = choose|rank: Seq<nat>| prev_table_ranked(prev@, rank);
    let mut back: Vec<usize> = Vec::new();
    back.push(dest);
    let mut current = dest;
    loop
        invariant
            prev_table_ranked(prev@, rank),
            dest < prev@.len(),
            current < prev@.len(),
            back@.len() >= 1,
            back@[0] == dest,
            back@[back@.len() - 1] == current,
            forall|x: int| 0 <= x < back@.len() ==> #[trigger] back@[x] < prev@.len(),
            forall|x: int|
                0 <= x < back@.len() - 1 ==> (#[trigger] prev@[back@[x] as int]) is Some
                    && prev@[back@[x] as int]->Some_0.id == back@[x + 1],
            prev@[dest as int] is None ==> back@ =~= seq![dest],
        ensures
            prev@[current as int] is None,
        decreases rank[current as int],
    {
        match prev[current] {
            Some(node) => {
                back.push(node.id);
                current = node.id;
            },
            None => { break ; },
        }
    }
    let mut path: Vec<usize> = Vec::new();
    let mut k = back.len();
    while k > 0
        invariant
            k <= back@.len(),
            path@.len() == back@.len() - k,
            forall|x: int|
                0 <= x < path@.len() ==> #[trigger] path@[x] == back@[back@.len() - 1 - x],
        decreases k,
    {
        k = k - 1;
        path.push(back[k]);
    }
    Ok(path)
}

} // verus!
