use crate::coordinate::Coordinate;
use crate::errors::RouteError;
use crate::global::Data;
use crate::kdtree::spec_dist;
use crate::shortest_paths::{concat_all, dijkstra, reconstruct_path, segment_ok};
use crate::trip::Location;
use vstd::prelude::*;

verus! {

broadcast use vstd::std_specs::hash::group_hash_axioms, vstd::seq_lib::lemma_seq_contains;

/// A resolved route: the coordinates along it and its total distance.
pub struct DijkstraOutput {
    pub path: Vec<Coordinate>,
    pub distance: i64,
}

/// The number of candidate road nodes tried for each raw coordinate.
pub const CANDIDATES: usize = 5;

/// Resolves a raw coordinate to up to five nearby road nodes, nearest
/// first, through the spatial index.
pub fn approximate_coordinate(data: &Data, coordinate: &Coordinate) -> (r: Vec<Coordinate>)
    requires
        data.wf(),
        coordinate.in_range(),
    ensures
        r@.len() <= CANDIDATES,
        forall|x: int| 0 <= x < r@.len() ==> data.kd_tree.root@.contains(#[trigger] r@[x]),
        forall|x: int| 0 <= x < r@.len() ==> (#[trigger] r@[x]).id < data.graph.n(),
        forall|x: int, y: int|
            0 <= x <= y < r@.len() ==> spec_dist(*coordinate, #[trigger] r@[x]) <= spec_dist(
                *coordinate,
                #[trigger] r@[y],
            ),
        data.kd_tree.root@.len() > 0 ==> r@.len() >= 1 && forall|y: int|
            0 <= y < data.kd_tree.root@.len() ==> spec_dist(*coordinate, r@[0]) <= spec_dist(
                *coordinate,
                #[trigger] data.kd_tree.root@[y],
            ),
    {
    let nodes = match data.kd_tree.get_n_nearest_neighbor(coordinate, CANDIDATES) {
        Ok(v) => v,
        Err(()) => vstd::pervasive::unreached(),
    };
    proof {
        assert forall|x: int| 0 <= x < nodes@.len() implies (#[trigger] nodes@[x]).id
            < data.graph.n() by {
            let j = choose|j: int|
                0 <= j < data.kd_tree.root@.len() && #[trigger] data.kd_tree.root@[j] == nodes@[x];
        }
    }
    nodes
}

/// One stitched road segment joining two points of the spatial index: a
/// real walk of the road graph between the two points' nodes whose arc
/// weights sum to the recorded cost, with no cheaper walk between them.
pub open spec fn candidate_segment(data: Data, seg: Seq<usize>, cost: int) -> bool {
    exists|ca: Coordinate, cb: Coordinate|
        data.kd_tree.root@.contains(ca) && data.kd_tree.root@.contains(cb)
            && #[trigger] segment_ok(data.graph, seg, ca.id as int, cb.id as int, cost)
}

/// One such segment per stitched pair.
pub open spec fn candidate_segments(data: Data, segs: Seq<Seq<usize>>, costs: Seq<int>) -> bool {
    &&& costs.len() == segs.len()
    &&& forall|i: int|
        0 <= i < segs.len() ==> #[trigger] candidate_segment(data, segs[i], costs[i])
}

/// A stitched route across `stops` stops: one candidate segment per
/// consecutive pair.
pub open spec fn stitched(data: Data, stops: int, segs: Seq<Seq<usize>>, costs: Seq<int>) -> bool {
    &&& segs.len() == stops - 1
    &&& candidate_segments(data, segs, costs)
}

/// Segment costs accumulated with the sentinel as a ceiling.
pub open spec fn sat_sum(costs: Seq<int>, k: int) -> int
    decreases k,
{
    if k <= 0 {
        0
    } else {
        let s = sat_sum(costs, k - 1);
        if s > crate::shortest_paths::INFINITY - costs[k - 1] {
            crate::shortest_paths::INFINITY as int
        } else {
            s + costs[k - 1]
        }
    }
}

/// The accumulated total reads only the first `k` costs.
proof fn lemma_sat_sum_prefix(a: Seq<int>, b: Seq<int>, k: int)
    requires
        forall|i: int| 0 <= i < k ==> a[i] == #[trigger] b[i],
    ensures
        sat_sum(a, k) == sat_sum(b, k),
    decreases k,
{
    if k > 0 {
        lemma_sat_sum_prefix(a, b, k - 1);
    }
}

/// Tries candidate node pairs for one consecutive pair of stops, in the
/// candidate ranking's order, and returns the first pair's road segment
/// with its distance; fails with `NoPathFound` when no tried pair is
/// connected.
#[verifier::loop_isolation(false)]
fn resolve_pair(data: &Data, starts: &Vec<Coordinate>, ends: &Vec<Coordinate>) -> (r: Result<
    (Vec<usize>, i64),
    RouteError,
>)
    requires
        data.wf(),
        forall|x: int|
            0 <= x < starts@.len() ==> data.kd_tree.root@.contains(#[trigger] starts@[x])
                && starts@[x].id < data.graph.n(),
        forall|x: int|
            0 <= x < ends@.len() ==> data.kd_tree.root@.contains(#[trigger] ends@[x])
                && ends@[x].id < data.graph.n(),
    ensures
        r is Err ==> r->Err_0 == RouteError::NoPathFound,
        r is Ok ==> 0 <= r->Ok_0.1 < crate::shortest_paths::INFINITY,
        r is Ok ==> forall|x: int|
            0 <= x < r->Ok_0.0@.len() ==> #[trigger] r->Ok_0.0@[x] < data.graph.n(),
        r is Ok ==> candidate_segment(*data, r->Ok_0.0@, r->Ok_0.1 as int),
{
    let mut e: usize = 0;
    while e < starts.len()
        invariant
            e <= starts@.len(),
        decreases starts@.len() - e,
    {
        let min_len = if e < ends.len() {
            e
        } else {
            ends.len()
        };
        let mut j: usize = 0;
        while j < min_len
            invariant
                j <= min_len,
                min_len <= ends@.len(),
                e < starts@.len(),
            decreases min_len - j,
        {
            let src = starts[e].id;
            let dest = ends[j].id;
            let found = dijkstra(&data.graph, src, dest);
            let ghost h0 = crate::shortest_paths::zero_heuristic(data.graph.n());
            proof {
                assert(h0[src as int] == 0 && h0[dest as int] == 0);
            }
            match found {
                Ok((d, prev)) => {
                    let ghost distv = choose|distv: Seq<i64>|
                        {
                            &&& #[trigger] crate::shortest_paths::search_table_wf(
                                data.graph,
                                h0,
                                src as int,
                                prev@,
                                distv,
                            )
                            &&& distv[dest as int] < crate::shortest_paths::INFINITY
                            &&& d == distv[dest as int] - h0[dest as int] + h0[src as int]
                        };
                    let segment = match reconstruct_path(prev, dest) {
                        Ok(p) => p,
                        Err(_) => vstd::pervasive::unreached(),
                    };
                    proof {
                        assert(crate::shortest_paths::path_links(prev@, segment@));
                        assert(crate::shortest_paths::heuristic_wf(data.graph, h0)) by {
                            assert(forall|v: int|
                                0 <= v < h0.len() ==> 0 <= #[trigger] h0[v]
                                    <= crate::shortest_paths::HEURISTIC_LIMIT);
                        }
                        crate::shortest_paths::lemma_chain_to_walk(
                            data.graph,
                            h0,
                            src as int,
                            prev@,
                            distv,
                            segment@,
                        );
                        assert(segment_ok(
                            data.graph,
                            segment@,
                            starts@[e as int].id as int,
                            ends@[j as int].id as int,
                            d as int,
                        ));
                        assert(data.kd_tree.root@.contains(starts@[e as int]));
                        assert(data.kd_tree.root@.contains(ends@[j as int]));
                        assert(0 <= d < crate::shortest_paths::INFINITY);
                        assert(candidate_segment(*data, segment@, d as int));
                    }
                    return Ok((segment, d));
                },
                Err(_) => {},
            }
            j = j + 1;
        }
        e = e + 1;
    }
    Err(RouteError::NoPathFound)
}

/// Builds the road path through an ordered list of stops: each consecutive
/// pair of stops is resolved to candidate road nodes through the spatial
/// index, and the first connected candidate pair contributes its optimal
/// road segment. On success the distance is the segments' costs summed
/// under the sentinel ceiling, and the coordinates are exactly the
/// segments' nodes looked up in the identity map. Fails with `NoPathFound`
/// when some consecutive pair cannot be connected under any tried candidate
/// pair.
#[verifier::rlimit(100)]
#[verifier::spinoff_prover]
pub fn build_path(path: &Vec<Location>, data: &Data) -> (r: Result<
    (i64, Vec<Coordinate>),
    RouteError,
>)
    requires
        data.wf(),
        path@.len() >= 1,
        forall|x: int| 0 <= x < path@.len() ==> (#[trigger] path@[x]).coordinates.in_range(),
    ensures
        r is Err ==> r->Err_0 == RouteError::NoPathFound,
        r is Ok ==> ({
            let (d, coords) = r->Ok_0;
            &&& 0 <= d <= crate::shortest_paths::INFINITY
            &&& forall|x: int| 0 <= x < coords@.len() ==> (#[trigger] coords@[x]).in_range()
            &&& exists|segs: Seq<Seq<usize>>, costs: Seq<int>|
                #[trigger] stitched(*data, path@.len() as int, segs, costs) && d == sat_sum(
                    costs,
                    costs.len() as int,
                ) && coords@.len() == concat_all(segs).len() && (forall|x: int|
                    0 <= x < coords@.len() ==> #[trigger] coords@[x]
                        == data.map_id_to_coordinates@[concat_all(segs)[x]])
        }),
{
    let mut new_path: Vec<Coordinate> = Vec::new();
    let mut distance: i64 = 0;
    let ghost mut segs: Seq<Seq<usize>> = Seq::empty();
    let ghost mut costs: Seq<int> = Seq::empty();
    let mut i: usize = 0;
    while i < path.len() - 1
        invariant
            data.wf(),
            path@.len() >= 1,
            forall|x: int| 0 <= x < path@.len() ==> (#[trigger] path@[x]).coordinates.in_range(),
            i <= path@.len() - 1,
            segs.len() == i,
            costs.len() == i,
            candidate_segments(*data, segs, costs),
            0 <= distance <= crate::shortest_paths::INFINITY,
            distance == sat_sum(costs, costs.len() as int),
            new_path@.len() == concat_all(segs).len(),
            forall|x: int|
                0 <= x < new_path@.len() ==> #[trigger] new_path@[x]
                    == data.map_id_to_coordinates@[concat_all(segs)[x]]
                    && new_path@[x].in_range(),
        decreases path@.len() - 1 - i,
    {
        let start_approximation = approximate_coordinate(data, &path[i].coordinates);
        let end_approximation = approximate_coordinate(data, &path[i + 1].coordinates);
        let (segment, d) = match resolve_pair(data, &start_approximation, &end_approximation) {
            Ok(p) => p,
            Err(_) => {
                return Err(RouteError::NoPathFound);
            },
        };
        // An accumulated total at the sentinel stays there.
        if distance > crate::shortest_paths::INFINITY - d {
            distance = crate::shortest_paths::INFINITY;
        } else {
            distance = distance + d;
        }
        let ghost base = new_path@;
        let ghost old_segs = segs;
        let ghost old_costs = costs;
        let mut ri: usize = 0;
        while ri < segment.len()
            invariant
                data.wf(),
                ri <= segment@.len(),
                forall|x: int| 0 <= x < segment@.len() ==> #[trigger] segment@[x] < data.graph.n(),
                new_path@.len() == base.len() + ri,
                forall|x: int| 0 <= x < base.len() ==> #[trigger] new_path@[x] == base[x],
                forall|x: int|
                    base.len() <= x < new_path@.len() ==> #[trigger] new_path@[x]
                        == data.map_id_to_coordinates@[segment@[x - base.len()]]
                        && new_path@[x].in_range(),
            decreases segment@.len() - ri,
        {
            let rid = segment[ri];
            proof {
                assert(rid < data.graph.n());
                let cc = data.map_id_to_coordinates@[rid];
                assert(data.map_id_to_coordinates@.contains_key(rid) && cc.in_range());
            }
            let node = match data.map_id_to_coordinates.get(&rid) {
                Some(c) => {
                    proof {
                        vstd::std_specs::hash::axiom_maps_deref_key_to_value::<usize, Coordinate>(
                            data.map_id_to_coordinates@,
                            &rid,
                            *c,
                        );
                    }
                    *c
                },
                None => {
                    proof {
                        vstd::std_specs::hash::axiom_contains_deref_key::<usize, Coordinate>(
                            data.map_id_to_coordinates@,
                            &rid,
                        );
                    }
                    vstd::pervasive::unreached()
                },
            };
            new_path.push(node);
            ri = ri + 1;
        }
        proof {
            segs = segs.push(segment@);
            costs = costs.push(d as int);
            assert(segs.drop_last() =~= old_segs);
            assert(concat_all(segs) == concat_all(old_segs) + segment@);
            lemma_sat_sum_prefix(costs, old_costs, old_costs.len() as int);
            assert(distance == sat_sum(costs, costs.len() as int));
            assert(candidate_segments(*data, segs, costs)) by {
                assert forall|x: int| 0 <= x < segs.len() implies #[trigger] candidate_segment(
                    *data,
                    segs[x],
                    costs[x],
                ) by {
                    if x < old_segs.len() {
                        assert(candidate_segment(*data, old_segs[x], old_costs[x]));
                        assert(segs[x] == old_segs[x] && costs[x] == old_costs[x]);
                    } else {
                        assert(segs[x] == segment@ && costs[x] == d as int);
                    }
                }
            }
        }
        i = i + 1;
    }
    proof {
        assert(stitched(*data, path@.len() as int, segs, costs));
    }
    Ok((distance, new_path))
}

} // verus!
