use crate::coordinate::Coordinate;
use crate::errors::RouteError;
use crate::graph::Graph;
use crate::shortest_paths::{concat_all, dijkstra, no_route, reconstruct_path, route_segments, segment_ok};
use vstd::prelude::*;

verus! {

broadcast use vstd::set::group_set_axioms, vstd::seq_lib::lemma_seq_contains;

/// The Held-Karp dynamic program is O(n^2 * 2^n) time and O(n * 2^n) space:
/// waypoint counts beyond this bound are rejected, never attempted.
pub const MAX_WAYPOINTS: usize = 20;

/// Upper bound admitted for one pairwise cost; it keeps every tour-cost sum
/// far from the sentinel.
pub const TOUR_COST_LIMIT: u64 = 0x100_0000_0000;

/// Sentinel cost of an unreached dynamic-programming state.
pub const INF_COST: u64 = 0xFFFF_FFFF_FFFF_FFFF;

/// Waypoint `k` is a member of the visited-set mask.
pub open spec fn has_bit(m: u32, k: u32) -> bool {
    k < 32 && m & (1u32 << k) != 0u32
}

/// A mask that can name a dynamic-programming state: non-empty, inside the
/// `n`-waypoint universe, and never containing the fixed start.
pub open spec fn valid_mask(m: u32, n: u32) -> bool {
    &&& 1 <= m
    &&& n < 32 && m < (1u32 << n)
    &&& !has_bit(m, 0)
}

/// The members of a mask, as a set of integers.
pub open spec fn bits_of(m: u32) -> Set<int> {
    Set::new(|j: int| 0 <= j < 32 && has_bit(m, j as u32))
}

/// A well-shaped pairwise-cost matrix: square of side `n`, every entry in
/// admitted range.
pub open spec fn matrix_wf(dists: Seq<Vec<u64>>, n: int) -> bool {
    &&& dists.len() == n
    &&& forall|i: int| 0 <= i < n ==> (#[trigger] dists[i])@.len() == n
    &&& forall|i: int, j: int|
        0 <= i < n && 0 <= j < n ==> (#[trigger] dists[i]@[j]) <= TOUR_COST_LIMIT
}

/// One filled dynamic-programming entry: its cost is exactly the cheapest
/// extension of the state with its last waypoint removed through the stored
/// parent, no worse than through any other member, bounded by the state's
/// size, and the parent is the start exactly for singleton states.
pub open spec fn table_ok_at(
    table: Seq<Vec<(u64, usize)>>,
    dists: Seq<Vec<u64>>,
    n: u32,
    m: u32,
    k: u32,
) -> bool {
    let e = table[m as int]@[k as int];
    &&& e.0 < INF_COST
    &&& e.0 <= bits_of(m).len() * TOUR_COST_LIMIT
    &&& if m == (1u32 << k) {
        e.1 == 0 && e.0 == dists[0]@[k as int]
    } else {
        &&& 1 <= e.1 < n
        &&& e.1 != k
        &&& has_bit(m, e.1 as u32)
        &&& e.0 == table[(m ^ (1u32 << k)) as int]@[e.1 as int].0 + dists[e.1 as int]@[k as int]
        &&& forall|m2: u32|
            1 <= m2 < n && has_bit(m, m2) && m2 != k ==> e.0 <= #[trigger] table[(m ^ (1u32
                << k)) as int]@[m2 as int].0 + dists[m2 as int]@[k as int]
    }
}

/// The table shape: one row per mask, one entry per waypoint.
pub open spec fn table_shape(table: Seq<Vec<(u64, usize)>>, n: u32) -> bool {
    &&& n < 32
    &&& table.len() == (1u32 << n)
    &&& forall|m: int| 0 <= m < table.len() ==> (#[trigger] table[m])@.len() == n
}

/// All states up to mask `upto`, and every singleton state, are filled.
pub open spec fn table_ok_upto(
    table: Seq<Vec<(u64, usize)>>,
    dists: Seq<Vec<u64>>,
    n: u32,
    upto: int,
) -> bool {
    forall|m: u32, k: u32|
        valid_mask(m, n) && 1 <= k < n && has_bit(m, k) && (m < upto || m == (1u32 << k))
            ==> #[trigger] table_ok_at(table, dists, n, m, k)
}

/// Members of a mask inside the waypoint universe number at most `n - 1`.
proof fn lemma_bits_bounded(m: u32, n: u32)
    requires
        1 <= n < 32,
        m < (1u32 << n),
        !has_bit(m, 0),
    ensures
        bits_of(m).finite(),
        bits_of(m).len() <= n - 1,
{
    assert forall|j: int| bits_of(m).contains(j) implies vstd::set_lib::set_int_range(
        1,
        n as int,
    ).contains(j) by {
        let ju = j as u32;
        assert(has_bit(m, ju));
        assert(ju != 0);
        assert((m & (1u32 << ju) != 0u32) ==> ju < n) by (bit_vector)
            requires
                m < (1u32 << n) && n < 32 && ju < 32,
        ;
    }
    vstd::set_lib::lemma_int_range(1, n as int);
    vstd::set_lib::lemma_len_subset(bits_of(m), vstd::set_lib::set_int_range(1, n as int));
}

/// A one-bit mask has exactly one member.
proof fn lemma_singleton_bits(k: u32)
    requires
        k < 32,
    ensures
        bits_of(1u32 << k) =~= Set::<int>::empty().insert(k as int),
        bits_of(1u32 << k).len() == 1,
        has_bit(1u32 << k, k),
        forall|j: u32| j < 32 && j != k ==> !has_bit(1u32 << k, j),
{
    assert forall|j: u32| j < 32 implies has_bit(1u32 << k, j) == (j == k) by {
        assert(((1u32 << k) & (1u32 << j) != 0u32) == (j == k)) by (bit_vector)
            requires
                k < 32 && j < 32,
        ;
    }
    assert(bits_of(1u32 << k) =~= Set::<int>::empty().insert(k as int));
}

/// Position `w` appears among the visited stops of the order.
pub open spec fn appears(ord: Seq<int>, n: int, w: int) -> bool {
    exists|k: int| 1 <= k < n && #[trigger] ord[k] == w
}

/// A closed start-anchored visiting order over `n` waypoint positions: it
/// begins and ends at the fixed start and visits every other waypoint
/// exactly once.
pub open spec fn order_valid(n: int, ord: Seq<int>) -> bool {
    &&& ord.len() == n + 1
    &&& ord[0] == 0
    &&& ord[n] == 0
    &&& forall|k: int| 0 <= k <= n ==> 0 <= #[trigger] ord[k] < n
    &&& forall|k: int| 1 <= k < n ==> 1 <= #[trigger] ord[k]
    &&& forall|k1: int, k2: int| 1 <= k1 < k2 < n ==> #[trigger] ord[k1] != #[trigger] ord[k2]
    &&& forall|w: int| 1 <= w < n ==> #[trigger] appears(ord, n, w)
}

/// The matrix cost of the first `k` steps of a visiting order.
pub open spec fn order_cost(dists: Seq<Vec<u64>>, ord: Seq<int>, k: int) -> int
    decreases k,
{
    if k <= 0 {
        0
    } else {
        order_cost(dists, ord, k - 1) + dists[ord[k - 1]]@[ord[k]]
    }
}

/// The matrix cost of the reversed chain the backtrack builds: step `t`
/// prices travel from the later-pushed stop to the earlier one.
pub open spec fn back_cost(dists: Seq<Vec<u64>>, ord: Seq<usize>, j: int) -> int
    decreases j,
{
    if j <= 0 {
        0
    } else {
        back_cost(dists, ord, j - 1) + dists[ord[j] as int]@[ord[j - 1] as int]
    }
}

/// The backtrack cost reads only the first entries.
proof fn lemma_back_cost_prefix(dists: Seq<Vec<u64>>, a: Seq<usize>, b: Seq<usize>, j: int)
    requires
        forall|t: int| 0 <= t <= j ==> a[t] == #[trigger] b[t],
    ensures
        back_cost(dists, a, j) == back_cost(dists, b, j),
    decreases j,
{
    if j > 0 {
        lemma_back_cost_prefix(dists, a, b, j - 1);
    }
}

/// Reversing an order turns its forward cost into the backward sum.
proof fn lemma_rev_cost(dists: Seq<Vec<u64>>, fwd: Seq<int>, bwd: Seq<usize>, n: int, k: int)
    requires
        0 <= k <= n,
        fwd.len() == n + 1,
        bwd.len() == n + 1,
        forall|x: int| 0 <= x <= n ==> #[trigger] fwd[x] == bwd[n - x] as int,
    ensures
        order_cost(dists, fwd, k) == back_cost(dists, bwd, n) - back_cost(dists, bwd, n - k),
    decreases k,
{
    if k > 0 {
        lemma_rev_cost(dists, fwd, bwd, n, k - 1);
    }
}

/// Masks of equal membership are equal.
proof fn lemma_mask_eq(a: u32, b: u32, n: u32)
    requires
        1 <= n < 32,
        a < (1u32 << n),
        b < (1u32 << n),
        !has_bit(a, 0),
        !has_bit(b, 0),
        forall|j: u32| j < 32 ==> has_bit(a, j) == has_bit(b, j),
    ensures
        a == b,
{
    let x = a ^ b;
    assert(x < (1u32 << n)) by (bit_vector)
        requires
            a < (1u32 << n) && b < (1u32 << n) && n < 32 && x == a ^ b,
    ;
    assert(a & (1u32 << 0u32) == 0u32 && b & (1u32 << 0u32) == 0u32);
    assert(x & (1u32 << 0u32) == 0u32) by (bit_vector)
        requires
            x == a ^ b && a & (1u32 << 0u32) == 0u32 && b & (1u32 << 0u32) == 0u32,
    ;
    assert(!has_bit(x, 0));
    if x != 0 {
        lemma_nonzero_has_bit(x, n);
        let j = choose|j: u32| 1 <= j < n && #[trigger] has_bit(x, j);
        assert((x & (1u32 << j) != 0u32) == ((a & (1u32 << j) != 0u32) != (b & (1u32 << j)
            != 0u32))) by (bit_vector)
            requires
                x == a ^ b && j < 32,
        ;
        assert(has_bit(a, j) == has_bit(b, j));
        assert(false);
    }
    assert(a == b) by (bit_vector)
        requires
            a ^ b == 0u32 && x == a ^ b && x == 0u32,
    ;
}

/// The visited-set mask of an order's first `j` stops.
pub open spec fn mask_of(ord: Seq<int>, j: int) -> u32
    decreases j,
{
    if j <= 0 {
        0u32
    } else {
        mask_of(ord, j - 1) | (1u32 << (ord[j] as u32))
    }
}

/// The masks an order walks through: each is a valid state holding exactly
/// the stops made so far, and removing the latest stop steps back one mask.
proof fn lemma_mask_of_facts(ord: Seq<int>, n: int, nu: u32, j: int)
    requires
        2 <= n <= 20,
        nu == n as u32,
        order_valid(n, ord),
        1 <= j < n,
    ensures
        valid_mask(mask_of(ord, j), nu),
        forall|t: int| 1 <= t <= j ==> has_bit(mask_of(ord, j), #[trigger] ord[t] as u32),
        forall|w: u32|
            #[trigger] has_bit(mask_of(ord, j), w) ==> exists|t: int| 1 <= t <= j && ord[t] == w,
        mask_of(ord, j) ^ (1u32 << (ord[j] as u32)) == mask_of(ord, j - 1),
        has_bit(mask_of(ord, j), ord[j] as u32),
        j >= 2 ==> mask_of(ord, j) != (1u32 << (ord[j] as u32)),
        j == 1 ==> mask_of(ord, j) == (1u32 << (ord[j] as u32)),
    decreases j,
{
    let b: u32 = ord[j] as u32;
    assert(1 <= b < nu);
    if j == 1 {
        assert(mask_of(ord, 0) == 0u32);
        assert(mask_of(ord, 1) == (0u32 | (1u32 << b)));
        assert((0u32 | (1u32 << b)) == (1u32 << b)) by (bit_vector);
        lemma_singleton_bits(b);
        assert(!has_bit(1u32 << b, 0));
        assert(1u32 <= (1u32 << b) && (1u32 << b) < (1u32 << nu)) by (bit_vector)
            requires
                1 <= b && b < nu && nu < 32,
        ;
        assert(((1u32 << b) ^ (1u32 << b)) == 0u32) by (bit_vector);
        assert forall|w: u32| #[trigger] has_bit(mask_of(ord, 1), w) implies exists|t: int|
            1 <= t <= 1 && ord[t] == w by {
            assert(w == b && ord[1] == w);
        }
    } else {
        lemma_mask_of_facts(ord, n, nu, j - 1);
        let prev = mask_of(ord, j - 1);
        let newm = mask_of(ord, j);
        assert(newm == (prev | (1u32 << b)));
        assert(!has_bit(prev, b)) by {
            if has_bit(prev, b) {
                let t = choose|t: int| 1 <= t <= j - 1 && #[trigger] ord[t] == b;
                assert(ord[t] != ord[j]);
            }
        }
        assert(prev & (1u32 << b) == 0u32);
        assert(prev != 0u32) by {
            assert(has_bit(prev, ord[1] as u32));
            if prev == 0u32 {
                let b1: u32 = ord[1] as u32;
                assert(0u32 & (1u32 << b1) == 0u32) by (bit_vector);
            }
        }
        assert((prev | (1u32 << b)) ^ (1u32 << b) == prev && 1u32 <= (prev | (1u32 << b)) && (prev
            | (1u32 << b)) != (1u32 << b)) by (bit_vector)
            requires
                prev & (1u32 << b) == 0u32 && b < 32 && prev != 0u32,
        ;
        assert((prev | (1u32 << b)) < (1u32 << nu)) by (bit_vector)
            requires
                prev < (1u32 << nu) && b < nu && nu < 32,
        ;
        assert forall|x: u32| x < 32 implies has_bit(newm, x) == (has_bit(prev, x) || x == b) by {
            assert((((prev | (1u32 << b)) & (1u32 << x)) != 0u32) == ((prev & (1u32 << x) != 0u32)
                || x == b)) by (bit_vector)
                requires
                    x < 32 && b < 32,
            ;
        }
        assert(!has_bit(newm, 0));
        assert(has_bit(newm, b));
        assert forall|w: u32| #[trigger] has_bit(newm, w) implies exists|t: int|
            1 <= t <= j && ord[t] == w by {
            if w < 32 {
                if has_bit(prev, w) {
                    let t = choose|t: int| 1 <= t <= j - 1 && #[trigger] ord[t] == w;
                    assert(1 <= t <= j && ord[t] == w);
                } else {
                    assert(w == b && ord[j] == w);
                }
            } else {
                assert(!has_bit(newm, w));
            }
        }
        assert forall|t: int| 1 <= t <= j implies has_bit(newm, #[trigger] ord[t] as u32) by {
            if t <= j - 1 {
                assert(has_bit(prev, ord[t] as u32));
            }
        }
    }
}

/// The dynamic program's lower bound: the table's cost for the state an
/// order reaches after `j` stops is at most the order's own prefix cost.
proof fn lemma_perm_bound(
    table: Seq<Vec<(u64, usize)>>,
    dists: Seq<Vec<u64>>,
    n: int,
    nu: u32,
    ord: Seq<int>,
    j: int,
)
    requires
        2 <= n <= 20,
        nu == n as u32,
        table_shape(table, nu),
        table_ok_upto(table, dists, nu, (1u32 << nu) as int),
        matrix_wf(dists, n),
        order_valid(n, ord),
        1 <= j < n,
    ensures
        table[mask_of(ord, j) as int]@[ord[j] as int].0 <= order_cost(dists, ord, j),
    decreases j,
{
    lemma_mask_of_facts(ord, n, nu, j);
    let m = mask_of(ord, j);
    let bj: u32 = ord[j] as u32;
    assert(table_ok_at(table, dists, nu, m, bj));
    if j == 1 {
        assert(m == (1u32 << bj));
        assert(table[m as int]@[bj as int].0 == dists[0]@[ord[1]]);
        assert(order_cost(dists, ord, 0) == 0);
        assert(order_cost(dists, ord, 1) == dists[ord[0]]@[ord[1]]);
        assert(ord[0] == 0);
    } else {
        lemma_perm_bound(table, dists, n, nu, ord, j - 1);
        let mp: u32 = ord[j - 1] as u32;
        assert(has_bit(m, mp) && mp != bj);
        assert(table[m as int]@[bj as int].0 <= table[(m ^ (1u32 << bj)) as int]@[mp as int].0
            + dists[mp as int]@[bj as int]);
        assert((m ^ (1u32 << bj)) == mask_of(ord, j - 1));
        assert(mp as int == ord[j - 1]);
        assert(order_cost(dists, ord, j) == order_cost(dists, ord, j - 1) + dists[ord[j - 1]]@[
            ord[j]
        ]);
    }
}

/// A returned tour, as positions into the waypoint list: it starts and ends
/// at the fixed start and visits every other waypoint exactly once, and the
/// returned path carries the waypoints' node identities in that order.
pub open spec fn tour_order_ok(nodes: Seq<Coordinate>, path: Seq<usize>, ord: Seq<int>) -> bool {
    let n = nodes.len() as int;
    &&& order_valid(n, ord)
    &&& path.len() == n + 1
    &&& forall|k: int| 0 <= k <= n ==> #[trigger] path[k] == nodes[ord[k]].id
}

/// The tour is some such order.
pub open spec fn tour_ok(nodes: Seq<Coordinate>, path: Seq<usize>) -> bool {
    exists|ord: Seq<int>| #[trigger] tour_order_ok(nodes, path, ord)
}

/// Clearing a set bit shrinks the mask and removes exactly that member.
proof fn lemma_clear_bit(m: u32, k: u32)
    requires
        k < 32,
        has_bit(m, k),
    ensures
        (m ^ (1u32 << k)) < m,
        !has_bit(m ^ (1u32 << k), k),
        forall|j: u32| j < 32 && j != k ==> has_bit(m ^ (1u32 << k), j) == has_bit(m, j),
        bits_of(m ^ (1u32 << k)) =~= bits_of(m).remove(k as int),
        bits_of(m).contains(k as int),
{
    assert((m ^ (1u32 << k)) < m && (m ^ (1u32 << k)) & (1u32 << k) == 0u32) by (bit_vector)
        requires
            k < 32 && m & (1u32 << k) != 0u32,
    ;
    assert forall|j: u32| j < 32 && j != k implies has_bit(m ^ (1u32 << k), j) == has_bit(
        m,
        j,
    ) by {
        assert(((m ^ (1u32 << k)) & (1u32 << j) == 0u32) == (m & (1u32 << j) == 0u32))
            by (bit_vector)
            requires
                j < 32 && k < 32 && j != k,
        ;
    }
}

/// A non-empty mask is witnessed by one of its members.
proof fn lemma_nonzero_has_bit(m: u32, n: u32)
    requires
        1 <= n < 32,
        m < (1u32 << n),
        !has_bit(m, 0),
        m != 0,
    ensures
        exists|j: u32| 1 <= j < n && #[trigger] has_bit(m, j),
    decreases n,
{
    if n == 1 {
        assert(m == 0u32) by (bit_vector)
            requires
                m < (1u32 << 1) && m & (1u32 << 0) == 0u32,
        ;
    } else {
        if has_bit(m, (n - 1) as u32) {
            assert(1 <= ((n - 1) as u32) && ((n - 1) as u32) < n && has_bit(m, (n - 1) as u32));
        } else {
            assert(m < (1u32 << ((n - 1) as u32))) by (bit_vector)
                requires
                    2 <= n < 32 && m < (1u32 << n) && m & (1u32 << ((n - 1) as u32)) == 0u32,
            ;
            lemma_nonzero_has_bit(m, (n - 1) as u32);
            let j = choose|j: u32| 1 <= j < ((n - 1) as u32) && #[trigger] has_bit(m, j);
            assert(1 <= j < n && has_bit(m, j));
        }
    }
}

/// The members of a mask form a finite set.
proof fn lemma_bits_finite(m: u32)
    ensures
        bits_of(m).finite(),
        bits_of(m).len() <= 32,
{
    vstd::set_lib::lemma_int_range(0, 32);
    assert(bits_of(m).subset_of(vstd::set_lib::set_int_range(0, 32)));
    vstd::set_lib::lemma_len_subset(bits_of(m), vstd::set_lib::set_int_range(0, 32));
}

/// A mask with positive member count is not zero.
proof fn lemma_bits_nonempty(m: u32)
    requires
        bits_of(m).len() > 0,
        bits_of(m).finite(),
    ensures
        m != 0,
{
    if m == 0 {
        assert(bits_of(0u32) =~= Set::<int>::empty()) by {
            assert forall|j: int| #[trigger] bits_of(0u32).contains(j) implies false by {
                let ju = j as u32;
                assert(0u32 & (1u32 << ju) == 0u32) by (bit_vector);
            }
        }
    }
}

/// The full mask `f` over waypoints `1..n` has exactly those members.
proof fn lemma_full_mask(n: u32, f: u32)
    requires
        2 <= n < 32,
        f + 2 == (1u32 << n),
    ensures
        valid_mask(f, n),
        bits_of(f) =~= vstd::set_lib::set_int_range(1, n as int),
        bits_of(f).finite(),
        bits_of(f).len() == n - 1,
        forall|j: u32| j < 32 ==> has_bit(f, j) == (1 <= j < n),
{
    assert forall|j: u32| j < 32 implies has_bit(f, j) == (1 <= j < n) by {
        assert((f & (1u32 << j) != 0u32) == (1 <= j && j < n)) by (bit_vector)
            requires
                2 <= n && n < 32 && j < 32 && f + 2 == (1u32 << n),
        ;
    }
    assert(1u32 <= f && f < (1u32 << n) && f & 1u32 == 0u32) by (bit_vector)
        requires
            2 <= n && n < 32 && f + 2 == (1u32 << n),
    ;
    vstd::set_lib::lemma_int_range(1, n as int);
    assert(bits_of(f) =~= vstd::set_lib::set_int_range(1, n as int));
    lemma_bits_finite(f);
}

/// The exact Held-Karp solver over a small set of waypoints: a dynamic
/// program over visited-subset masks picks an optimal visiting order, which
/// can then be expanded into real road segments.
pub struct TspSolver<'a> {
    pub road_network: &'a Graph,
    pub path: Vec<usize>,
    pub distance: u64,
    pub nodes: Vec<Coordinate>,
    pub dists: Vec<Vec<u64>>,
    pub new_nodes_to_original_nodes: Vec<usize>,
}

impl<'a> TspSolver<'a> {
    /// Creates a solver over the waypoints `nodes` (index 0 is the fixed
    /// tour start) with the pairwise-cost matrix `dists`, whose entry
    /// `[i][j]` prices travel from waypoint `i` to waypoint `j`.
    pub fn new(road_network: &'a Graph, nodes: Vec<Coordinate>, dists: Vec<Vec<u64>>) -> (s:
        TspSolver<'a>)
        ensures
            s.road_network == road_network,
            s.nodes == nodes,
            s.dists == dists,
            s.path@.len() == 0,
            s.distance == 0,
    {
        TspSolver {
            road_network,
            path: Vec::new(),
            distance: 0,
            nodes,
            dists,
            new_nodes_to_original_nodes: Vec::new(),
        }
    }

    /// Solves the tour: rejects fewer than two waypoints as invalid input
    /// and more than `MAX_WAYPOINTS` as beyond capacity; otherwise returns
    /// the node identities of an order that starts and ends at the first
    /// waypoint, visits every other exactly once, and whose summed matrix
    /// cost is minimal over all such orders.
    #[verifier::rlimit(100)]
    #[verifier::loop_isolation(false)]
    pub fn held_karp_solve(&mut self) -> (r: Result<Vec<usize>, RouteError>)
        requires
            matrix_wf(old(self).dists@, old(self).nodes@.len() as int),
        ensures
            final(self).nodes == old(self).nodes,
            final(self).dists == old(self).dists,
            final(self).road_network == old(self).road_network,
            old(self).nodes@.len() < 2 ==> r == Err::<Vec<usize>, RouteError>(
                RouteError::InvalidInput,
            ),
            old(self).nodes@.len() > MAX_WAYPOINTS ==> r == Err::<Vec<usize>, RouteError>(
                RouteError::CapacityExceeded,
            ),
            2 <= old(self).nodes@.len() <= MAX_WAYPOINTS ==> r is Ok,
            r is Ok ==> tour_ok(old(self).nodes@, r->Ok_0@) && final(self).path@ == r->Ok_0@,
            r is Ok ==> exists|ordx: Seq<int>|
                #[trigger] tour_order_ok(old(self).nodes@, r->Ok_0@, ordx) && forall|perm: Seq<int>|
                    #[trigger] order_valid(old(self).nodes@.len() as int, perm) ==> order_cost(
                        old(self).dists@,
                        ordx,
                        old(self).nodes@.len() as int,
                    ) <= order_cost(old(self).dists@, perm, old(self).nodes@.len() as int),
    {
        let n = self.nodes.len();
        if n < 2 {
            return Err(RouteError::InvalidInput);
        }
        if n > MAX_WAYPOINTS {
            return Err(RouteError::CapacityExceeded);
        }
        let nu: u32 = n as u32;
        // The road-node identity of each waypoint position.
        let mut mapping: Vec<usize> = Vec::new();
        let mut i: usize = 0;
        while i < n
            invariant
                i <= n,
                mapping@.len() == i,
                forall|x: int| 0 <= x < i ==> #[trigger] mapping@[x] == self.nodes@[x].id,
            decreases n - i,
        {
            mapping.push(self.nodes[i].id);
            i = i + 1;
        }
        self.new_nodes_to_original_nodes = mapping;
        // The table maps (visited-set mask, last waypoint) to the cheapest
        // cost of reaching that state and the predecessor that attains it.
        let rows_u: u32 = 1u32 << nu;
        proof {
            assert(4u32 <= rows_u && rows_u <= 0x10_0000u32) by (bit_vector)
                requires
                    rows_u == (1u32 << nu) && 2 <= nu && nu <= 20,
            ;
        }
        let rows: usize = rows_u as usize;
        let mut table: Vec<Vec<(u64, usize)>> = Vec::new();
        let mut m: usize = 0;
        while m < rows
            invariant
                m <= rows,
                table@.len() == m,
                forall|x: int| 0 <= x < m ==> (#[trigger] table@[x])@.len() == n,
                forall|x: int, y: int|
                    0 <= x < m && 0 <= y < n ==> (#[trigger] table@[x]@[y]) == (INF_COST, 0usize),
            decreases rows - m,
        {
            let mut row: Vec<(u64, usize)> = Vec::new();
            let mut y: usize = 0;
            while y < n
                invariant
                    y <= n,
                    row@.len() == y,
                    forall|x: int| 0 <= x < y ==> (#[trigger] row@[x]) == (INF_COST, 0usize),
                decreases n - y,
            {
                row.push((INF_COST, 0));
                y = y + 1;
            }
            table.push(row);
            m = m + 1;
        }
        // Base states: reaching the singleton set {k} ending at k costs the
        // arc from the start.
        let mut k: usize = 1;
        while k < n
            invariant
                1 <= k <= n,
                table_shape(table@, nu),
                forall|x: int, y: int|
                    0 <= x < table@.len() && 0 <= y < n && !(1 <= y < k && x == (1u32 << (
                    y as u32)) as int) ==> (#[trigger] table@[x]@[y]) == (INF_COST, 0usize),
                forall|y: u32|
                    1 <= y < k ==> (#[trigger] table@[(1u32 << y) as int]@[y as int]) == (
                    self.dists@[0]@[y as int],
                    0usize,
                ),
            decreases n - k,
        {
            let ku: u32 = k as u32;
            let bit: u32 = 1u32 << ku;
            proof {
                assert(bit < rows_u) by (bit_vector)
                    requires
                        bit == (1u32 << ku) && rows_u == (1u32 << nu) && 1 <= ku && ku < nu && nu
                            < 32,
                ;
            }
            let idx: usize = bit as usize;
            let d0 = self.dists[0][k];
            let ghost tpre = table@;
            table[idx].set(k, (d0, 0));
            proof {
                assert(table@[(1u32 << ku) as int]@[ku as int] == (
                    self.dists@[0]@[ku as int],
                    0usize,
                ));
                assert forall|y: u32|
                    1 <= y < k + 1 implies (#[trigger] table@[(1u32 << y) as int]@[y as int]) == (
                    self.dists@[0]@[y as int],
                    0usize,
                ) by {
                    if y != ku {
                        assert((1u32 << y) != (1u32 << ku) && (1u32 << y) < rows_u) by (bit_vector)
                            requires
                                y < 32 && ku < 32 && y != ku && y < nu && rows_u == (1u32 << nu)
                                    && nu < 32,
                        ;
                        assert(table@[(1u32 << y) as int] == tpre[(1u32 << y) as int]);
                        assert(tpre[(1u32 << y) as int]@[y as int] == (
                            self.dists@[0]@[y as int],
                            0usize,
                        ));
                    }
                }
            }
            k = k + 1;
        }
        proof {
            assert(table_ok_upto(table@, self.dists@, nu, 1)) by {
                assert forall|mm: u32, kk: u32|
                    valid_mask(mm, nu) && 1 <= kk < nu && has_bit(mm, kk) && (mm < 1 || mm == (1u32
                        << kk)) implies #[trigger] table_ok_at(table@, self.dists@, nu, mm, kk) by {
                    assert(mm == (1u32 << kk));
                    assert(table@[(1u32 << kk) as int]@[kk as int] == (
                        self.dists@[0]@[kk as int],
                        0usize,
                    ));
                    assert(self.dists@[0]@[kk as int] <= TOUR_COST_LIMIT);
                    lemma_singleton_bits(kk);
                }
            }
        }
        // Fill in increasing mask order: every state depends only on the
        // state with its last waypoint removed, a numerically smaller mask.
        let mut masku: u32 = 1;
        while masku < rows_u
            invariant
                1 <= masku <= rows_u,
                rows_u == (1u32 << nu),
                table_shape(table@, nu),
                matrix_wf(self.dists@, n as int),
                table_ok_upto(table@, self.dists@, nu, masku as int),
            decreases rows_u - masku,
        {
            let bit0 = (masku & 1u32) != 0u32;
            proof {
                assert(bit0 == has_bit(masku, 0)) by (bit_vector)
                    requires
                        bit0 == (masku & 1u32 != 0u32),
                ;
            }
            if !bit0 {
                let mask_idx: usize = masku as usize;
                let mut kk: usize = 1;
                while kk < n
                    invariant
                        1 <= kk <= n,
                        table_shape(table@, nu),
                        matrix_wf(self.dists@, n as int),
                        !has_bit(masku, 0),
                        1 <= masku < rows_u,
                        rows_u == (1u32 << nu),
                        mask_idx == masku as usize,
                        forall|m2: u32, k2: u32|
                            valid_mask(m2, nu) && 1 <= k2 < nu && has_bit(m2, k2) && (m2
                                < masku as int || m2 == (1u32 << k2) || (m2 == masku && k2 < kk))
                                ==> #[trigger] table_ok_at(table@, self.dists@, nu, m2, k2),
                    decreases n - kk,
                {
                    let ghost tpre = table@;
                    let ku: u32 = kk as u32;
                    let in_mask = (masku & (1u32 << ku)) != 0u32;
                    let singleton = masku == (1u32 << ku);
                    if in_mask && !singleton {
                        let sub: u32 = masku ^ (1u32 << ku);
                        proof {
                            assert(has_bit(masku, ku));
                            lemma_clear_bit(masku, ku);
                            assert(sub != 0u32) by (bit_vector)
                                requires
                                    sub == masku ^ (1u32 << ku) && masku != (1u32 << ku) && ku < 32,
                            ;
                            assert(valid_mask(sub, nu));
                        }
                        let sub_idx: usize = sub as usize;
                        let mut min_prev: u64 = INF_COST;
                        let mut argmin_prev: usize = 0;
                        let mut mm: usize = 1;
                        while mm < n
                            invariant
                                1 <= mm <= n,
                                sub == masku ^ (1u32 << ku),
                                valid_mask(sub, nu),
                                sub_idx == sub as usize,
                                1 <= kk < n,
                                ku == kk as u32,
                                has_bit(masku, ku),
                                masku != (1u32 << ku),
                                min_prev == INF_COST ==> forall|m3: u32|
                                    1 <= m3 < mm ==> !(#[trigger] has_bit(masku, m3) && m3 != ku),
                                min_prev < INF_COST ==> 1 <= argmin_prev < n && argmin_prev != kk
                                    && has_bit(masku, argmin_prev as u32),
                                min_prev < INF_COST ==> min_prev == table@[sub as int]@[
                                    argmin_prev as int
                                ].0 + self.dists@[argmin_prev as int]@[kk as int],
                                min_prev < INF_COST ==> min_prev <= (bits_of(sub).len() + 1)
                                    * TOUR_COST_LIMIT,
                                forall|m3: u32|
                                    1 <= m3 < mm && has_bit(masku, m3) && m3 != ku ==> min_prev
                                        <= #[trigger] table@[sub as int]@[m3 as int].0
                                        + self.dists@[m3 as int]@[kk as int],
                            decreases n - mm,
                        {
                            let mu: u32 = mm as u32;
                            let m_in = (masku & (1u32 << mu)) != 0u32;
                            if m_in && mm != kk {
                                proof {
                                    assert(has_bit(masku, mu));
                                    assert(has_bit(sub, mu));
                                    assert(table_ok_at(table@, self.dists@, nu, sub, mu));
                                }
                                let prev = table[sub_idx][mm].0;
                                let d = self.dists[mm][kk];
                                proof {
                                    lemma_bits_bounded(sub, nu);
                                    assert(prev <= bits_of(sub).len() * TOUR_COST_LIMIT);
                                    assert(bits_of(sub).len() * TOUR_COST_LIMIT <= 19
                                        * TOUR_COST_LIMIT) by (nonlinear_arith)
                                        requires
                                            bits_of(sub).len() <= 19,
                                    ;
                                }
                                let cost: u64 = if prev >= INF_COST - d {
                                    proof {
                                        assert(false);
                                    }
                                    INF_COST - 1
                                } else {
                                    prev + d
                                };
                                if cost < min_prev {
                                    min_prev = cost;
                                    argmin_prev = mm;
                                }
                            }
                            mm = mm + 1;
                        }
                        proof {
                            if min_prev == INF_COST {
                                lemma_nonzero_has_bit(sub, nu);
                                let j = choose|j: u32| 1 <= j < nu && #[trigger] has_bit(sub, j);
                                assert(has_bit(masku, j) && j != ku);
                                assert(false);
                            }
                        }
                        let ghost twrite = table@;
                        table[mask_idx].set(kk, (min_prev, argmin_prev));
                        proof {
                            assert(forall|r: int|
                                0 <= r < table@.len() && r != mask_idx ==> #[trigger] table@[r]
                                    == twrite[r]);
                            assert(forall|c: int|
                                0 <= c < n && c != kk ==> #[trigger] table@[mask_idx as int]@[c]
                                    == twrite[mask_idx as int]@[c]);
                            lemma_bits_finite(masku);
                            lemma_clear_bit(masku, ku);
                            assert(bits_of(sub).len() == bits_of(masku).len() - 1);
                            assert((bits_of(sub).len() + 1) * TOUR_COST_LIMIT == bits_of(
                                masku,
                            ).len() * TOUR_COST_LIMIT) by (nonlinear_arith)
                                requires
                                    bits_of(sub).len() + 1 == bits_of(masku).len(),
                            ;
                            assert(sub as int != mask_idx as int);
                            assert(table@[sub as int] == twrite[sub as int]);
                            assert(table_ok_at(table@, self.dists@, nu, masku, ku));
                        }
                    }
                    proof {
                        if in_mask && singleton {
                            assert(has_bit(masku, ku));
                            assert(table_ok_at(table@, self.dists@, nu, masku, ku));
                        }
                        assert forall|m2: u32, k2: u32|
                            valid_mask(m2, nu) && 1 <= k2 < nu && has_bit(m2, k2) && (m2
                                < masku as int || m2 == (1u32 << k2) || (m2 == masku && k2 < kk
                                + 1)) implies #[trigger] table_ok_at(table@, self.dists@, nu, m2, k2) by {
                            if m2 == masku && k2 == ku {
                                assert(table_ok_at(table@, self.dists@, nu, m2, k2));
                            } else {
                                assert(table@[m2 as int]@[k2 as int] == tpre[m2 as int]@[
                                    k2 as int
                                ]);
                                if m2 != (1u32 << k2) {
                                    lemma_clear_bit(m2, k2);
                                    assert((m2 ^ (1u32 << k2)) < m2 <= masku);
                                    assert(table@[(m2 ^ (1u32 << k2)) as int] == tpre[(m2 ^ (1u32
                                        << k2)) as int]);
                                }
                                assert(table_ok_at(tpre, self.dists@, nu, m2, k2));
                            }
                        }
                    }
                    kk = kk + 1;
                }
                proof {
                    assert forall|m2: u32, k2: u32|
                        valid_mask(m2, nu) && 1 <= k2 < nu && has_bit(m2, k2) && (m2 < masku + 1
                            || m2 == (1u32 << k2)) implies #[trigger] table_ok_at(
                        table@,
                        self.dists@,
                        nu,
                        m2,
                        k2,
                    ) by {
                        if m2 == masku {
                            assert(has_bit(m2, k2) && k2 < nu);
                        }
                    }
                }
            } else {
                proof {
                    assert forall|m2: u32, k2: u32|
                        valid_mask(m2, nu) && 1 <= k2 < nu && has_bit(m2, k2) && (m2 < masku + 1
                            || m2 == (1u32 << k2)) implies #[trigger] table_ok_at(
                        table@,
                        self.dists@,
                        nu,
                        m2,
                        k2,
                    ) by {
                        if m2 == masku {
                            assert(!has_bit(masku, 0));
                        }
                    }
                }
            }
            masku = masku + 1;
        }
        // Close the tour: pick the final waypoint that minimizes the cost
        // of returning to the start.
        let full: u32 = rows_u - 2;
        proof {
            lemma_full_mask(nu, full);
        }
        let full_idx: usize = full as usize;
        let mut min_cost: u64 = INF_COST;
        let mut parent: usize = 0;
        let mut k2: usize = 1;
        while k2 < n
            invariant
                1 <= k2 <= n,
                min_cost < INF_COST ==> 1 <= parent < n && has_bit(full, parent as u32),
                min_cost == INF_COST ==> parent == 0 && k2 == 1,
                min_cost < INF_COST ==> min_cost == table@[full as int]@[parent as int].0
                    + self.dists@[parent as int]@[0],
                forall|k3: u32|
                    1 <= k3 < k2 ==> min_cost <= #[trigger] table@[full as int]@[k3 as int].0
                        + self.dists@[k3 as int]@[0],
            decreases n - k2,
        {
            proof {
                assert(has_bit(full, k2 as u32));
                assert(table_ok_at(table@, self.dists@, nu, full, k2 as u32));
            }
            let c0 = table[full_idx][k2].0;
            let d = self.dists[k2][0];
            proof {
                lemma_bits_bounded(full, nu);
                assert(c0 <= bits_of(full).len() * TOUR_COST_LIMIT);
                assert(bits_of(full).len() * TOUR_COST_LIMIT <= 19 * TOUR_COST_LIMIT)
                    by (nonlinear_arith)
                    requires
                        bits_of(full).len() <= 19,
                ;
            }
            let cost: u64 = if c0 >= INF_COST - d {
                proof {
                    assert(false);
                }
                INF_COST - 1
            } else {
                c0 + d
            };
            if cost < min_cost {
                min_cost = cost;
                parent = k2;
            }
            k2 = k2 + 1;
        }
        proof {
            if min_cost == INF_COST {
                assert(has_bit(full, 1u32));
                assert(table_ok_at(table@, self.dists@, nu, full, 1u32));
                assert(false);
            }
        }
        // Backtrack through parents, toggling each visited waypoint out of
        // the mask, to recover the order in reverse.
        let mut ord: Vec<usize> = Vec::new();
        ord.push(0);
        let mut subset: u32 = full;
        let mut step: usize = 0;
        while step < n - 1
            invariant
                step <= n - 1,
                ord@.len() == step + 1,
                ord@[0] == 0,
                forall|j: int| 1 <= j <= step ==> 1 <= #[trigger] ord@[j] < n,
                forall|j1: int, j2: int| 1 <= j1 < j2 <= step ==> #[trigger] ord@[j1] != #[trigger] ord@[j2],
                forall|j: int| 1 <= j <= step ==> !has_bit(subset, #[trigger] ord@[j] as u32),
                forall|w: u32|
                    1 <= w < nu ==> has_bit(subset, w) || exists|j: int|
                        1 <= j <= step && #[trigger] ord@[j] == w,
                bits_of(subset).finite(),
                bits_of(subset).len() == n - 1 - step,
                subset < rows_u,
                !has_bit(subset, 0),
                step < n - 1 ==> 1 <= parent < n && has_bit(subset, parent as u32),
                step < n - 1 ==> min_cost == table@[subset as int]@[parent as int].0
                    + self.dists@[parent as int]@[ord@[step as int] as int] + back_cost(
                    self.dists@,
                    ord@,
                    step as int,
                ),
                step == n - 1 ==> min_cost == self.dists@[0]@[ord@[(n - 1) as int] as int]
                    + back_cost(self.dists@, ord@, (n - 1) as int),
            decreases n - 1 - step,
        {
            proof {
                lemma_bits_nonempty(subset);
                assert(valid_mask(subset, nu));
                assert(table_ok_at(table@, self.dists@, nu, subset, parent as u32));
            }
            let ghost ord_pre = ord@;
            let ghost subset_pre = subset;
            ord.push(parent);
            let subset_idx: usize = subset as usize;
            let tmp = table[subset_idx][parent].1;
            let pu: u32 = parent as u32;
            let ghost old_subset = subset;
            subset = subset ^ (1u32 << pu);
            proof {
                lemma_clear_bit(old_subset, pu);
            }
            parent = tmp;
            step = step + 1;
            proof {
                assert forall|w: u32| 1 <= w < nu implies has_bit(subset, w) || exists|j: int|
                    1 <= j <= step && #[trigger] ord@[j] == w by {
                    if w == pu {
                        assert(ord@[step as int] == pu as usize);
                        assert(1 <= step as int <= step as int && ord@[step as int] == w);
                    } else if has_bit(subset_pre, w) {
                        assert(has_bit(subset, w));
                    } else {
                        assert(exists|j: int| 1 <= j <= step - 1 && #[trigger] ord_pre[j] == w);
                        let j = choose|j: int| 1 <= j <= step - 1 && #[trigger] ord_pre[j] == w;
                        assert(ord@[j] == ord_pre[j]);
                        assert(1 <= j <= step as int && ord@[j] == w);
                    }
                }
                lemma_back_cost_prefix(self.dists@, ord@, ord_pre, (step - 1) as int);
                assert(back_cost(self.dists@, ord@, step as int) == back_cost(
                    self.dists@,
                    ord_pre,
                    (step - 1) as int,
                ) + self.dists@[ord@[step as int] as int]@[ord@[(step - 1) as int] as int]);
                if step < n - 1 {
                    assert(bits_of(subset).len() > 0);
                    lemma_bits_nonempty(subset);
                    assert(old_subset != (1u32 << pu)) by {
                        if old_subset == (1u32 << pu) {
                            assert(subset == 0u32) by (bit_vector)
                                requires
                                    subset == old_subset ^ (1u32 << pu) && old_subset == (1u32
                                        << pu) && pu < 32,
                            ;
                        }
                    }
                } else {
                    // Final step: the last remaining state is the singleton
                    // of the stop just popped.
                    assert(bits_of(subset).len() == 0);
                    vstd::set_lib::lemma_set_empty_equivalency_len(bits_of(subset));
                    assert(subset == 0u32) by {
                        if subset != 0u32 {
                            lemma_nonzero_has_bit(subset, nu);
                            let j = choose|j: u32| 1 <= j < nu && #[trigger] has_bit(subset, j);
                            assert(bits_of(subset).contains(j as int));
                        }
                    }
                    assert(old_subset == (1u32 << pu)) by (bit_vector)
                        requires
                            old_subset ^ (1u32 << pu) == 0u32 && pu < 32,
                    ;
                }
            }
        }
        let ghost ord_snap = ord@;
        ord.push(0);
        // Reverse into start-to-finish order and map positions back
        // to node identities.
        let total = ord.len();
        let mut out: Vec<usize> = Vec::new();
        let mut b: usize = total;
        while b > 0
            invariant
                b <= total,
                total == ord@.len(),
                out@.len() == total - b,
                forall|x: int| 0 <= x < out@.len() ==> #[trigger] out@[x] == ord@[total - 1 - x],
            decreases b,
        {
            b = b - 1;
            out.push(ord[b]);
        }
        let mut path: Vec<usize> = Vec::new();
        let mut c: usize = 0;
        while c < total
            invariant
                c <= total,
                total == out@.len(),
                total == n + 1,
                path@.len() == c,
                forall|x: int| 0 <= x < out@.len() ==> 0 <= #[trigger] out@[x] < n,
                forall|x: int| 0 <= x < c ==> #[trigger] path@[x] == self.nodes@[out@[x] as int].id,
            decreases total - c,
        {
            path.push(self.nodes[out[c]].id);
            c = c + 1;
        }
        self.path = path;
        // Return a copy of the stored path.
        let mut result: Vec<usize> = Vec::new();
        let mut e: usize = 0;
        while e < self.path.len()
            invariant
                e <= self.path@.len(),
                result@.len() == e,
                forall|x: int| 0 <= x < e ==> #[trigger] result@[x] == self.path@[x],
            decreases self.path@.len() - e,
        {
            result.push(self.path[e]);
            e = e + 1;
        }
        proof {
            assert(result@ =~= self.path@);
            let ordv = Seq::new((n + 1) as nat, |x: int| out@[x] as int);
            assert(bits_of(subset).len() == 0);
            vstd::set_lib::lemma_set_empty_equivalency_len(bits_of(subset));
            assert forall|w: int| 1 <= w < n implies #[trigger] appears(ordv, n as int, w) by {
                let wu = w as u32;
                assert(!bits_of(subset).contains(w));
                assert(!has_bit(subset, wu));
                assert(1 <= wu < nu);
                assert(exists|j: int| 1 <= j <= n - 1 && #[trigger] ord_snap[j] == wu);
                let j0 = choose|j0: int| 1 <= j0 <= n - 1 && #[trigger] ord_snap[j0] == wu;
                assert(ord@[j0] == ord_snap[j0]);
                assert(out@[total - 1 - j0] == ord@[j0]);
                assert(1 <= total - 1 - j0 < n);
                assert(ordv[total - 1 - j0] == w);
            }
            assert forall|k1: int, kx: int| 1 <= k1 < kx < n implies #[trigger] ordv[k1] != (
            #[trigger] ordv[kx]) by {
                assert(out@[k1] == ord@[total - 1 - k1]);
                assert(out@[kx] == ord@[total - 1 - kx]);
            }
            assert(ordv[0] == 0 && ordv[n as int] == 0) by {
                assert(out@[0] == ord@[total - 1]);
                assert(out@[n as int] == ord@[0]);
            }
            assert forall|x: int| 1 <= x < n implies 1 <= #[trigger] ordv[x] by {
                assert(out@[x] == ord@[total - 1 - x]);
                assert(ord@[n - x] == ord_snap[n - x]);
            }
            assert(tour_order_ok(self.nodes@, result@, ordv));
            // The returned order costs exactly the optimum the closing scan
            // found, and the table bounds every other valid order from
            // below.
            assert forall|x: int| 0 <= x <= n implies #[trigger] ordv[x] == ord@[n - x] as int by {
                assert(out@[x] == ord@[total - 1 - x]);
            }
            lemma_rev_cost(self.dists@, ordv, ord@, n as int, n as int);
            lemma_back_cost_prefix(self.dists@, ord@, ord_snap, (n - 1) as int);
            assert(ord@[n as int] == 0usize && ord@[(n - 1) as int] == ord_snap[(n - 1) as int]);
            assert(order_cost(self.dists@, ordv, n as int) == min_cost);
            lemma_full_mask(nu, full);
            assert forall|perm: Seq<int>| #[trigger] order_valid(n as int, perm) implies order_cost(
                self.dists@,
                ordv,
                n as int,
            ) <= order_cost(self.dists@, perm, n as int) by {
                lemma_mask_of_facts(perm, n as int, nu, n - 1);
                lemma_perm_bound(table@, self.dists@, n as int, nu, perm, n - 1);
                let mo = mask_of(perm, n - 1);
                assert(mo == full) by {
                    assert forall|j: u32| j < 32 implies has_bit(mo, j) == has_bit(full, j) by {
                        if has_bit(mo, j) {
                            let t = choose|t: int| 1 <= t <= n - 1 && #[trigger] perm[t] == j;
                            assert(1 <= j < nu);
                        }
                        if has_bit(full, j) {
                            assert(1 <= j < nu);
                            assert(appears(perm, n as int, j as int));
                            let t = choose|t: int|
                                1 <= t < n && #[trigger] perm[t] == j as int;
                            assert(has_bit(mo, perm[t] as u32));
                        }
                    }
                    lemma_mask_eq(mo, full, nu);
                }
                let last = perm[n - 1];
                assert(1 <= last < n);
                assert(min_cost <= table@[full as int]@[last as int].0 + self.dists@[last as int]@[
                    0
                ]);
                assert(order_cost(self.dists@, perm, n as int) == order_cost(
                    self.dists@,
                    perm,
                    n - 1,
                ) + self.dists@[perm[n - 1]]@[perm[n as int]]);
                assert(perm[n as int] == 0);
            }
            assert(old(self).nodes@ == self.nodes@ && old(self).dists@ == self.dists@);
            assert(tour_order_ok(old(self).nodes@, result@, ordv));
            assert forall|perm: Seq<int>|
                #[trigger] order_valid(old(self).nodes@.len() as int, perm) implies order_cost(
                old(self).dists@,
                ordv,
                old(self).nodes@.len() as int,
            ) <= order_cost(old(self).dists@, perm, old(self).nodes@.len() as int) by {
                assert(old(self).nodes@.len() as int == n as int);
                assert(order_valid(n as int, perm));
                assert(order_cost(self.dists@, ordv, n as int) <= order_cost(
                    self.dists@,
                    perm,
                    n as int,
                ));
            }
        }
        Ok(result)
    }

    /// Expands the solved tour into road segments: runs the shortest-path
    /// engine between each consecutive pair of tour nodes and concatenates
    /// the reconstructed segments. On success the result is exactly the
    /// concatenation of one segment per consecutive pair, each a real walk
    /// of the road graph from its pair's first node to its second whose arc
    /// weights sum to that pair's minimal road distance; it fails, with
    /// `NoPathFound`, only when some consecutive pair has no road path.
    #[verifier::rlimit(100)]
    #[verifier::spinoff_prover]
    pub fn expand_path(&self) -> (r: Result<Vec<usize>, RouteError>)
        requires
            self.road_network.well_formed(),
            self.path@.len() >= 1,
            forall|x: int|
                0 <= x < self.path@.len() ==> #[trigger] self.path@[x] < self.road_network.n(),
        ensures
            r is Err ==> r->Err_0 == RouteError::NoPathFound && exists|i: int|
                0 <= i < self.path@.len() - 1 && #[trigger] no_route(
                    *self.road_network,
                    self.path@[i] as int,
                    self.path@[i + 1] as int,
                ),
            r is Ok ==> exists|segs: Seq<Seq<usize>>, costs: Seq<int>|
                #[trigger] route_segments(*self.road_network, self.path@, segs, costs)
                    && r->Ok_0@ == concat_all(segs),
            r is Ok ==> forall|x: int|
                0 <= x < r->Ok_0@.len() ==> #[trigger] r->Ok_0@[x] < self.road_network.n(),
    {
        let mut new_path: Vec<usize> = Vec::new();
        let ghost mut segs: Seq<Seq<usize>> = Seq::empty();
        let ghost mut costs: Seq<int> = Seq::empty();
        let mut i: usize = 0;
        while i < self.path.len() - 1
            invariant
                self.road_network.well_formed(),
                self.path@.len() >= 1,
                forall|x: int|
                    0 <= x < self.path@.len() ==> #[trigger] self.path@[x] < self.road_network.n(),
                i <= self.path@.len() - 1,
                segs.len() == i,
                costs.len() == i,
                forall|x: int|
                    0 <= x < i ==> #[trigger] segment_ok(
                        *self.road_network,
                        segs[x],
                        self.path@[x] as int,
                        self.path@[x + 1] as int,
                        costs[x],
                    ),
                new_path@ == concat_all(segs),
                forall|x: int|
                    0 <= x < new_path@.len() ==> #[trigger] new_path@[x] < self.road_network.n(),
            decreases self.path@.len() - 1 - i,
        {
            let start = self.path[i];
            let end = self.path[i + 1];
            let found = dijkstra(self.road_network, start, end);
            let ghost h0 = crate::shortest_paths::zero_heuristic(self.road_network.n());
            proof {
                assert(h0[start as int] == 0 && h0[end as int] == 0);
            }
            match found {
                Ok((d, prev)) => {
                    let ghost distv = choose|distv: Seq<i64>|
                        {
                            &&& #[trigger] crate::shortest_paths::search_table_wf(
                                *self.road_network,
                                h0,
                                start as int,
                                prev@,
                                distv,
                            )
                            &&& distv[end as int] < crate::shortest_paths::INFINITY
                            &&& d == distv[end as int] - h0[end as int] + h0[start as int]
                        };
                    let segment = match reconstruct_path(prev, end) {
                        Ok(p) => p,
                        Err(_) => vstd::pervasive::unreached(),
                    };
                    proof {
                        assert(crate::shortest_paths::path_links(prev@, segment@));
                        assert(crate::shortest_paths::heuristic_wf(*self.road_network, h0)) by {
                            assert(forall|v: int|
                                0 <= v < h0.len() ==> 0 <= #[trigger] h0[v]
                                    <= crate::shortest_paths::HEURISTIC_LIMIT);
                        }
                        crate::shortest_paths::lemma_chain_to_walk(
                            *self.road_network,
                            h0,
                            start as int,
                            prev@,
                            distv,
                            segment@,
                        );
                    }
                    let ghost base = new_path@;
                    let mut j: usize = 0;
                    while j < segment.len()
                        invariant
                            forall|x: int|
                                0 <= x < segment@.len() ==> #[trigger] segment@[x]
                                    < self.road_network.n(),
                            forall|x: int|
                                0 <= x < new_path@.len() ==> #[trigger] new_path@[x]
                                    < self.road_network.n(),
                            j <= segment@.len(),
                            new_path@ == base + segment@.subrange(0, j as int),
                        decreases segment@.len() - j,
                    {
                        proof {
                            assert(base + segment@.subrange(0, j + 1) =~= (base
                                + segment@.subrange(0, j as int)).push(segment@[j as int]));
                        }
                        new_path.push(segment[j]);
                        j = j + 1;
                    }
                    proof {
                        assert(new_path@ == base + segment@) by {
                            assert(segment@.subrange(0, segment@.len() as int) =~= segment@);
                        }
                        let old_segs = segs;
                        segs = segs.push(segment@);
                        costs = costs.push(d as int);
                        assert(segs.drop_last() =~= old_segs);
                        assert(segs.last() == segment@);
                        assert(concat_all(segs) == concat_all(old_segs) + segment@);
                        assert(segment_ok(
                            *self.road_network,
                            segment@,
                            self.path@[i as int] as int,
                            self.path@[i + 1] as int,
                            d as int,
                        ));
                    }
                },
                Err(_) => {
                    proof {
                        assert(no_route(
                            *self.road_network,
                            self.path@[i as int] as int,
                            self.path@[i + 1] as int,
                        )) by {
                            assert forall|nodes: Seq<usize>, arcs: Seq<int>|
                                #[trigger] crate::shortest_paths::walk_connects(
                                    *self.road_network,
                                    nodes,
                                    arcs,
                                    start as int,
                                    end as int,
                                ) implies crate::shortest_paths::walk_cost(
                                *self.road_network,
                                nodes,
                                arcs,
                                arcs.len() as int,
                            ) >= crate::shortest_paths::INFINITY by {
                                assert(crate::shortest_paths::walk_cost(
                                    *self.road_network,
                                    nodes,
                                    arcs,
                                    arcs.len() as int,
                                ) + h0[end as int] - h0[start as int]
                                    >= crate::shortest_paths::INFINITY);
                            }
                        }
                    }
                    return Err(RouteError::NoPathFound);
                },
            }
            i = i + 1;
        }
        proof {
            assert(route_segments(*self.road_network, self.path@, segs, costs));
        }
        Ok(new_path)
    }
}

} // verus!
