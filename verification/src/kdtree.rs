use crate::coordinate::{Coordinate, COORD_LIMIT};
use std::cmp::Ordering;
use vstd::prelude::*;

verus! {

broadcast use vstd::seq_lib::group_to_multiset_ensures, vstd::multiset::group_multiset_axioms, vstd::seq_lib::lemma_seq_contains;

/// Squared Euclidean distance of two points in (lat, lng) space. It ranks
/// relative proximity only; true geographic distance is out of this
/// structure's scope.
pub open spec fn spec_dist(a: Coordinate, b: Coordinate) -> int {
    (a.lat - b.lat) * (a.lat - b.lat) + (a.lng - b.lng) * (a.lng - b.lng)
}

/// Every point's components are inside the geographic range.
pub open spec fn all_in_range(s: Seq<Coordinate>) -> bool {
    forall|i: int| 0 <= i < s.len() ==> (#[trigger] s[i]).in_range()
}

/// No two points carry the same identity.
pub open spec fn distinct_ids(s: Seq<Coordinate>) -> bool {
    forall|i: int, j: int|
        0 <= i < s.len() && 0 <= j < s.len() && i != j ==> (#[trigger] s[i]).id != (
        #[trigger] s[j]).id
}

/// The split position of a slice of the given length: the slot that holds
/// the median after partial selection.
pub open spec fn mid_of(len: int) -> int {
    if len % 2 != 0 {
        len / 2
    } else {
        len / 2 - 1
    }
}

/// The split dimension after `k`: latitude and longitude alternate.
pub open spec fn next_dim(k: int) -> int {
    if k == 0 {
        1
    } else {
        0
    }
}

/// The KD ordering of a slice under split dimension `k`: the median sits at
/// the split position with no larger element before it and no smaller one
/// after it, and both halves are recursively ordered under the other
/// dimension. Position and recursion depth encode the whole tree shape.
pub open spec fn kd_wf(s: Seq<Coordinate>, k: int) -> bool
    decreases s.len(),
{
    s.len() <= 1 || {
        let m = mid_of(s.len() as int);
        &&& forall|i: int| 0 <= i < m ==> (#[trigger] s[i]).spec_coord(k) <= s[m].spec_coord(k)
        &&& forall|j: int|
            m < j < s.len() ==> s[m].spec_coord(k) <= (#[trigger] s[j]).spec_coord(k)
        &&& kd_wf(s.subrange(0, m), next_dim(k))
        &&& kd_wf(s.subrange(m + 1, s.len() as int), next_dim(k))
    }
}

/// A balanced two-dimensional KD-tree over coordinate points, stored as one
/// flattened array: no parent or child pointers, the structure is implicit
/// in array position and recursion depth. Built once; never mutated after
/// construction.
#[derive(Debug)]
pub struct KdTree {
    pub root: Vec<Coordinate>,
}

impl KdTree {
    /// The array is KD-ordered from the latitude dimension down, and all
    /// points are in geographic range.
    pub open spec fn wf(self) -> bool {
        kd_wf(self.root@, 0) && all_in_range(self.root@)
    }

    /// Builds the index from a point set by recursive median partition.
    /// The stored array is a permutation of the input.
    pub fn new(arr: Vec<Coordinate>) -> (t: Self)
        requires
            all_in_range(arr@),
        ensures
            t.wf(),
            t.root@.to_multiset() == arr@.to_multiset(),
            t.root@.len() == arr@.len(),
    {
        let mut arr = arr;
        let ghost arr0 = arr@;
        let len = arr.len();
        Self::sort_kdtree(&mut arr, 0, len, 0);
        proof {
            assert(arr@.subrange(0, len as int) =~= arr@);
            assert(arr0.subrange(0, len as int) =~= arr0);
            assert forall|i: int| 0 <= i < arr@.len() implies (#[trigger] arr@[i]).in_range() by {
                assert(arr@.contains(arr@[i]));
                assert(arr0.to_multiset().count(arr@[i]) > 0);
                assert(arr0.contains(arr@[i]));
                let y = choose|y: int| 0 <= y < arr0.len() && #[trigger] arr0[y] == arr@[i];
            }
        }
        KdTree { root: arr }
    }

    /// The point nearer to `target`, measured by squared distance; `point_b`
    /// on a tie.
    pub fn closest(target: &Coordinate, point_a: &Coordinate, point_b: &Coordinate) -> (r:
        Coordinate)
        requires
            target.in_range(),
            point_a.in_range(),
            point_b.in_range(),
        ensures
            r == *point_a || r == *point_b,
            spec_dist(*target, *point_a) < spec_dist(*target, *point_b) ==> r == *point_a,
            spec_dist(*target, *point_a) >= spec_dist(*target, *point_b) ==> r == *point_b,
            spec_dist(*target, r) <= spec_dist(*target, *point_a),
            spec_dist(*target, r) <= spec_dist(*target, *point_b),
    {
        let target_a = Self::distance(target, point_a);
        let target_b = Self::distance(target, point_b);
        if target_a < target_b {
            *point_a
        } else {
            *point_b
        }
    }

    /// Squared Euclidean distance in coordinate space.
    pub fn distance(target: &Coordinate, point: &Coordinate) -> (r: i64)
        requires
            target.in_range(),
            point.in_range(),
        ensures
            r == spec_dist(*target, *point),
            r >= 0,
    {
        let dx = target.lat - point.lat;
        let dy = target.lng - point.lng;
        proof {
            assert(dx * dx + dy * dy <= 8_000_000_000_000_000_000 && dx * dx >= 0 && dy * dy
                >= 0) by (nonlinear_arith)
                requires
                    -2 * COORD_LIMIT <= dx <= 2 * COORD_LIMIT,
                    -2 * COORD_LIMIT <= dy <= 2 * COORD_LIMIT,
                    COORD_LIMIT == 1_000_000_000,
            ;
        }
        dx * dx + dy * dy
    }

    /// Orders two points by their component along dimension `k`; ties fall
    /// to `Greater`.
    pub fn compare(a: &Coordinate, b: &Coordinate, k: usize) -> (r: Ordering)
        requires
            k < 2,
        ensures
            a.spec_coord(k as int) < b.spec_coord(k as int) ==> r == Ordering::Less,
            a.spec_coord(k as int) >= b.spec_coord(k as int) ==> r == Ordering::Greater,
    {
        if a.coord(k) < b.coord(k) {
            Ordering::Less
        } else {
            Ordering::Greater
        }
    }

    /// The nearest point of the index to `target`, by squared distance.
    /// Fails exactly when the index is empty.
    pub fn get_nearest_neighbor(&self, target: &Coordinate) -> (r: Result<Coordinate, ()>)
        requires
            self.wf(),
            target.in_range(),
        ensures
            self.root@.len() == 0 <==> r is Err,
            r is Ok ==> {
                let c = r->Ok_0;
                &&& self.root@.contains(c)
                &&& forall|x: int|
                    0 <= x < self.root@.len() ==> spec_dist(*target, c) <= spec_dist(
                        *target,
                        #[trigger] self.root@[x],
                    )
            },
    {
        if self.root.len() == 0 {
            return Err(());
        }
        let len = self.root.len();
        proof {
            assert(self.root@.subrange(0, len as int) =~= self.root@);
        }
        let r = self.nearest_neighbor(0, len, target, 0);
        proof {
            if r is Ok {
                let c = r->Ok_0;
                let j = choose|j: int|
                    0 <= j < self.root@.subrange(0, len as int).len()
                        && #[trigger] self.root@.subrange(0, len as int)[j] == c;
                assert(self.root@[j] == c);
            }
        }
        r
    }

    /// The nearest point of `self.root[lo..hi]` to `target`: descends the
    /// side of the split that holds the target, and visits the far side only
    /// when the best squared distance found reaches across the splitting
    /// plane.
    #[verifier::rlimit(60)]
    pub fn nearest_neighbor(&self, lo: usize, hi: usize, target: &Coordinate, k: usize) -> (r:
        Result<Coordinate, ()>)
        requires
            lo < hi <= self.root@.len(),
            k < 2,
            kd_wf(self.root@.subrange(lo as int, hi as int), k as int),
            all_in_range(self.root@),
            target.in_range(),
        ensures
            r is Ok,
            ({
                let c = r->Ok_0;
                &&& self.root@.subrange(lo as int, hi as int).contains(c)
                &&& forall|x: int|
                    lo <= x < hi ==> spec_dist(*target, c) <= spec_dist(
                        *target,
                        #[trigger] self.root@[x],
                    )
            }),
        decreases hi - lo,
    {
        let ghost sub = self.root@.subrange(lo as int, hi as int);
        let size = hi - lo;
        if size == 1 {
            proof {
                assert(sub[0] == self.root@[lo as int]);
            }
            return Ok(self.root[lo]);
        }
        let middle: usize = lo + (if size % 2 != 0 {
            size / 2
        } else {
            size / 2 - 1
        });
        let ghost m = mid_of(size as int);
        proof {
            assert(middle == lo + m);
            assert(sub[m] == self.root@[middle as int]);
            assert(self.root@.subrange(lo as int, middle as int) =~= sub.subrange(0, m));
            assert(self.root@.subrange(middle as int + 1, hi as int) =~= sub.subrange(
                m + 1,
                size as int,
            ));
        }
        let nk: usize = if k == 0 {
            1
        } else {
            0
        };
        let descend_left = target.coord(k) < self.root[middle].coord(k);
        let first_lo: usize;
        let first_hi: usize;
        let second_lo: usize;
        let second_hi: usize;
        if descend_left {
            first_lo = lo;
            first_hi = middle;
            second_lo = middle + 1;
            second_hi = hi;
        } else {
            first_lo = middle + 1;
            first_hi = hi;
            second_lo = lo;
            second_hi = middle;
        }
        let option_first: Coordinate = if first_hi > first_lo {
            match self.nearest_neighbor(first_lo, first_hi, target, nk) {
                Ok(c) => c,
                Err(()) => vstd::pervasive::unreached(),
            }
        } else {
            self.root[middle]
        };
        proof {
            if first_hi > first_lo {
                let c = option_first;
                let j = choose|j: int|
                    0 <= j < self.root@.subrange(first_lo as int, first_hi as int).len()
                        && #[trigger] self.root@.subrange(first_lo as int, first_hi as int)[j]
                        == c;
                assert(self.root@[first_lo + j] == c);
                assert(sub[first_lo + j - lo] == c);
            }
        }
        let mut best = Self::closest(target, &self.root[middle], &option_first);
        let r_val = Self::distance(target, &best);
        let rc = target.coord(k) - self.root[middle].coord(k);
        proof {
            assert(rc * rc <= 4_000_000_000_000_000_000 && rc * rc >= 0) by (nonlinear_arith)
                requires
                    -2 * COORD_LIMIT <= rc <= 2 * COORD_LIMIT,
                    COORD_LIMIT == 1_000_000_000,
            ;
        }
        if r_val >= rc * rc {
            if second_hi > second_lo {
                let option_second = match self.nearest_neighbor(second_lo, second_hi, target, nk) {
                    Ok(c) => c,
                    Err(()) => vstd::pervasive::unreached(),
                };
                proof {
                    let c = option_second;
                    let j = choose|j: int|
                        0 <= j < self.root@.subrange(second_lo as int, second_hi as int).len()
                            && #[trigger] self.root@.subrange(second_lo as int, second_hi as int)[j]
                            == c;
                    assert(self.root@[second_lo + j] == c);
                    assert(sub[second_lo + j - lo] == c);
                }
                best = Self::closest(target, &option_second, &best);
            }
        } else {
            // The best radius does not reach the splitting plane: every
            // point on the far side is at least as far as the plane.
            proof {
                lemma_prune_half(sub, *target, best, m, k as int, descend_left);
                assert forall|x: int| second_lo <= x < second_hi implies spec_dist(*target, best)
                    <= spec_dist(*target, #[trigger] self.root@[x]) by {
                    assert(sub[x - lo] == self.root@[x]);
                }
            }
        }
        proof {
            assert(sub.contains(best)) by {
                if best == self.root@[middle as int] {
                    assert(sub[m] == best);
                }
            }
        }
        Ok(best)
    }

    /// Up to `n` points of the index ranked by squared distance to `target`,
    /// nearest first: at most `n` entries, mutually distinct identities,
    /// non-decreasing distance, and the first entry as close as the single
    /// nearest point. The list is a bounded linear scan-and-replace
    /// candidate set, not a complete k-nearest guarantee.
    pub fn get_n_nearest_neighbor(&self, target: &Coordinate, n: usize) -> (r: Result<
        Vec<Coordinate>,
        (),
    >)
        requires
            self.wf(),
            target.in_range(),
            distinct_ids(self.root@),
        ensures
            r is Ok,
            ({
                let out = r->Ok_0@;
                &&& out.len() <= n
                &&& (self.root@.len() > 0 && n > 0) ==> out.len() >= 1
                &&& forall|x: int| 0 <= x < out.len() ==> self.root@.contains(#[trigger] out[x])
                &&& forall|x: int, y: int|
                    0 <= x <= y < out.len() ==> spec_dist(*target, #[trigger] out[x]) <= spec_dist(
                        *target,
                        #[trigger] out[y],
                    )
                &&& distinct_ids(out)
                &&& (self.root@.len() > 0 && n > 0) ==> forall|x: int|
                    0 <= x < self.root@.len() ==> spec_dist(*target, out[0]) <= spec_dist(
                        *target,
                        #[trigger] self.root@[x],
                    )
            }),
    {
        let mut bests: Vec<(Coordinate, i64)> = Vec::new();
        if n == 0 || self.root.len() == 0 {
            let empty: Vec<Coordinate> = Vec::new();
            return Ok(empty);
        }
        let len = self.root.len();
        proof {
            assert(self.root@.subrange(0, len as int) =~= self.root@);
        }
        let ghost pre = bests@;
        let c = match self.n_nearest_neighbor(0, len, target, 0, &mut bests, n) {
            Ok(c) => c,
            Err(()) => vstd::pervasive::unreached(),
        };
        let ghost unsorted = bests@;
        Self::sort_by_dist(&mut bests);
        proof {
            lemma_bests_perm(self.root@, *target, unsorted, bests@, n as int);
        }
        let mut results: Vec<Coordinate> = Vec::new();
        let mut i: usize = 0;
        while i < bests.len()
            invariant
                i <= bests@.len(),
                results@.len() == i,
                forall|x: int| 0 <= x < i ==> #[trigger] results@[x] == bests@[x].0,
            decreases bests@.len() - i,
        {
            results.push(bests[i].0);
            i = i + 1;
        }
        proof {
            let out = results@;
            let b = bests@;
            assert forall|x: int| 0 <= x < out.len() implies self.root@.contains(
                #[trigger] out[x],
            ) by {
                assert(out[x] == b[x].0);
            }
            assert forall|x: int, y: int| 0 <= x <= y < out.len() implies spec_dist(
                *target,
                #[trigger] out[x],
            ) <= spec_dist(*target, #[trigger] out[y]) by {
                assert(out[x] == b[x].0 && out[y] == b[y].0);
                assert(b[x].1 <= b[y].1);
            }
            // The running best of the traversal is the true nearest point,
            // and some candidate is at least that close; after sorting, the
            // first entry is no farther than any candidate.
            let yb = choose|y: int| 0 <= y < unsorted.len() && (#[trigger] unsorted[y]).1
                <= spec_dist(*target, c);
            assert(bests@.to_multiset().count(unsorted[yb]) > 0);
            assert(bests@.contains(unsorted[yb]));
            let ys = choose|y: int| 0 <= y < bests@.len() && #[trigger] bests@[y] == unsorted[yb];
            assert(bests@[0].1 <= bests@[ys].1);
            assert forall|x: int|
                0 <= x < self.root@.len() implies spec_dist(*target, out[0]) <= spec_dist(
                *target,
                #[trigger] self.root@[x],
            ) by {
                assert(out[0] == bests@[0].0);
                assert(bests@[0].1 == spec_dist(*target, bests@[0].0));
            }
        }
        Ok(results)
    }

    /// The candidate-collecting traversal: the same descent and pruning as
    /// `nearest_neighbor`, saving every examined best into the bounded
    /// candidate list. Returns the running best of the visited range.
    #[verifier::rlimit(100)]
    #[verifier::spinoff_prover]
    pub fn n_nearest_neighbor(
        &self,
        lo: usize,
        hi: usize,
        target: &Coordinate,
        k: usize,
        bests: &mut Vec<(Coordinate, i64)>,
        cap: usize,
    ) -> (r: Result<Coordinate, ()>)
        requires
            lo < hi <= self.root@.len(),
            k < 2,
            cap >= 1,
            kd_wf(self.root@.subrange(lo as int, hi as int), k as int),
            all_in_range(self.root@),
            distinct_ids(self.root@),
            target.in_range(),
            bests_wf(self.root@, *target, old(bests)@, cap as int),
        ensures
            r is Ok,
            bests_wf(self.root@, *target, final(bests)@, cap as int),
            final(bests)@.len() >= 1,
            final(bests)@.len() >= old(bests)@.len(),
            covers(final(bests)@, old(bests)@),
            ({
                let c = r->Ok_0;
                &&& self.root@.subrange(lo as int, hi as int).contains(c)
                &&& forall|x: int|
                    lo <= x < hi ==> spec_dist(*target, c) <= spec_dist(
                        *target,
                        #[trigger] self.root@[x],
                    )
                &&& has_at_most(final(bests)@, spec_dist(*target, c))
            }),
        decreases hi - lo,
    {
        let ghost sub = self.root@.subrange(lo as int, hi as int);
        let size = hi - lo;
        if size == 1 {
            proof {
                assert(sub[0] == self.root@[lo as int]);
            }
            let best = self.root[lo];
            let rd = Self::distance(target, &best);
            proof {
                assert(self.root@.contains(best));
            }
            self.save_best(&best, rd, bests, cap, Ghost(*target));
            return Ok(best);
        }
        let middle: usize = lo + (if size % 2 != 0 {
            size / 2
        } else {
            size / 2 - 1
        });
        let ghost m = mid_of(size as int);
        proof {
            assert(middle == lo + m);
            assert(sub[m] == self.root@[middle as int]);
            assert(self.root@.contains(self.root@[middle as int]));
            assert(self.root@.subrange(lo as int, middle as int) =~= sub.subrange(0, m));
            assert(self.root@.subrange(middle as int + 1, hi as int) =~= sub.subrange(
                m + 1,
                size as int,
            ));
        }
        let nk: usize = if k == 0 {
            1
        } else {
            0
        };
        let descend_left = target.coord(k) < self.root[middle].coord(k);
        let first_lo: usize;
        let first_hi: usize;
        let second_lo: usize;
        let second_hi: usize;
        if descend_left {
            first_lo = lo;
            first_hi = middle;
            second_lo = middle + 1;
            second_hi = hi;
        } else {
            first_lo = middle + 1;
            first_hi = hi;
            second_lo = lo;
            second_hi = middle;
        }
        let ghost b0 = bests@;
        let rm = Self::distance(target, &self.root[middle]);
        let mid_point = self.root[middle];
        self.save_best(&mid_point, rm, bests, cap, Ghost(*target));
        let ghost b1 = bests@;
        let option_first: Coordinate = if first_hi > first_lo {
            match self.n_nearest_neighbor(first_lo, first_hi, target, nk, bests, cap) {
                Ok(c) => c,
                Err(()) => vstd::pervasive::unreached(),
            }
        } else {
            self.root[middle]
        };
        let ghost b2 = bests@;
        proof {
            if !(first_hi > first_lo) {
                lemma_covers_refl(b1);
            }
            lemma_covers_trans(b2, b1, b0);
            if first_hi > first_lo {
                let c = option_first;
                let j = choose|j: int|
                    0 <= j < self.root@.subrange(first_lo as int, first_hi as int).len()
                        && #[trigger] self.root@.subrange(first_lo as int, first_hi as int)[j]
                        == c;
                assert(self.root@[first_lo + j] == c);
                assert(sub[first_lo + j - lo] == c);
            }
        }
        let mut best = Self::closest(target, &self.root[middle], &option_first);
        let rb = Self::distance(target, &best);
        proof {
            assert(self.root@.contains(best)) by {
                let jj = choose|jj: int| 0 <= jj < sub.len() && #[trigger] sub[jj] == best;
                assert(self.root@[lo + jj] == best);
            }
        }
        self.save_best(&best, rb, bests, cap, Ghost(*target));
        let ghost b3 = bests@;
        proof {
            lemma_covers_trans(b3, b2, b0);
        }
        let rc = target.coord(k) - self.root[middle].coord(k);
        proof {
            assert(rc * rc <= 4_000_000_000_000_000_000 && rc * rc >= 0) by (nonlinear_arith)
                requires
                    -2 * COORD_LIMIT <= rc <= 2 * COORD_LIMIT,
                    COORD_LIMIT == 1_000_000_000,
            ;
        }
        if rb >= rc * rc {
            if second_hi > second_lo {
                let option_second = match self.n_nearest_neighbor(
                    second_lo,
                    second_hi,
                    target,
                    nk,
                    bests,
                    cap,
                ) {
                    Ok(c) => c,
                    Err(()) => vstd::pervasive::unreached(),
                };
                let ghost b4 = bests@;
                proof {
                    lemma_covers_trans(b4, b3, b0);
                    let c = option_second;
                    let j = choose|j: int|
                        0 <= j < self.root@.subrange(second_lo as int, second_hi as int).len()
                            && #[trigger] self.root@.subrange(second_lo as int, second_hi as int)[j]
                            == c;
                    assert(self.root@[second_lo + j] == c);
                    assert(sub[second_lo + j - lo] == c);
                }
                best = Self::closest(target, &option_second, &best);
                let rb2 = Self::distance(target, &best);
                proof {
                    assert(self.root@.contains(best)) by {
                        let jj = choose|jj: int| 0 <= jj < sub.len() && #[trigger] sub[jj] == best;
                        assert(self.root@[lo + jj] == best);
                    }
                }
                self.save_best(&best, rb2, bests, cap, Ghost(*target));
                proof {
                    lemma_covers_trans(bests@, b4, b0);
                }
            }
        } else {
            proof {
                lemma_prune_half(sub, *target, best, m, k as int, descend_left);
                assert forall|x: int| second_lo <= x < second_hi implies spec_dist(*target, best)
                    <= spec_dist(*target, #[trigger] self.root@[x]) by {
                    assert(sub[x - lo] == self.root@[x]);
                }
            }
        }
        proof {
            assert(sub.contains(best)) by {
                if best == self.root@[middle as int] {
                    assert(sub[m] == best);
                }
            }
        }
        Ok(best)
    }

    /// Records a candidate in the bounded list: skipped when its identity is
    /// already present, appended while there is spare room, and otherwise
    /// put in place of the current worst entry only when strictly closer.
    #[verifier::rlimit(60)]
    #[verifier::loop_isolation(false)]
    pub fn save_best(
        &self,
        best: &Coordinate,
        r: i64,
        bests: &mut Vec<(Coordinate, i64)>,
        cap: usize,
        Ghost(target): Ghost<Coordinate>,
    )
        requires
            cap >= 1,
            distinct_ids(self.root@),
            self.root@.contains(*best),
            r == spec_dist(target, *best),
            bests_wf(self.root@, target, old(bests)@, cap as int),
        ensures
            bests_wf(self.root@, target, final(bests)@, cap as int),
            final(bests)@.len() >= 1,
            final(bests)@.len() >= old(bests)@.len(),
            covers(final(bests)@, old(bests)@),
            has_at_most(final(bests)@, r as int),
            final(bests)@ == old(bests)@ || final(bests)@ == old(bests)@.push((*best, r)) || exists|
                i: int,
            |
                0 <= i < old(bests)@.len() && #[trigger] final(bests)@ == old(bests)@.update(
                    i,
                    (*best, r),
                ) && old(bests)@[i].1 > r,
    {
        let mut i: usize = 0;
        while i < bests.len()
            invariant
                i <= bests@.len(),
                forall|x: int| 0 <= x < i ==> (#[trigger] bests@[x]).0.id != best.id,
            decreases bests@.len() - i,
        {
            if bests[i].0.id == best.id {
                proof {
                    // Identities are unique in the index, so an entry with
                    // this identity is this very point, at this distance.
                    let e = bests@[i as int];
                    assert(self.root@.contains(e.0));
                    assert(self.root@.contains(*best));
                    let a = choose|a: int|
                        0 <= a < self.root@.len() && #[trigger] self.root@[a] == e.0;
                    let b = choose|b: int|
                        0 <= b < self.root@.len() && #[trigger] self.root@[b] == *best;
                    assert(self.root@[a].id == self.root@[b].id);
                    assert(a == b);
                    assert(e.1 == r);
                    lemma_covers_refl(bests@);
                    assert(has_at_most(bests@, r as int)) by {
                        assert(0 <= i < bests@.len() && bests@[i as int].1 <= r);
                    }
                }
                return ;
            }
            i = i + 1;
        }
        if bests.len() < cap {
            bests.push((*best, r));
            proof {
                let newb = bests@;
                let n = newb.len() - 1;
                assert(newb[n] == (*best, r));
                assert(covers(newb, old(bests)@)) by {
                    reveal(covers);
                    assert forall|x: int| 0 <= x < old(bests)@.len() implies has_at_most(
                        newb,
                        (#[trigger] old(bests)@[x]).1 as int,
                    ) by {
                        assert(newb[x] == old(bests)@[x]);
                        assert(0 <= x < newb.len() && newb[x].1 <= old(bests)@[x].1);
                    }
                }
                assert(has_at_most(newb, r as int)) by {
                    assert(0 <= n < newb.len() && newb[n].1 <= r);
                }
            }
        } else {
            let mut mi: usize = 0;
            let mut j: usize = 1;
            while j < bests.len()
                invariant
                    1 <= j <= bests@.len(),
                    mi < j,
                    bests@.len() >= 1,
                    forall|x: int| 0 <= x < j ==> (#[trigger] bests@[x]).1 <= bests@[mi as int].1,
                decreases bests@.len() - j,
            {
                if bests[j].1 > bests[mi].1 {
                    mi = j;
                }
                j = j + 1;
            }
            if bests[mi].1 > r {
                bests.set(mi, (*best, r));
                proof {
                    let newb = bests@;
                    assert(covers(newb, old(bests)@)) by {
                        reveal(covers);
                        assert forall|x: int| 0 <= x < old(bests)@.len() implies has_at_most(
                            newb,
                            (#[trigger] old(bests)@[x]).1 as int,
                        ) by {
                            if x != mi {
                                assert(newb[x] == old(bests)@[x]);
                            }
                            assert(0 <= x < newb.len() && newb[x].1 <= old(bests)@[x].1);
                        }
                    }
                    assert(has_at_most(newb, r as int)) by {
                        assert(0 <= mi < newb.len() && newb[mi as int].1 <= r);
                    }
                }
            } else {
                proof {
                    lemma_covers_refl(bests@);
                    assert(has_at_most(bests@, r as int)) by {
                        assert(bests@[0].1 <= bests@[mi as int].1);
                        assert(0 <= 0 < bests@.len() && bests@[0].1 <= r);
                    }
                }
            }
        }
    }

    /// Insertion sort of the candidate list by ascending distance; the
    /// result is a permutation of the input.
    fn sort_by_dist(v: &mut Vec<(Coordinate, i64)>)
        ensures
            final(v)@.len() == old(v)@.len(),
            final(v)@.to_multiset() == old(v)@.to_multiset(),
            forall|x: int, y: int|
                0 <= x <= y < final(v)@.len() ==> (#[trigger] final(v)@[x]).1
                    <= (#[trigger] final(v)@[y]).1,
    {
        let mut i: usize = 1;
        while i < v.len()
            invariant
                1 <= i,
                v@.len() == old(v)@.len(),
                v@.to_multiset() == old(v)@.to_multiset(),
                forall|x: int, y: int|
                    0 <= x <= y < i && y < v@.len() ==> (#[trigger] v@[x]).1 <= (#[trigger] v@[y]).1,
            decreases v@.len() - i,
        {
            let mut j: usize = i;
            while j > 0 && v[j - 1].1 > v[j].1
                invariant
                    j <= i < v@.len(),
                    v@.len() == old(v)@.len(),
                    v@.to_multiset() == old(v)@.to_multiset(),
                    forall|x: int, y: int|
                        0 <= x <= y <= i && x != j && y != j ==> (#[trigger] v@[x]).1
                            <= (#[trigger] v@[y]).1,
                    forall|y: int| j < y <= i ==> (#[trigger] v@[j as int]).1 <= v@[y].1,
                decreases j,
            {
                let a = v[j - 1];
                let b = v[j];
                let ghost mid0 = v@;
                v.set(j - 1, b);
                v.set(j, a);
                proof {
                    assert(v@ =~= mid0.update(j - 1, mid0[j as int]).update(j as int, mid0[j - 1]));
                }
                j = j - 1;
            }
            i = i + 1;
        }
    }

    /// Relies on pdqselect::select_by: it reorders the slice `v[lo..hi]` in
    /// place so that the element at `mid` is in its sorted position under
    /// the comparator, everything before it no greater and everything after
    /// it no smaller, touching nothing outside the slice.
    #[verifier::external_body]
    fn select_mid(v: &mut Vec<Coordinate>, lo: usize, hi: usize, mid: usize, k: usize)
        requires
            lo <= hi <= old(v)@.len(),
            mid < hi - lo,
            k < 2,
        ensures
            final(v)@.len() == old(v)@.len(),
            forall|x: int| 0 <= x < lo ==> final(v)@[x] == old(v)@[x],
            forall|x: int| hi <= x < old(v)@.len() ==> final(v)@[x] == old(v)@[x],
            final(v)@.subrange(lo as int, hi as int).to_multiset() == old(v)@.subrange(
                lo as int,
                hi as int,
            ).to_multiset(),
            forall|x: int|
                lo <= x < lo + mid ==> (#[trigger] final(v)@[x]).spec_coord(k as int)
                    <= final(v)@[lo + mid].spec_coord(k as int),
            forall|x: int|
                lo + mid < x < hi ==> final(v)@[lo + mid].spec_coord(k as int)
                    <= (#[trigger] final(v)@[x]).spec_coord(k as int),
    {
        pdqselect::select_by(&mut v[lo..hi], mid, |a, b| Self::compare(a, b, k));
    }

    /// Recursively partitions `v[lo..hi]`: selects the median along the
    /// current dimension into the split position, then orders each half
    /// under the other dimension.
    pub fn sort_kdtree(v: &mut Vec<Coordinate>, lo: usize, hi: usize, k: usize)
        requires
            lo <= hi <= old(v)@.len(),
            k < 2,
        ensures
            final(v)@.len() == old(v)@.len(),
            forall|x: int| 0 <= x < lo ==> final(v)@[x] == old(v)@[x],
            forall|x: int| hi <= x < old(v)@.len() ==> final(v)@[x] == old(v)@[x],
            final(v)@.subrange(lo as int, hi as int).to_multiset() == old(v)@.subrange(
                lo as int,
                hi as int,
            ).to_multiset(),
            kd_wf(final(v)@.subrange(lo as int, hi as int), k as int),
        decreases hi - lo,
    {
        let size = hi - lo;
        if size > 1 {
            let middle: usize = if size % 2 != 0 {
                size / 2
            } else {
                size / 2 - 1
            };
            Self::select_mid(v, lo, hi, middle, k);
            let ghost v1 = v@;
            let nk: usize = if k == 0 {
                1
            } else {
                0
            };
            Self::sort_kdtree(v, lo, lo + middle, nk);
            let ghost v2 = v@;
            Self::sort_kdtree(v, lo + middle + 1, hi, nk);
            proof {
                lemma_sort_kdtree_post(old(v)@, v1, v2, v@, lo as int, hi as int, k as int);
            }
        } else {
            proof {
                assert(final(v)@.subrange(lo as int, hi as int) =~= old(v)@.subrange(
                    lo as int,
                    hi as int,
                ));
            }
        }
    }
}

/// The candidate-list invariant: at most `cap` entries, each a real indexed
/// point paired with its true squared distance to the target, no identity
/// twice.
pub open spec fn bests_wf(
    root: Seq<Coordinate>,
    target: Coordinate,
    bests: Seq<(Coordinate, i64)>,
    cap: int,
) -> bool {
    &&& bests.len() <= cap
    &&& forall|x: int| 0 <= x < bests.len() ==> root.contains((#[trigger] bests[x]).0)
    &&& forall|x: int|
        0 <= x < bests.len() ==> (#[trigger] bests[x]).1 == spec_dist(target, bests[x].0)
    &&& forall|x: int, y: int|
        0 <= x < bests.len() && 0 <= y < bests.len() && x != y ==> (#[trigger] bests[x]).0.id != (
        #[trigger] bests[y]).0.id
}

/// Some candidate lies within distance `v`.
pub open spec fn has_at_most(s: Seq<(Coordinate, i64)>, v: int) -> bool {
    exists|y: int| 0 <= y < s.len() && (#[trigger] s[y]).1 <= v
}

/// Every old candidate is matched by a new one at least as close: the best
/// distance recorded never regresses.
#[verifier::opaque]
pub open spec fn covers(new: Seq<(Coordinate, i64)>, old: Seq<(Coordinate, i64)>) -> bool {
    forall|x: int| 0 <= x < old.len() ==> has_at_most(new, (#[trigger] old[x]).1 as int)
}

/// A candidate list covers itself.
proof fn lemma_covers_refl(s: Seq<(Coordinate, i64)>)
    ensures
        covers(s, s),
{
    reveal(covers);
    assert forall|x: int| 0 <= x < s.len() implies has_at_most(s, (#[trigger] s[x]).1 as int) by {
        assert(0 <= x < s.len() && s[x].1 <= s[x].1);
    }
}

/// `covers` composes, and it carries `has_at_most` bounds along.
proof fn lemma_covers_trans(c: Seq<(Coordinate, i64)>, b: Seq<(Coordinate, i64)>, a: Seq<
    (Coordinate, i64),
>)
    requires
        covers(b, a),
        covers(c, b),
    ensures
        covers(c, a),
{
    reveal(covers);
    assert forall|x: int| 0 <= x < a.len() implies has_at_most(c, (#[trigger] a[x]).1 as int) by {
        assert(has_at_most(b, a[x].1 as int));
        let y1 = choose|y1: int| 0 <= y1 < b.len() && (#[trigger] b[y1]).1 <= a[x].1;
        assert(has_at_most(c, b[y1].1 as int));
        let y2 = choose|y2: int| 0 <= y2 < c.len() && (#[trigger] c[y2]).1 <= b[y1].1;
        assert(0 <= y2 < c.len() && c[y2].1 <= a[x].1);
    }
}

/// A permutation of a well-formed candidate list is well formed.
proof fn lemma_bests_perm(
    root: Seq<Coordinate>,
    target: Coordinate,
    a: Seq<(Coordinate, i64)>,
    b: Seq<(Coordinate, i64)>,
    cap: int,
)
    requires
        bests_wf(root, target, a, cap),
        a.to_multiset() == b.to_multiset(),
    ensures
        bests_wf(root, target, b, cap),
        covers(b, a),
{
    broadcast use vstd::seq_lib::group_to_multiset_ensures, vstd::multiset::group_multiset_axioms;

    reveal(covers);
    assert(a.to_multiset().len() == a.len());
    assert(b.to_multiset().len() == b.len());
    assert(b.len() == a.len());
    assert forall|x: int|
        0 <= x < b.len() implies root.contains((#[trigger] b[x]).0) && b[x].1 == spec_dist(
        target,
        b[x].0,
    ) by {
        assert(b.contains(b[x]));
        assert(a.to_multiset().count(b[x]) > 0);
        assert(a.contains(b[x]));
        let y = choose|y: int| 0 <= y < a.len() && #[trigger] a[y] == b[x];
    }
    assert(a.no_duplicates()) by {
        assert forall|i: int, j: int|
            0 <= i < a.len() && 0 <= j < a.len() && i != j implies a[i] != a[j] by {
            assert(a[i].0.id != a[j].0.id);
        }
    }
    a.lemma_multiset_has_no_duplicates();
    b.lemma_multiset_has_no_duplicates_conv();
    assert forall|x: int, y: int|
        0 <= x < b.len() && 0 <= y < b.len() && x != y implies (#[trigger] b[x]).0.id != (
    #[trigger] b[y]).0.id by {
        assert(b[x] != b[y]);
        assert(b.contains(b[x]) && b.contains(b[y]));
        assert(a.to_multiset().count(b[x]) > 0 && a.to_multiset().count(b[y]) > 0);
        assert(a.contains(b[x]) && a.contains(b[y]));
        let xa = choose|xa: int| 0 <= xa < a.len() && #[trigger] a[xa] == b[x];
        let ya = choose|ya: int| 0 <= ya < a.len() && #[trigger] a[ya] == b[y];
        assert(xa != ya);
    }
    assert forall|x: int| 0 <= x < a.len() implies has_at_most(b, (#[trigger] a[x]).1 as int) by {
        assert(a.contains(a[x]));
        assert(b.to_multiset().count(a[x]) > 0);
        assert(b.contains(a[x]));
        let y = choose|y: int| 0 <= y < b.len() && #[trigger] b[y] == a[x];
        assert(0 <= y < b.len() && b[y].1 <= a[x].1);
    }
}

/// The pruning rule: a point on the far side of the splitting plane is at
/// least as far from the target as the plane itself, so a best radius that
/// does not reach the plane rules the whole far side out.
proof fn lemma_plane_prune(t: Coordinate, mid: Coordinate, p: Coordinate, k: int, left: bool)
    requires
        0 <= k < 2,
        left ==> t.spec_coord(k) < mid.spec_coord(k) && mid.spec_coord(k) <= p.spec_coord(k),
        !left ==> mid.spec_coord(k) <= t.spec_coord(k) && p.spec_coord(k) <= mid.spec_coord(k),
    ensures
        spec_dist(t, p) >= (t.spec_coord(k) - mid.spec_coord(k)) * (t.spec_coord(k)
            - mid.spec_coord(k)),
{
    let a = t.spec_coord(k);
    let b = mid.spec_coord(k);
    let c = p.spec_coord(k);
    assert((a - c) * (a - c) >= (a - b) * (a - b)) by (nonlinear_arith)
        requires
            a <= b <= c || c <= b <= a,
    ;
    if k == 0 {
        assert(spec_dist(t, p) >= (t.lat - p.lat) * (t.lat - p.lat)) by (nonlinear_arith);
    } else {
        assert(spec_dist(t, p) >= (t.lng - p.lng) * (t.lng - p.lng)) by (nonlinear_arith);
    }
}

/// The pruning rule over a whole KD slice: when the best radius does not
/// reach the splitting plane, every point of the far half is at least as
/// far from the target as the current best.
proof fn lemma_prune_half(
    s: Seq<Coordinate>,
    target: Coordinate,
    best: Coordinate,
    m: int,
    k: int,
    left: bool,
)
    requires
        0 <= k < 2,
        0 <= m < s.len(),
        forall|i: int| 0 <= i < m ==> (#[trigger] s[i]).spec_coord(k) <= s[m].spec_coord(k),
        forall|j: int| m < j < s.len() ==> s[m].spec_coord(k) <= (#[trigger] s[j]).spec_coord(k),
        left <==> target.spec_coord(k) < s[m].spec_coord(k),
        spec_dist(target, best) < (target.spec_coord(k) - s[m].spec_coord(k)) * (target.spec_coord(
            k,
        ) - s[m].spec_coord(k)),
    ensures
        left ==> forall|x: int|
            m < x < s.len() ==> spec_dist(target, best) <= spec_dist(target, #[trigger] s[x]),
        !left ==> forall|x: int|
            0 <= x < m ==> spec_dist(target, best) <= spec_dist(target, #[trigger] s[x]),
{
    if left {
        assert forall|x: int| m < x < s.len() implies spec_dist(target, best) <= spec_dist(
            target,
            #[trigger] s[x],
        ) by {
            lemma_plane_prune(target, s[m], s[x], k, left);
        }
    } else {
        assert forall|x: int| 0 <= x < m implies spec_dist(target, best) <= spec_dist(
            target,
            #[trigger] s[x],
        ) by {
            lemma_plane_prune(target, s[m], s[x], k, left);
        }
    }
}

/// Stitches the three build stages together: after selecting the median of
/// `[lo, hi)` into the split slot and recursively ordering the two halves,
/// the whole range is KD-ordered and a permutation of what it held before.
proof fn lemma_sort_kdtree_post(
    v0: Seq<Coordinate>,
    v1: Seq<Coordinate>,
    v2: Seq<Coordinate>,
    v3: Seq<Coordinate>,
    lo: int,
    hi: int,
    k: int,
)
    requires
        0 <= lo <= hi <= v0.len(),
        hi - lo > 1,
        v0.len() == v1.len() == v2.len() == v3.len(),
        ({
            let m = mid_of(hi - lo);
            &&& forall|x: int| 0 <= x < lo ==> v1[x] == v0[x]
            &&& forall|x: int| hi <= x < v0.len() ==> v1[x] == v0[x]
            &&& v1.subrange(lo, hi).to_multiset() == v0.subrange(lo, hi).to_multiset()
            &&& forall|x: int|
                lo <= x < lo + m ==> (#[trigger] v1[x]).spec_coord(k) <= v1[lo + m].spec_coord(k)
            &&& forall|x: int|
                lo + m < x < hi ==> v1[lo + m].spec_coord(k) <= (#[trigger] v1[x]).spec_coord(k)
            &&& forall|x: int| 0 <= x < lo ==> v2[x] == v1[x]
            &&& forall|x: int| lo + m <= x < v0.len() ==> v2[x] == v1[x]
            &&& v2.subrange(lo, lo + m).to_multiset() == v1.subrange(lo, lo + m).to_multiset()
            &&& kd_wf(v2.subrange(lo, lo + m), next_dim(k))
            &&& forall|x: int| 0 <= x < lo + m + 1 ==> v3[x] == v2[x]
            &&& forall|x: int| hi <= x < v0.len() ==> v3[x] == v2[x]
            &&& v3.subrange(lo + m + 1, hi).to_multiset() == v2.subrange(
                lo + m + 1,
                hi,
            ).to_multiset()
            &&& kd_wf(v3.subrange(lo + m + 1, hi), next_dim(k))
        }),
    ensures
        forall|x: int| 0 <= x < lo ==> v3[x] == v0[x],
        forall|x: int| hi <= x < v0.len() ==> v3[x] == v0[x],
        v3.subrange(lo, hi).to_multiset() == v0.subrange(lo, hi).to_multiset(),
        kd_wf(v3.subrange(lo, hi), k),
{
    let m = mid_of(hi - lo);
    let s = v3.subrange(lo, hi);
    // The two recursive sorts permute within their halves, so the slice
    // stays a permutation of what selection produced.
    assert(v2.subrange(lo, hi) =~= v2.subrange(lo, lo + m) + v1.subrange(lo + m, hi)) by {
        assert(v1.subrange(lo + m, hi) =~= v2.subrange(lo + m, hi));
    }
    assert(v1.subrange(lo, hi) =~= v1.subrange(lo, lo + m) + v1.subrange(lo + m, hi));
    vstd::seq_lib::lemma_multiset_commutative(v2.subrange(lo, lo + m), v1.subrange(lo + m, hi));
    vstd::seq_lib::lemma_multiset_commutative(v1.subrange(lo, lo + m), v1.subrange(lo + m, hi));
    assert(v2.subrange(lo, hi).to_multiset() == v1.subrange(lo, hi).to_multiset());
    assert(v3.subrange(lo, hi) =~= v2.subrange(lo, lo + m + 1) + v3.subrange(lo + m + 1, hi)) by {
        assert(v2.subrange(lo, lo + m + 1) =~= v3.subrange(lo, lo + m + 1));
    }
    assert(v2.subrange(lo, hi) =~= v2.subrange(lo, lo + m + 1) + v2.subrange(lo + m + 1, hi));
    vstd::seq_lib::lemma_multiset_commutative(
        v2.subrange(lo, lo + m + 1),
        v3.subrange(lo + m + 1, hi),
    );
    vstd::seq_lib::lemma_multiset_commutative(
        v2.subrange(lo, lo + m + 1),
        v2.subrange(lo + m + 1, hi),
    );
    assert(v3.subrange(lo, hi).to_multiset() == v2.subrange(lo, hi).to_multiset());
    // The median never moved, and each half still holds values bounded by
    // it: a value in the sorted half sits in that half's multiset, hence
    // was there before sorting.
    assert(s[m] == v1[lo + m]);
    assert forall|i: int| 0 <= i < m implies (#[trigger] s[i]).spec_coord(k) <= s[m].spec_coord(
        k,
    ) by {
        assert(s[i] == v3[lo + i] && v3[lo + i] == v2[lo + i]);
        assert(v2.subrange(lo, lo + m).contains(v2[lo + i])) by {
            assert(v2.subrange(lo, lo + m)[i] == v2[lo + i]);
        }
        assert(v1.subrange(lo, lo + m).to_multiset().count(v2[lo + i]) > 0);
        assert(v1.subrange(lo, lo + m).contains(v2[lo + i]));
        let y = choose|y: int|
            0 <= y < v1.subrange(lo, lo + m).len() && #[trigger] v1.subrange(lo, lo + m)[y] == v2[lo
            + i];
        assert(v1[lo + y] == v2[lo + i]);
    }
    assert forall|j: int| m < j < s.len() implies s[m].spec_coord(k) <= (#[trigger] s[j]).spec_coord(
        k,
    ) by {
        assert(s[j] == v3[lo + j]);
        if lo + j >= lo + m + 1 {
            assert(v3.subrange(lo + m + 1, hi).contains(v3[lo + j])) by {
                assert(v3.subrange(lo + m + 1, hi)[lo + j - (lo + m + 1)] == v3[lo + j]);
            }
            assert(v2.subrange(lo + m + 1, hi).to_multiset().count(v3[lo + j]) > 0);
            assert(v2.subrange(lo + m + 1, hi).contains(v3[lo + j]));
            let y = choose|y: int|
                0 <= y < v2.subrange(lo + m + 1, hi).len() && #[trigger] v2.subrange(
                    lo + m + 1,
                    hi,
                )[y] == v3[lo + j];
            assert(v1[lo + m + 1 + y] == v3[lo + j]);
        }
    }
    assert(kd_wf(s.subrange(0, m), next_dim(k))) by {
        assert(s.subrange(0, m) =~= v2.subrange(lo, lo + m));
    }
    assert(kd_wf(s.subrange(m + 1, s.len() as int), next_dim(k))) by {
        assert(s.subrange(m + 1, s.len() as int) =~= v3.subrange(lo + m + 1, hi));
    }
    assert(mid_of(s.len() as int) == m);
}

} // verus!
