use std::collections::HashMap;
use vstd::prelude::*;

verus! {

broadcast use vstd::std_specs::hash::group_hash_axioms, vstd::seq_lib::group_to_multiset_ensures, vstd::multiset::group_multiset_axioms;

/// An element that a `MinHeap` can track: it carries a stable external
/// identity and a priority that can be rewritten in place.
pub trait Prioritiness: Sized + Copy {
    /// The element's identity, in specifications.
    spec fn spec_id(&self) -> usize;

    /// The element's priority, in specifications.
    spec fn spec_priority(&self) -> i64;

    /// The element's identity.
    fn id(&self) -> (r: usize)
        ensures
            r == self.spec_id(),
    ;

    /// The element's priority.
    fn priority(&self) -> (r: i64)
        ensures
            r == self.spec_priority(),
    ;

    /// Rewrites the priority in place, keeping the identity.
    fn change_priority(&mut self, p: i64)
        ensures
            final(self).spec_id() == old(self).spec_id(),
            final(self).spec_priority() == p,
    ;
}

/// The parent slot of heap slot `i`.
pub open spec fn parent_idx(i: int) -> int {
    (i - 1) / 2
}

/// The binary min-heap ordering over an array: every slot's priority is at
/// least its parent's.
pub open spec fn is_heap<T: Prioritiness>(s: Seq<T>) -> bool {
    forall|i: int|
        1 <= i < s.len() ==> s[parent_idx(i)].spec_priority() <= #[trigger] s[i].spec_priority()
}

/// Some element of `s` carries identity `id`.
pub open spec fn contains_id<T: Prioritiness>(s: Seq<T>, id: usize) -> bool {
    exists|j: int| 0 <= j < s.len() && #[trigger] s[j].spec_id() == id
}

/// The root of a heap-ordered array holds a minimal priority.
proof fn lemma_root_min<T: Prioritiness>(s: Seq<T>, i: int)
    requires
        is_heap(s),
        0 <= i < s.len(),
    ensures
        s[0].spec_priority() <= s[i].spec_priority(),
    decreases i,
{
    if i > 0 {
        lemma_root_min(s, parent_idx(i));
    }
}

/// An indexed binary min-heap: a heap-ordered array of elements plus a map
/// from element identity to array slot, which makes targeted priority
/// changes O(log n). The identities of the stored elements are mutually
/// distinct; the map always mirrors the array.
pub struct MinHeap<T: Prioritiness + Copy> {
    pub heap: Vec<T>,
    internal_map: HashMap<usize, usize>,
}

impl<T: Prioritiness + Copy> View for MinHeap<T> {
    type V = Seq<T>;

    closed spec fn view(&self) -> Seq<T> {
        self.heap@
    }
}

impl<T: Prioritiness + Copy> MinHeap<T> {
    /// The identity map mirrors the array: every stored element's identity
    /// maps to its slot, and every mapped identity points back at an element
    /// that carries it.
    closed spec fn map_ok(self) -> bool {
        &&& forall|i: int|
            0 <= i < self.heap@.len() ==> {
                &&& self.internal_map@.contains_key(#[trigger] self.heap@[i].spec_id())
                &&& self.internal_map@[self.heap@[i].spec_id()] == i
            }
        &&& forall|id: usize|
            #[trigger] self.internal_map@.contains_key(id) ==> {
                &&& self.internal_map@[id] < self.heap@.len()
                &&& self.heap@[self.internal_map@[id] as int].spec_id() == id
            }
    }

    /// The structure invariant: the identity map mirrors the array and the
    /// array is heap-ordered.
    pub closed spec fn well_formed(self) -> bool {
        self.map_ok() && is_heap(self@)
    }

    /// The identities of the stored elements are mutually distinct, so no
    /// element value is stored twice.
    pub proof fn lemma_distinct_ids(&self)
        requires
            self.well_formed(),
        ensures
            forall|i: int, j: int|
                0 <= i < self@.len() && 0 <= j < self@.len() && i != j ==> self@[i].spec_id()
                    != self@[j].spec_id(),
            self@.no_duplicates(),
            forall|x: T| self@.to_multiset().contains(x) ==> self@.to_multiset().count(x) == 1,
    {
        assert forall|i: int, j: int|
            0 <= i < self@.len() && 0 <= j < self@.len() && i != j implies self@[i].spec_id()
            != self@[j].spec_id() by {
            assert(self.internal_map@[self@[i].spec_id()] == i);
            assert(self.internal_map@[self@[j].spec_id()] == j);
        }
        self@.lemma_multiset_has_no_duplicates();
    }

    /// Creates an empty heap.
    pub fn new() -> (q: Self)
        ensures
            q.well_formed(),
            q@.len() == 0,
    {
        Self { heap: Vec::new(), internal_map: HashMap::new() }
    }

    /// Whether the heap holds no element.
    pub fn is_empty(&self) -> (r: bool)
        ensures
            r == (self@.len() == 0),
    {
        self.heap.len() == 0
    }

    /// The number of stored elements.
    pub fn len(&self) -> (r: usize)
        ensures
            r == self@.len(),
    {
        self.heap.len()
    }

    /// Adds an element whose identity is not yet present.
    pub fn insert(&mut self, el: T)
        requires
            old(self).well_formed(),
            !contains_id(old(self)@, el.spec_id()),
        ensures
            final(self).well_formed(),
            final(self)@.len() == old(self)@.len() + 1,
            final(self)@.to_multiset() == old(self)@.to_multiset().insert(el),
            forall|x: T|
                final(self)@.contains(x) <==> (old(self)@.contains(x) || x == el),
    {
        self.heap.push(el);
        let idx = self.heap.len() - 1;
        self.internal_map.insert(el.id(), idx);
        self.sift_up(idx);
        proof {
            assert forall|x: T| final(self)@.contains(x) <==> (old(self)@.contains(x) || x
                == el) by {
                assert(final(self)@.to_multiset().count(x) == old(self)@.to_multiset().count(x) + (
                    if x == el {
                        1int
                    } else {
                        0
                    }));
            }
        }
    }

    /// The minimum-priority element, without removing it.
    pub fn get_min(&self) -> (r: T)
        requires
            self.well_formed(),
            self@.len() > 0,
        ensures
            r == self@[0],
            forall|j: int| 0 <= j < self@.len() ==> r.spec_priority() <= #[trigger] self@[j].spec_priority(),
    {
        proof {
            assert forall|j: int| 0 <= j < self@.len() implies self@[0].spec_priority()
                <= #[trigger] self@[j].spec_priority() by {
                lemma_root_min(self@, j);
            }
        }
        self.heap[0]
    }

    /// Removes and returns the minimum-priority element.
    pub fn extract_min(&mut self) -> (r: T)
        requires
            old(self).well_formed(),
            old(self)@.len() > 0,
        ensures
            final(self).well_formed(),
            r == old(self)@[0],
            final(self)@.len() == old(self)@.len() - 1,
            final(self)@.to_multiset() == old(self)@.to_multiset().remove(r),
            forall|j: int|
                0 <= j < old(self)@.len() ==> r.spec_priority() <= #[trigger] old(
                    self,
                )@[j].spec_priority(),
            forall|x: T| final(self)@.contains(x) <==> (old(self)@.contains(x) && x != r),
    {
        proof {
            self.lemma_distinct_ids();
        }
        proof {
            assert forall|j: int| 0 <= j < self@.len() implies self@[0].spec_priority()
                <= #[trigger] self@[j].spec_priority() by {
                lemma_root_min(self@, j);
            }
        }
        let el = self.heap[0];
        self.internal_map.remove(&el.id());
        let len = self.heap.len();
        let ghost prev = self.heap@;
        let last = self.heap[len - 1];
        self.heap.set(0, last);
        self.heap.pop();
        proof {
            assert(self.heap@ =~= prev.update(0, prev[prev.len() - 1]).remove(prev.len() - 1));
            assert(self.heap@.to_multiset() =~= prev.to_multiset().remove(prev[0]));
        }
        if self.heap.len() > 0 {
            self.internal_map.insert(self.heap[0].id(), 0);
            self.sift_down(0);
        }
        proof {
            assert forall|x: T| final(self)@.contains(x) <==> (old(self)@.contains(x) && x
                != el) by {
                assert(final(self)@.to_multiset().count(x) == old(self)@.to_multiset().count(x) - (
                    if x == el {
                        1int
                    } else {
                        0
                    }));
                if x == el {
                    assert(old(self)@.contains(el));
                    assert(old(self)@.to_multiset().count(el) == 1);
                }
            }
        }
        el
    }

    /// Rewrites the priority of the element carrying identity `id` and
    /// restores heap order, sifting up after a decrease and down after an
    /// increase.
    pub fn change_priority(&mut self, id: usize, new_p: i64)
        requires
            old(self).well_formed(),
            contains_id(old(self)@, id),
        ensures
            final(self).well_formed(),
            final(self)@.len() == old(self)@.len(),
            exists|j: int, e: T|
                {
                    &&& 0 <= j < old(self)@.len()
                    &&& old(self)@[j].spec_id() == id
                    &&& e.spec_id() == id
                    &&& e.spec_priority() == new_p
                    &&& final(self)@.to_multiset() == old(self)@.to_multiset().remove(
                        old(self)@[j],
                    ).insert(e)
                },
            contains_id(final(self)@, id),
            forall|x: T| final(self)@.contains(x) && x.spec_id() != id ==> old(self)@.contains(x),
            forall|x: T| old(self)@.contains(x) && x.spec_id() != id ==> final(self)@.contains(x),
            forall|x: T|
                final(self)@.contains(x) && x.spec_id() == id ==> x.spec_priority() == new_p,
    {
        proof {
            self.lemma_distinct_ids();
        }
        let index = match self.internal_map.get(&id) {
            Some(ix) => *ix,
            None => {
                proof {
                    let j = choose|j: int|
                        0 <= j < self@.len() && #[trigger] self@[j].spec_id() == id;
                    assert(self.internal_map@.contains_key(self@[j].spec_id()));
                }
                vstd::pervasive::unreached()
            },
        };
        let ghost j = self.internal_map@[id] as int;
        let old_p = self.heap[index].priority();
        let mut el = self.heap[index];
        el.change_priority(new_p);
        self.heap.set(index, el);
        let ghost mid = self.heap@;
        if new_p < old_p {
            self.sift_up(index);
        } else {
            self.sift_down(index);
        }
        proof {
            assert(mid =~= old(self)@.update(j, el));
            assert(final(self)@.to_multiset() == old(self)@.to_multiset().remove(
                old(self)@[j],
            ).insert(el));
            let removed = old(self)@[j];
            assert(old(self)@.contains(removed));
            assert(old(self)@.to_multiset().count(removed) == 1);
            assert forall|x: T|
                final(self)@.contains(x) implies ((x.spec_id() == id ==> x.spec_priority() == new_p)
                && (x.spec_id() != id ==> old(self)@.contains(x))) by {
                assert(final(self)@.to_multiset().count(x) == old(self)@.to_multiset().count(x) - (
                    if x == removed {
                        1int
                    } else {
                        0
                    }) + (
                    if x == el {
                        1int
                    } else {
                        0
                    }));
                if x != el && x.spec_id() == id {
                    assert(old(self)@.contains(x));
                    let jx = choose|jx: int| 0 <= jx < old(self)@.len() && old(self)@[jx] == x;
                    assert(jx == j);
                    assert(false);
                }
            }
            assert forall|x: T|
                old(self)@.contains(x) && x.spec_id() != id implies final(self)@.contains(x) by {
                assert(final(self)@.to_multiset().count(x) == old(self)@.to_multiset().count(x) - (
                    if x == removed {
                        1int
                    } else {
                        0
                    }) + (
                    if x == el {
                        1int
                    } else {
                        0
                    }));
            }
            assert(final(self)@.to_multiset().count(el) > 0) by {
                assert(final(self)@.to_multiset().count(el) == old(self)@.to_multiset().count(el)
                    - (
                    if el == removed {
                        1int
                    } else {
                        0
                    }) + 1);
            }
            assert(final(self)@.contains(el));
        }
    }

    /// Moves the element at `i` toward the root until its parent is no
    /// larger, updating the identity map at every swap.
    fn sift_up(&mut self, i: usize)
        requires
            old(self).map_ok(),
            i < old(self)@.len(),
            forall|j: int|
                1 <= j < old(self)@.len() && j != i ==> old(self)@[parent_idx(j)].spec_priority()
                    <= #[trigger] old(self)@[j].spec_priority(),
            forall|j: int|
                1 <= j < old(self)@.len() && parent_idx(j) == i && i >= 1 ==> old(
                    self,
                )@[parent_idx(i as int)].spec_priority() <= #[trigger] old(
                    self,
                )@[j].spec_priority(),
        ensures
            final(self).well_formed(),
            final(self)@.len() == old(self)@.len(),
            final(self)@.to_multiset() == old(self)@.to_multiset(),
    {
        let mut i = i;
        let ghost orig = self.heap@;
        loop
            invariant
                self.map_ok(),
                i < self.heap@.len(),
                self.heap@.len() == orig.len(),
                self.heap@.to_multiset() == orig.to_multiset(),
                forall|j: int|
                    1 <= j < self.heap@.len() && j != i ==> self.heap@[parent_idx(
                        j,
                    )].spec_priority() <= #[trigger] self.heap@[j].spec_priority(),
                forall|j: int|
                    1 <= j < self.heap@.len() && parent_idx(j) == i && i >= 1
                        ==> self.heap@[parent_idx(i as int)].spec_priority()
                        <= #[trigger] self.heap@[j].spec_priority(),
            ensures
                is_heap(self.heap@),
            decreases i,
        {
            if i == 0 {
                break ;
            }
            let parent = (i - 1) / 2;
            if !(self.heap[parent].priority() > self.heap[i].priority()) {
                break ;
            }
            let a = self.heap[i];
            let b = self.heap[parent];
            self.internal_map.insert(a.id(), parent);
            self.internal_map.insert(b.id(), i);
            self.heap.set(i, b);
            self.heap.set(parent, a);
            i = parent;
        }
    }

    /// Moves the element at `i` toward the leaves until no child is
    /// smaller, updating the identity map at every swap.
    fn sift_down(&mut self, i: usize)
        requires
            old(self).map_ok(),
            i < old(self)@.len(),
            forall|j: int|
                1 <= j < old(self)@.len() && parent_idx(j) != i ==> old(self)@[parent_idx(
                    j,
                )].spec_priority() <= #[trigger] old(self)@[j].spec_priority(),
            forall|j: int|
                1 <= j < old(self)@.len() && parent_idx(j) == i && i >= 1 ==> old(
                    self,
                )@[parent_idx(i as int)].spec_priority() <= #[trigger] old(
                    self,
                )@[j].spec_priority(),
        ensures
            final(self).well_formed(),
            final(self)@.len() == old(self)@.len(),
            final(self)@.to_multiset() == old(self)@.to_multiset(),
        decreases old(self)@.len() - i,
    {
        let len = self.heap.len();
        let mut min_index = i;
        if i < len / 2 {
            let left = 2 * i + 1;
            if self.heap[left].priority() < self.heap[min_index].priority() {
                min_index = left;
            }
            let right = 2 * i + 2;
            if right < len && self.heap[right].priority() < self.heap[min_index].priority() {
                min_index = right;
            }
        }
        if i != min_index {
            let a = self.heap[i];
            let b = self.heap[min_index];
            self.internal_map.insert(a.id(), min_index);
            self.internal_map.insert(b.id(), i);
            self.heap.set(i, b);
            self.heap.set(min_index, a);
            self.sift_down(min_index);
        }
    }
}

} // verus!
