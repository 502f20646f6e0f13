use vstd::prelude::*;

verus! {

broadcast use vstd::seq_lib::group_to_multiset_ensures, vstd::multiset::group_multiset_axioms;

/// A first-in-first-out queue backed by a dynamic array and a read cursor.
/// The live contents are the elements at and after the cursor.
pub struct Queue<T: Copy> {
    buf: Vec<T>,
    head: usize,
}

impl<T: Copy> View for Queue<T> {
    type V = Seq<T>;

    closed spec fn view(&self) -> Seq<T> {
        self.buf@.skip(self.head as int)
    }
}

impl<T: Copy> Queue<T> {
    /// The read cursor never passes the end of the buffer.
    pub closed spec fn well_formed(self) -> bool {
        self.head <= self.buf@.len()
    }

    /// Creates an empty queue.
    pub fn new() -> (q: Self)
        ensures
            q.well_formed(),
            q@.len() == 0,
    {
        Self { buf: Vec::new(), head: 0 }
    }

    /// Appends a value at the back.
    pub fn enqueue(&mut self, val: T)
        requires
            old(self).well_formed(),
        ensures
            final(self).well_formed(),
            final(self)@ == old(self)@.push(val),
    {
        self.buf.push(val);
        proof {
            assert(final(self)@ =~= old(self)@.push(val));
        }
    }

    /// Removes and returns the oldest value, or `None` when empty.
    pub fn dequeue(&mut self) -> (r: Option<T>)
        requires
            old(self).well_formed(),
        ensures
            final(self).well_formed(),
            old(self)@.len() == 0 ==> r is None && final(self)@ == old(self)@,
            old(self)@.len() > 0 ==> r == Some(old(self)@[0]) && final(self)@ == old(
                self,
            )@.drop_first(),
    {
        if self.head < self.buf.len() {
            let val = self.buf[self.head];
            self.head = self.head + 1;
            proof {
                assert(final(self)@ =~= old(self)@.drop_first());
            }
            Some(val)
        } else {
            None
        }
    }

    /// The oldest value, or `None` when empty, without removing it.
    pub fn peek(&self) -> (r: Option<T>)
        requires
            self.well_formed(),
        ensures
            self@.len() == 0 ==> r is None,
            self@.len() > 0 ==> r == Some(self@[0]),
    {
        if self.head < self.buf.len() {
            Some(self.buf[self.head])
        } else {
            None
        }
    }

    /// Whether the queue holds no value.
    pub fn empty(&self) -> (r: bool)
        requires
            self.well_formed(),
        ensures
            r == (self@.len() == 0),
    {
        self.head == self.buf.len()
    }
}

/// The parent slot of heap slot `i`.
pub open spec fn heap_parent_idx(i: int) -> int {
    (i - 1) / 2
}

/// The binary min-heap ordering over an integer array.
pub open spec fn is_int_heap(s: Seq<i32>) -> bool {
    forall|i: int| 1 <= i < s.len() ==> s[heap_parent_idx(i)] <= #[trigger] s[i]
}

/// The root of a heap-ordered integer array is minimal.
proof fn lemma_int_root_min(s: Seq<i32>, i: int)
    requires
        is_int_heap(s),
        0 <= i < s.len(),
    ensures
        s[0] <= s[i],
    decreases i,
{
    if i > 0 {
        lemma_int_root_min(s, heap_parent_idx(i));
    }
}

/// A plain binary min-heap of integers, without identity tracking: priority
/// changes address a slot directly.
pub struct MinHeap {
    heap: Vec<i32>,
}

impl View for MinHeap {
    type V = Seq<i32>;

    closed spec fn view(&self) -> Seq<i32> {
        self.heap@
    }
}

impl MinHeap {
    /// The array is heap-ordered.
    pub closed spec fn well_formed(self) -> bool {
        is_int_heap(self.heap@)
    }

    /// Creates an empty heap.
    pub fn new() -> (q: Self)
        ensures
            q.well_formed(),
            q@.len() == 0,
    {
        Self { heap: Vec::new() }
    }

    /// Adds a value.
    pub fn insert(&mut self, el: i32)
        requires
            old(self).well_formed(),
        ensures
            final(self).well_formed(),
            final(self)@.len() == old(self)@.len() + 1,
            final(self)@.to_multiset() == old(self)@.to_multiset().insert(el),
    {
        self.heap.push(el);
        let idx = self.heap.len() - 1;
        self.sift_up(idx);
    }

    /// The minimum value, without removing it.
    pub fn get_min(&self) -> (r: i32)
        requires
            self.well_formed(),
            self@.len() > 0,
        ensures
            r == self@[0],
            forall|j: int| 0 <= j < self@.len() ==> r <= #[trigger] self@[j],
    {
        proof {
            assert forall|j: int| 0 <= j < self@.len() implies self@[0] <= #[trigger] self@[j] by {
                lemma_int_root_min(self@, j);
            }
        }
        self.heap[0]
    }

    /// Removes and returns the minimum value.
    pub fn extract_min(&mut self) -> (r: i32)
        requires
            old(self).well_formed(),
            old(self)@.len() > 0,
        ensures
            final(self).well_formed(),
            r == old(self)@[0],
            final(self)@.len() == old(self)@.len() - 1,
            final(self)@.to_multiset() == old(self)@.to_multiset().remove(r),
            forall|j: int| 0 <= j < old(self)@.len() ==> r <= #[trigger] old(self)@[j],
    {
        proof {
            assert forall|j: int| 0 <= j < self@.len() implies self@[0] <= #[trigger] self@[j] by {
                lemma_int_root_min(self@, j);
            }
        }
        let el = self.heap[0];
        let len = self.heap.len();
        let ghost prev = self.heap@;
        let last = self.heap[len - 1];
        self.heap.set(0, last);
        self.heap.pop();
        proof {
            assert(self.heap@ =~= prev.update(0, prev[prev.len() - 1]).remove(prev.len() - 1));
            assert(self.heap@.to_multiset() =~= prev.to_multiset().remove(prev[0]));
        }
        if self.heap.len() > 0 {
            self.sift_down(0);
        }
        el
    }

    /// Rewrites the value at slot `i` and restores heap order, sifting up
    /// after a decrease and down after an increase.
    pub fn change_priority(&mut self, i: usize, new_p: i32)
        requires
            old(self).well_formed(),
            i < old(self)@.len(),
        ensures
            final(self).well_formed(),
            final(self)@.len() == old(self)@.len(),
            final(self)@.to_multiset() == old(self)@.to_multiset().remove(old(self)@[i as int]).insert(
                new_p,
            ),
    {
        let old_p = self.heap[i];
        self.heap.set(i, new_p);
        let ghost mid = self.heap@;
        if new_p < old_p {
            self.sift_up(i);
        } else {
            self.sift_down(i);
        }
        proof {
            assert(mid =~= old(self)@.update(i as int, new_p));
            assert(final(self)@.to_multiset() == old(self)@.to_multiset().remove(
                old(self)@[i as int],
            ).insert(new_p));
        }
    }

    /// Moves the value at `i` toward the root until its parent is no larger.
    fn sift_up(&mut self, i: usize)
        requires
            i < old(self)@.len(),
            forall|j: int|
                1 <= j < old(self)@.len() && j != i ==> old(self)@[heap_parent_idx(j)]
                    <= #[trigger] old(self)@[j],
            forall|j: int|
                1 <= j < old(self)@.len() && heap_parent_idx(j) == i && i >= 1 ==> old(
                    self,
                )@[heap_parent_idx(i as int)] <= #[trigger] old(self)@[j],
        ensures
            final(self).well_formed(),
            final(self)@.len() == old(self)@.len(),
            final(self)@.to_multiset() == old(self)@.to_multiset(),
    {
        let mut i = i;
        let ghost orig = self.heap@;
        loop
            invariant
                i < self.heap@.len(),
                self.heap@.len() == orig.len(),
                self.heap@.to_multiset() == orig.to_multiset(),
                forall|j: int|
                    1 <= j < self.heap@.len() && j != i ==> self.heap@[heap_parent_idx(j)]
                        <= #[trigger] self.heap@[j],
                forall|j: int|
                    1 <= j < self.heap@.len() && heap_parent_idx(j) == i && i >= 1
                        ==> self.heap@[heap_parent_idx(i as int)] <= #[trigger] self.heap@[j],
            ensures
                is_int_heap(self.heap@),
            decreases i,
        {
            if i == 0 {
                break ;
            }
            let parent = (i - 1) / 2;
            if !(self.heap[parent] > self.heap[i]) {
                break ;
            }
            let a = self.heap[i];
            let b = self.heap[parent];
            self.heap.set(i, b);
            self.heap.set(parent, a);
            i = parent;
        }
    }

    /// Moves the value at `i` toward the leaves until no child is smaller.
    fn sift_down(&mut self, i: usize)
        requires
            i < old(self)@.len(),
            forall|j: int|
                1 <= j < old(self)@.len() && heap_parent_idx(j) != i ==> old(
                    self,
                )@[heap_parent_idx(j)] <= #[trigger] old(self)@[j],
            forall|j: int|
                1 <= j < old(self)@.len() && heap_parent_idx(j) == i && i >= 1 ==> old(
                    self,
                )@[heap_parent_idx(i as int)] <= #[trigger] old(self)@[j],
        ensures
            final(self).well_formed(),
            final(self)@.len() == old(self)@.len(),
            final(self)@.to_multiset() == old(self)@.to_multiset(),
        decreases old(self)@.len() - i,
    {
        let len = self.heap.len();
        let mut min_index = i;
        if i < len / 2 {
            let left = 2 * i + 1;
            if self.heap[left] < self.heap[min_index] {
                min_index = left;
            }
            let right = 2 * i + 2;
            if right < len && self.heap[right] < self.heap[min_index] {
                min_index = right;
            }
        }
        if i != min_index {
            let a = self.heap[i];
            let b = self.heap[min_index];
            self.heap.set(i, b);
            self.heap.set(min_index, a);
            self.sift_down(min_index);
        }
    }
}

} // verus!
