use crate::ds::Queue as LinkedQueue;
use crate::graph::Graph;
use queues::IsQueue;
use vstd::prelude::*;

verus! {

/// The number of unvisited marks left: the termination measure of a
/// traversal that marks one node per enqueue.
pub open spec fn count_false(s: Seq<bool>) -> nat
    decreases s.len(),
{
    if s.len() == 0 {
        0
    } else {
        (if s[0] {
            0nat
        } else {
            1nat
        }) + count_false(s.drop_first())
    }
}

/// Marking one unvisited node lowers the measure by exactly one.
proof fn lemma_count_false_update(s: Seq<bool>, i: int)
    requires
        0 <= i < s.len(),
        !s[i],
    ensures
        count_false(s) >= 1,
        count_false(s.update(i, true)) == count_false(s) - 1,
    decreases s.len(),
{
    if i == 0 {
        assert(s.update(0, true).drop_first() =~= s.drop_first());
    } else {
        assert(s.update(i, true).drop_first() =~= s.drop_first().update(i - 1, true));
        lemma_count_false_update(s.drop_first(), i - 1);
    }
}

/// The traversal from one start node over the library's own queue: marks
/// the start and every node it dequeues a way to, never unmarking anything.
#[verifier::loop_isolation(false)]
fn bfs_from(graph: &Graph, visited: &mut Vec<bool>, n: usize)
    requires
        graph.well_formed(),
        old(visited)@.len() == graph.n(),
        n < graph.n(),
        !old(visited)@[n as int],
    ensures
        final(visited)@.len() == old(visited)@.len(),
        forall|j: int|
            0 <= j < old(visited)@.len() && old(visited)@[j] ==> #[trigger] final(visited)@[j],
        final(visited)@[n as int],
{
    let mut q: LinkedQueue<usize> = LinkedQueue::new();
    q.enqueue(n);
    proof {
        lemma_count_false_update(visited@, n as int);
    }
    visited.set(n, true);
    while !q.empty()
        invariant
            graph.well_formed(),
            q.well_formed(),
            n < graph.n(),
            visited@.len() == graph.n(),
            forall|x: int| 0 <= x < q@.len() ==> #[trigger] q@[x] < graph.n(),
            forall|j: int|
                0 <= j < old(visited)@.len() && old(visited)@[j] ==> #[trigger] visited@[j],
            visited@[n as int],
        decreases q@.len() + count_false(visited@),
    {
        let ghost m0 = q@.len() + count_false(visited@);
        let node = match q.dequeue() {
            Some(v) => v,
            None => vstd::pervasive::unreached(),
        };
        let edges_len = graph.edges[node].len();
        let mut k: usize = 0;
        while k < edges_len
            invariant
                graph.well_formed(),
                q.well_formed(),
                n < graph.n(),
                node < graph.n(),
                edges_len == graph.edges@[node as int]@.len(),
                k <= edges_len,
                visited@.len() == graph.n(),
                forall|x: int| 0 <= x < q@.len() ==> #[trigger] q@[x] < graph.n(),
                forall|j: int|
                    0 <= j < old(visited)@.len() && old(visited)@[j] ==> #[trigger] visited@[j],
                visited@[n as int],
                q@.len() + count_false(visited@) <= m0 - 1,
            decreases edges_len - k,
        {
            let neighbour = graph.edges[node][k];
            if !visited[neighbour] {
                q.enqueue(neighbour);
                proof {
                    lemma_count_false_update(visited@, neighbour as int);
                }
                visited.set(neighbour, true);
            }
            k = k + 1;
        }
    }
}

/// Traverses the whole graph breadth-first from every yet-unvisited node in
/// turn, over the library's array-backed queue; every node ends up marked.
pub fn bfs(graph: &Graph) -> (r: Vec<bool>)
    requires
        graph.well_formed(),
    ensures
        r@.len() == graph.n(),
        forall|j: int| 0 <= j < r@.len() ==> #[trigger] r@[j],
{
    let n = graph.edges.len();
    let mut visited: Vec<bool> = Vec::new();
    let mut i: usize = 0;
    while i < n
        invariant
            i <= n,
            visited@.len() == i,
        decreases n - i,
    {
        visited.push(false);
        i = i + 1;
    }
    let mut i: usize = 0;
    while i < n
        invariant
            graph.well_formed(),
            n == graph.n(),
            i <= n,
            visited@.len() == n,
            forall|j: int| 0 <= j < i ==> #[trigger] visited@[j],
        decreases n - i,
    {
        if !visited[i] {
            bfs_from(graph, &mut visited, i);
        }
        i = i + 1;
    }
    visited
}

/// A handle on the outside crate's array-backed queue of node identities.
/// Verus cannot take the outside type's declaration here, so the value is
/// held behind an opaque field and spoken of only through
/// `queue_contents`.
#[verifier::external_body]
pub struct ArrayQueue {
    inner: queues::Queue<usize>,
}

/// What the outside queue holds, oldest first.
pub uninterp spec fn queue_contents(q: &ArrayQueue) -> Seq<usize>;

/// Relies on queues::Queue::new: the fresh queue holds nothing.
#[verifier::external_body]
fn array_queue_new() -> (q: ArrayQueue)
    ensures
        queue_contents(&q) == Seq::<usize>::empty(),
{
    ArrayQueue { inner: queues::Queue::new() }
}

/// Relies on queues::Queue::add: appends the value at the back and always
/// returns Ok(None).
#[verifier::external_body]
fn array_queue_add(q: &mut ArrayQueue, v: usize)
    ensures
        queue_contents(final(q)) == queue_contents(old(q)).push(v),
{
    let _ = q.inner.add(v);
}

/// Relies on queues::Queue::remove: pops and returns the oldest value, and
/// errs exactly on an empty queue.
#[verifier::external_body]
fn array_queue_remove(q: &mut ArrayQueue) -> (r: Option<usize>)
    ensures
        queue_contents(old(q)).len() == 0 ==> r is None && queue_contents(final(q))
            == queue_contents(old(q)),
        queue_contents(old(q)).len() > 0 ==> r == Some(queue_contents(old(q))[0])
            && queue_contents(final(q)) == queue_contents(old(q)).drop_first(),
{
    match q.inner.remove() {
        Ok(v) => Some(v),
        Err(_) => None,
    }
}

/// Relies on queues::Queue::size: the number of stored values.
#[verifier::external_body]
fn array_queue_size(q: &ArrayQueue) -> (r: usize)
    ensures
        r == queue_contents(q).len(),
{
    q.inner.size()
}

/// The traversal from one start node over the outside array-backed queue.
#[verifier::loop_isolation(false)]
fn bfs_from_array_queue(graph: &Graph, visited: &mut Vec<bool>, n: usize)
    requires
        graph.well_formed(),
        old(visited)@.len() == graph.n(),
        n < graph.n(),
        !old(visited)@[n as int],
    ensures
        final(visited)@.len() == old(visited)@.len(),
        forall|j: int|
            0 <= j < old(visited)@.len() && old(visited)@[j] ==> #[trigger] final(visited)@[j],
        final(visited)@[n as int],
{
    let mut q = array_queue_new();
    array_queue_add(&mut q, n);
    proof {
        lemma_count_false_update(visited@, n as int);
    }
    visited.set(n, true);
    while array_queue_size(&q) > 0
        invariant
            graph.well_formed(),
            n < graph.n(),
            visited@.len() == graph.n(),
            forall|x: int|
                0 <= x < queue_contents(&q).len() ==> #[trigger] queue_contents(&q)[x] < graph.n(),
            forall|j: int|
                0 <= j < old(visited)@.len() && old(visited)@[j] ==> #[trigger] visited@[j],
            visited@[n as int],
        decreases queue_contents(&q).len() + count_false(visited@),
    {
        let ghost m0 = queue_contents(&q).len() + count_false(visited@);
        let node = match array_queue_remove(&mut q) {
            Some(v) => v,
            None => vstd::pervasive::unreached(),
        };
        let edges_len = graph.edges[node].len();
        let mut k: usize = 0;
        while k < edges_len
            invariant
                graph.well_formed(),
                n < graph.n(),
                node < graph.n(),
                edges_len == graph.edges@[node as int]@.len(),
                k <= edges_len,
                visited@.len() == graph.n(),
                forall|x: int|
                    0 <= x < queue_contents(&q).len() ==> #[trigger] queue_contents(&q)[x]
                        < graph.n(),
                forall|j: int|
                    0 <= j < old(visited)@.len() && old(visited)@[j] ==> #[trigger] visited@[j],
                visited@[n as int],
                queue_contents(&q).len() + count_false(visited@) <= m0 - 1,
            decreases edges_len - k,
        {
            let neighbour = graph.edges[node][k];
            if !visited[neighbour] {
                array_queue_add(&mut q, neighbour);
                proof {
                    lemma_count_false_update(visited@, neighbour as int);
                }
                visited.set(neighbour, true);
            }
            k = k + 1;
        }
    }
}

/// Traverses the whole graph breadth-first from every yet-unvisited node in
/// turn, over the outside crate's array-backed queue; every node ends up
/// marked.
pub fn bfs_with_array_queue(graph: &Graph) -> (r: Vec<bool>)
    requires
        graph.well_formed(),
    ensures
        r@.len() == graph.n(),
        forall|j: int| 0 <= j < r@.len() ==> #[trigger] r@[j],
{
    let n = graph.edges.len();
    let mut visited: Vec<bool> = Vec::new();
    let mut i: usize = 0;
    while i < n
        invariant
            i <= n,
            visited@.len() == i,
        decreases n - i,
    {
        visited.push(false);
        i = i + 1;
    }
    let mut i: usize = 0;
    while i < n
        invariant
            graph.well_formed(),
            n == graph.n(),
            i <= n,
            visited@.len() == n,
            forall|j: int| 0 <= j < i ==> #[trigger] visited@[j],
        decreases n - i,
    {
        if !visited[i] {
            bfs_from_array_queue(graph, &mut visited, i);
        }
        i = i + 1;
    }
    visited
}

} // verus!
