use tsp::ds::{MinHeap, Queue};

#[test]
fn test_enqueue() {
    let mut q = Queue::new();
    q.enqueue(4);
    q.enqueue(5);
    q.enqueue(6);
    q.enqueue(9);
    assert_eq!(q.peek().unwrap(), 4);
}

#[test]
fn test_dequeue() {
    let mut q = Queue::new();
    q.enqueue(4);
    q.enqueue(5);
    q.enqueue(6);
    q.enqueue(9);
    assert_eq!(q.dequeue().unwrap(), 4);
    assert_eq!(q.dequeue().unwrap(), 5);
    assert_eq!(q.dequeue().unwrap(), 6);
    assert_eq!(q.dequeue().unwrap(), 9);
    assert_eq!(q.dequeue(), None);
    assert_eq!(q.empty(), true);
    q.enqueue(5);
    assert_eq!(q.dequeue().unwrap(), 5);
    assert_eq!(q.dequeue(), None);
    q.enqueue(7);
    q.enqueue(8);
    assert_eq!(q.dequeue().unwrap(), 7);
    assert_eq!(q.dequeue().unwrap(), 8);
    assert_eq!(q.dequeue(), None);
}

#[test]
fn test_insert_priority_queue() {
    let mut p = MinHeap::new();
    p.insert(5);
    assert_eq!(p.get_min(), 5);
    p.insert(9);
    assert_eq!(p.get_min(), 5);
    p.insert(3);
    assert_eq!(p.get_min(), 3);
    p.insert(98);
    assert_eq!(p.get_min(), 3);
    p.insert(1);
    assert_eq!(p.get_min(), 1);
}

#[test]
fn test_extract_min_priority_queue() {
    let mut p = MinHeap::new();
    p.insert(5);
    p.insert(9);
    p.insert(3);
    p.insert(98);
    p.insert(1);
    assert_eq!(p.extract_min(), 1);
    assert_eq!(p.extract_min(), 3);
    assert_eq!(p.extract_min(), 5);
    assert_eq!(p.extract_min(), 9);
    assert_eq!(p.extract_min(), 98);
}

#[test]
fn test_change_priority_priority_queue() {
    let mut p = MinHeap::new();
    p.insert(5);
    p.insert(9);
    p.insert(3);
    p.insert(98);
    p.insert(1);
    p.change_priority(0, 100);
    assert_eq!(p.extract_min(), 3);
    assert_eq!(p.extract_min(), 5);
}
