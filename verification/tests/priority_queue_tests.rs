use tsp::priority_queue::MinHeap;
use tsp::shortest_paths::NodeInfo;

fn el(priority: i64, id: usize) -> NodeInfo {
    NodeInfo { distance: priority, id }
}

#[test]
fn test_priority_queue() {
    let mut p: MinHeap<NodeInfo> = MinHeap::new();
    p.insert(el(5, 3));
    p.insert(el(3, 4));
    p.insert(el(4, 5));
    p.insert(el(1, 6));

    assert_eq!(p.get_min().distance, 1);
    p.change_priority(6, -4);
    assert_eq!(p.get_min().distance, -4);
    assert_eq!(p.get_min().id, 6);
    p.change_priority(6, 10);
    assert_eq!(p.get_min().distance, 3);
    assert_eq!(p.get_min().id, 4);
    p.extract_min();
    p.change_priority(5, -5);
    assert_eq!(p.get_min().distance, -5);
    assert_eq!(p.get_min().id, 5);
}

#[test]
fn test_priority_queue2() {
    let mut p: MinHeap<NodeInfo> = MinHeap::new();
    p.insert(el(10, 0));
    p.insert(el(20, 1));
    assert_eq!(p.get_min().distance, 10);
    p.extract_min();
    assert_eq!(p.get_min().distance, 20);
    p.insert(el(30, 2));
    p.change_priority(2, 0);
    assert_eq!(p.get_min().distance, 0);
    assert_eq!(p.get_min().id, 2);
}

#[test]
fn test_priority_queue3() {
    let mut p: MinHeap<NodeInfo> = MinHeap::new();
    p.insert(el(10, 0));
    p.insert(el(20, 1));
    p.extract_min();
    p.extract_min();
}

// After an arbitrary mix of inserts, extractions and priority changes in
// both directions, extract_min always hands out the globally minimum
// remaining priority.
#[test]
fn heap_mixed_operations_extract_in_order() {
    let mut p: MinHeap<NodeInfo> = MinHeap::new();
    for (pr, id) in [(50, 0), (40, 1), (30, 2), (20, 3), (10, 4), (60, 5), (70, 6)] {
        p.insert(el(pr, id));
    }
    p.change_priority(0, 5);
    p.change_priority(4, 100);
    p.change_priority(6, 35);
    assert_eq!(p.extract_min().id, 0);
    assert_eq!(p.extract_min().distance, 20);
    assert_eq!(p.extract_min().distance, 30);
    assert_eq!(p.extract_min().distance, 35);
    assert_eq!(p.extract_min().distance, 40);
    assert_eq!(p.extract_min().distance, 60);
    assert_eq!(p.extract_min().distance, 100);
    assert!(p.is_empty());
}
