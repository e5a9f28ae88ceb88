use f_graph::heap_node::HeapNode;
use f_graph::task_queue::TaskQueue;
use std::cmp::Ordering;

#[test]
fn test_ordering() {
    // Higher priority wins
    assert!(HeapNode::new(20, 5) > HeapNode::new(10, 3));

    // For same priority, lower index wins (deterministic)
    assert!(HeapNode::new(10, 3) > HeapNode::new(10, 7));

    // Priority takes precedence over index
    assert!(HeapNode::new(20, 100) > HeapNode::new(10, 1));
}

#[test]
fn test_deterministic_same_priority() {
    let mut heap = TaskQueue::new();

    // Add nodes with same priority in random order
    for i in [5, 1, 8, 3, 2] {
        heap.push(HeapNode::new(42, i));
    }

    // Should pop in ascending index order
    let mut indices = Vec::new();
    while let Some(node) = heap.pop() {
        indices.push(node.index);
    }
    assert_eq!(indices, vec![1, 2, 3, 5, 8]);
}

#[test]
fn test_edge_cases() {
    // Test extreme values
    assert!(HeapNode::new(i32::MAX, 0) > HeapNode::new(i32::MIN, 0));
    assert!(HeapNode::new(0, 0) > HeapNode::new(0, usize::MAX));
}

#[test]
fn order_agrees_with_cmp() {
    assert_eq!(HeapNode::new(1, 4).cmp(&HeapNode::new(1, 4)), Ordering::Equal);
    assert_eq!(HeapNode::new(1, 4).cmp(&HeapNode::new(1, 5)), Ordering::Greater);
    assert_eq!(HeapNode::new(1, 4).cmp(&HeapNode::new(2, 5)), Ordering::Less);
    assert_eq!(
        HeapNode::new(-3, 9).partial_cmp(&HeapNode::new(-3, 8)),
        Some(Ordering::Less)
    );
    assert!(HeapNode::new(7, 7) == HeapNode::new(7, 7));
}

#[test]
fn queue_pops_by_priority_first() {
    let mut queue = TaskQueue::new();
    assert!(queue.is_empty());
    assert_eq!(queue.pop(), None);
    for (priority, index) in [(1, 0), (5, 9), (3, 2), (5, 4), (-2, 1), (3, 2)] {
        queue.push(HeapNode::new(priority, index));
    }
    assert_eq!(queue.len(), 6);
    let mut popped = Vec::new();
    while let Some(node) = queue.pop() {
        popped.push((node.priority, node.index));
    }
    assert_eq!(popped, vec![(5, 4), (5, 9), (3, 2), (3, 2), (1, 0), (-2, 1)]);
    assert_eq!(queue.len(), 0);
}

#[test]
fn queue_of_hashes_breaks_ties_by_smaller_hash() {
    let mut queue: TaskQueue<u64> = TaskQueue::new();
    for index in [u64::MAX, 17, 0, 900] {
        queue.push(HeapNode { priority: 1, index });
    }
    let mut popped = Vec::new();
    while let Some(node) = queue.pop() {
        popped.push(node.index);
    }
    assert_eq!(popped, vec![0, 17, 900, u64::MAX]);
}
