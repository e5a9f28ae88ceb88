use f_graph::hash_graph::{Graph, HashableGraphNode};
use f_graph::hash_runner::TaskRunner;
use f_graph::scheduler::Progress;
use f_graph::task_graph::AddError;
use std::collections::hash_map::DefaultHasher;
use std::hash::{Hash, Hasher};

fn node(hash: u64, dependencies: Vec<u64>) -> HashableGraphNode<()> {
    HashableGraphNode::with_hash(1, dependencies, hash, ())
}

#[test]
fn hash_is_that_of_priority_and_dependencies() {
    for (priority, dependencies) in [(1, vec![]), (2, vec![]), (-7, vec![3u64, 1]), (-7, vec![1, 3])] {
        let mut hasher = DefaultHasher::new();
        let priority: i32 = priority;
        priority.hash(&mut hasher);
        dependencies.hash(&mut hasher);
        let node = HashableGraphNode::new(priority, dependencies.clone(), "anything");
        assert_eq!(node.hash, hasher.finish());
        assert_eq!(node.priority, priority);
        assert_eq!(node.dependencies, dependencies);
        assert_eq!(node.action, "anything");
    }
}

#[test]
fn nodes_are_equal_where_their_hashes_are() {
    assert!(HashableGraphNode::new(1, vec![2], 'a') == HashableGraphNode::new(1, vec![2], 'b'));
    assert!(HashableGraphNode::new(1, vec![2], 'a') != HashableGraphNode::new(2, vec![2], 'a'));
    assert!(node(5, vec![]) == node(5, vec![1]));
}

#[test]
fn hashed_nodes_print_their_hash() {
    assert_eq!(
        HashableGraphNode::with_hash(3, vec![10, 20], 99, ()).debug_text(),
        "HashableGraphNode { priority: 3, dependencies: [10, 20], hash: 99, .. }"
    );
}

#[test]
fn graph_files_nodes_under_their_hashes() {
    let mut graph = Graph::new();
    graph.add_node(node(10, vec![])).unwrap();
    graph.add_node(node(20, vec![10])).unwrap();
    graph.add_node(node(30, vec![10, 20, 10])).unwrap();
    assert_eq!(graph.get_node(20).unwrap().dependencies, vec![10]);
    assert!(graph.get_node(40).is_none());
    assert_eq!(graph.get_dependents(10), Some(&vec![20, 30, 30]));
    assert_eq!(graph.get_dependents(20), Some(&vec![30]));
    assert_eq!(graph.get_dependents(30), Some(&vec![]));
    assert_eq!(graph.get_dependents(40), None);
}

#[test]
fn graph_refuses_duplicates_and_unknown_dependencies() {
    let mut graph = Graph::new();
    graph.add_node(node(10, vec![])).unwrap();
    let duplicate = graph.add_node(node(10, vec![77])).unwrap_err();
    assert!(matches!(duplicate, AddError::AlreadyExists(10)));
    assert_eq!(duplicate.message(), "Node already exists in the graph: 10");
    let unknown = graph.add_node(node(20, vec![10, 77])).unwrap_err();
    assert!(matches!(unknown, AddError::DependencyNotFound));
    assert_eq!(unknown.message(), "Dependency node not found in the graph");
    // A node cannot depend on itself: it is not in the graph yet.
    assert!(graph.add_node(node(30, vec![30])).is_err());
    assert!(graph.get_node(20).is_none());
    assert_eq!(graph.get_dependents(10), Some(&vec![]));
}

#[test]
fn hashed_tasks_run_in_order() {
    let mut runner = TaskRunner::new().with_concurrency(3);
    let t1 = HashableGraphNode::new(1, vec![], "t1");
    let t1_hash = t1.hash;
    let t2 = HashableGraphNode::new(2, vec![t1_hash], "t2");
    let t3 = HashableGraphNode::new(1, vec![t1_hash], "t3");
    let (t2_hash, t3_hash) = (t2.hash, t3.hash);
    runner.add_task(t1).unwrap();
    runner.add_task(t2).unwrap();
    runner.add_task(t3).unwrap();
    assert!(runner.add_task(HashableGraphNode::new(1, vec![], "again")).is_err());

    runner.requeue_waiting_ready();
    assert_eq!(runner.start_ready(), vec![t1_hash]);
    assert!(matches!(runner.check_progress(), Progress::Wait));
    runner.complete(t1_hash);
    assert!(runner.are_dependencies_met(&t3_hash));
    assert_eq!(runner.start_ready(), vec![t2_hash, t3_hash]);
    runner.complete(t2_hash);
    runner.complete(t3_hash);
    assert!(runner.start_ready().is_empty());
    assert!(matches!(runner.check_progress(), Progress::Done));
    assert!(runner.detect_deadlock().is_ok());

    // Tasks that are added later run in a second round, the higher priority first.
    let t4 = HashableGraphNode::new(10, vec![t1_hash], "t4");
    let t5 = HashableGraphNode::new(15, vec![t1_hash], "t5");
    let (t4_hash, t5_hash) = (t4.hash, t5.hash);
    runner.add_task(t4).unwrap();
    runner.add_task(t5).unwrap();
    assert_eq!(runner.start_ready(), vec![t5_hash, t4_hash]);
    assert_eq!(runner.get(t4_hash).unwrap().action, "t4");
    assert!(runner.get(t1_hash.wrapping_add(1)).is_none());
}

#[test]
fn ties_go_to_the_smaller_hash() {
    let mut runner = TaskRunner::new().with_concurrency(9);
    for hash in [500, 3, u64::MAX, 42] {
        runner.add_task(node(hash, vec![])).unwrap();
    }
    runner.add_task(HashableGraphNode::with_hash(2, vec![], 7, ())).unwrap();
    assert_eq!(runner.start_ready(), vec![7, 3, 42, 500, u64::MAX]);
}

#[test]
fn hashed_tasks_go_round_by_round() {
    let mut runner = TaskRunner::new();
    runner.add_task(node(5, vec![])).unwrap();
    runner.add_task(node(2, vec![5])).unwrap();
    runner.add_task(node(9, vec![])).unwrap();
    assert_eq!(runner.begin().started, vec![5]);
    assert_eq!(runner.advance(5).started, vec![2]);
    assert_eq!(runner.advance(2).started, vec![9]);
    assert!(matches!(runner.advance(9).progress, Progress::Done));
}
