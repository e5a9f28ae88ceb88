use f_graph::deadlock::{diagnose, Deadlock};
use f_graph::GraphNode;
use std::collections::{HashMap, HashSet};

/// Tasks with the given dependencies, numbered from zero, and who depends on each.
fn graph(dependencies: &[&[usize]]) -> (HashMap<usize, GraphNode<()>>, HashMap<usize, Vec<usize>>) {
    let mut nodes = HashMap::new();
    let mut dependents: HashMap<usize, Vec<usize>> = HashMap::new();
    for (id, list) in dependencies.iter().enumerate() {
        nodes.insert(id, GraphNode::new(1, list.to_vec(), ()));
        dependents.entry(id).or_default();
        for dependency in list.iter() {
            dependents.entry(*dependency).or_default().push(id);
        }
    }
    (nodes, dependents)
}

fn explain(dependencies: &[&[usize]], waiting: &[usize], completed: &[usize]) -> Deadlock<usize> {
    let (nodes, dependents) = graph(dependencies);
    let waiting: HashSet<usize> = waiting.iter().copied().collect();
    let completed: HashSet<usize> = completed.iter().copied().collect();
    diagnose(&nodes, &dependents, &waiting, &completed)
}

#[test]
fn a_dependency_that_nobody_completes_is_missing() {
    let deadlock = explain(&[&[], &[0, 9], &[1]], &[1, 2], &[0]);
    assert_eq!(
        deadlock.message(),
        "Deadlock: unsatisfied/missing dependencies: 1 -> missing [9]"
    );
}

#[test]
fn several_missing_dependencies_are_all_listed() {
    match explain(&[&[8, 9, 8], &[7]], &[0, 1], &[]) {
        Deadlock::Missing(mut list) => {
            list.sort();
            assert_eq!(list, vec![(0, vec![8, 9, 8]), (1, vec![7])]);
            assert_eq!(
                Deadlock::Missing(list).message(),
                "Deadlock: unsatisfied/missing dependencies: \
                 0 -> missing [8, 9, 8]; 1 -> missing [7]"
            );
        }
        _ => panic!("dependencies are missing"),
    }
}

#[test]
fn a_waiting_task_that_is_not_known_is_listed_without_dependencies() {
    let deadlock = explain(&[&[]], &[5], &[]);
    assert_eq!(
        deadlock.message(),
        "Deadlock: unsatisfied/missing dependencies: 5 -> missing []"
    );
}

#[test]
fn a_cycle_is_found() {
    match explain(&[&[1], &[2], &[0]], &[0, 1, 2], &[]) {
        Deadlock::Cycle(mut ids) => {
            ids.sort();
            assert_eq!(ids, vec![0, 1, 2]);
            assert_eq!(
                Deadlock::Cycle(ids).message(),
                "Deadlock: dependency cycle detected among tasks: [0, 1, 2]"
            );
        }
        _ => panic!("there is a cycle"),
    }
}

#[test]
fn what_depends_on_a_cycle_is_held_up_too() {
    // 0 and 1 need each other, 2 needs 1, and 3 needs nobody that waits.
    match explain(&[&[1], &[0], &[1], &[4], &[]], &[0, 1, 2, 3], &[4]) {
        Deadlock::Cycle(mut ids) => {
            ids.sort();
            assert_eq!(ids, vec![0, 1, 2]);
        }
        _ => panic!("there is a cycle"),
    }
}

#[test]
fn a_task_can_hold_itself_up() {
    let deadlock = explain(&[&[0, 0]], &[0], &[]);
    assert_eq!(
        deadlock.message(),
        "Deadlock: dependency cycle detected among tasks: [0]"
    );
}

#[test]
fn without_a_cycle_the_queue_was_not_filled() {
    let deadlock = explain(&[&[], &[0], &[1, 1, 0]], &[1, 2], &[0]);
    assert!(matches!(deadlock, Deadlock::Stalled));
    assert_eq!(
        deadlock.message(),
        "Deadlock: waiting exists but nothing ready/running. Re-queue waiting-ready before diagnosing."
    );
}
