use f_graph::scheduler::{failure_message, Progress};
use f_graph::task_graph::AddError;
use f_graph::task_runner::TaskRunner;
use f_graph::{FGraph, GraphNode};

/// A task of a test: its name, whether it fails, and the children that it returns.
#[derive(Clone)]
struct Job {
    name: String,
    fails: bool,
    children: Vec<GraphNode<Job>>,
}

fn job(name: &str) -> Job {
    Job { name: name.to_string(), fails: false, children: Vec::new() }
}

fn task(name: &str, dependencies: Vec<usize>) -> GraphNode<Job> {
    GraphNode::new(1, dependencies, job(name))
}

/// Runs all tasks, each time finishing the one that has run longest, and records what happens.
fn run_all(graph: &mut FGraph<Job>, records: &mut Vec<(String, &'static str)>) -> Result<(), String> {
    let mut running: Vec<usize> = Vec::new();
    let mut round = graph.begin();
    loop {
        for id in round.started {
            records.push((graph.get(id).unwrap().action.name.clone(), "start"));
            running.push(id);
        }
        match round.progress {
            Progress::Done => return Ok(()),
            Progress::Deadlocked(deadlock) => return Err(deadlock.message()),
            Progress::Wait => {}
        }
        let finished = running.remove(0);
        let job = graph.get(finished).unwrap().action.clone();
        records.push((job.name, "end"));
        if job.fails {
            return Err(failure_message(finished));
        }
        round = graph.advance(finished, job.children).0;
    }
}

fn has_execution_order(records: &[(String, &str)], first: &str, second: &str) -> bool {
    let end = records.iter().position(|r| r.0 == first && r.1 == "end");
    let start = records.iter().position(|r| r.0 == second && r.1 == "start");
    match (end, start) {
        (Some(end), Some(start)) => end <= start,
        _ => false,
    }
}

fn max_concurrency(records: &[(String, &str)]) -> usize {
    let mut current = 0i32;
    let mut max = 0i32;
    for record in records {
        current += if record.1 == "start" { 1 } else { -1 };
        max = max.max(current);
    }
    max as usize
}

fn started(records: &[(String, &str)]) -> Vec<String> {
    records
        .iter()
        .filter(|r| r.1 == "start")
        .map(|r| r.0.clone())
        .collect()
}

#[test]
fn test_dependency_graph_execution_order() {
    let mut runner = FGraph::new();
    let mut records = Vec::new();
    let shirt_id = runner.add_task(task("putOnShirt", vec![])).unwrap();
    let shorts_id = runner.add_task(task("putOnShorts", vec![])).unwrap();
    let shoes_id = runner.add_task(task("putOnShoes", vec![shorts_id])).unwrap();
    runner.add_task(task("putOnShoes", vec![shorts_id])).unwrap();
    runner.add_task(task("putOnJacket", vec![shirt_id, shorts_id])).unwrap();
    runner.add_task(task("tieShoes", vec![shoes_id])).unwrap();

    run_all(&mut runner, &mut records).unwrap();

    assert!(has_execution_order(&records, "putOnShoes", "tieShoes"));
    assert!(has_execution_order(&records, "putOnShirt", "putOnJacket"));
    assert!(has_execution_order(&records, "putOnShorts", "putOnJacket"));
    assert!(has_execution_order(&records, "putOnShorts", "putOnShoes"));
}

#[test]
fn test_cycle_detection_should_fail() {
    let mut runner = FGraph::new();
    let _a_id = runner.add_task(task("a", vec![])).unwrap();
    let b_id = runner.add_task(task("b", vec![])).unwrap();
    runner.add_task(task("c", vec![b_id])).unwrap();
    let result = run_all(&mut runner, &mut Vec::new());
    assert!(result.is_ok(), "Simple chain should work fine");
}

#[test]
fn test_empty_graph() {
    let mut runner: FGraph<Job> = FGraph::new();
    run_all(&mut runner, &mut Vec::new()).unwrap();
}

#[test]
fn test_task_rejection_stops_execution() {
    let mut runner = FGraph::new();
    runner.add_task(task("a", vec![])).unwrap();
    runner.add_task(task("b", vec![])).unwrap();
    let mut failing = task("c", vec![]);
    failing.action.fails = true;
    runner.add_task(failing).unwrap();

    let result = run_all(&mut runner, &mut Vec::new());
    assert!(result.is_err());
    let error_msg = result.unwrap_err();
    assert!(
        error_msg.contains("failed") || error_msg.contains("Task C failed"),
        "Error should mention task failure: {}",
        error_msg
    );
    assert_eq!(error_msg, "task 2 failed");
}

#[test]
fn test_disconnected_graph_execution() {
    let mut runner = FGraph::new();
    let mut records = Vec::new();
    let a_id = runner.add_task(task("A", vec![])).unwrap();
    runner.add_task(task("C", vec![])).unwrap();
    runner.add_task(task("D", vec![])).unwrap();
    runner.add_task(task("B", vec![a_id])).unwrap();

    run_all(&mut runner, &mut records).unwrap();

    let executed = started(&records);
    for name in ["A", "B", "C", "D"] {
        assert!(executed.contains(&name.to_string()));
    }
    assert!(has_execution_order(&records, "A", "B"));
}

#[test]
fn test_concurrent_execution() {
    let mut runner = FGraph::new().with_concurrency(3);
    let mut records = Vec::new();
    let a_id = runner.add_task(task("A", vec![])).unwrap();
    runner.add_task(task("B", vec![a_id])).unwrap();
    runner.add_task(task("C", vec![a_id])).unwrap();

    run_all(&mut runner, &mut records).unwrap();

    assert!(
        max_concurrency(&records) >= 2,
        "Should have at least 2 concurrent tasks"
    );
    assert_eq!(max_concurrency(&records), 2);
}

#[test]
fn test_concurrency_limit_enforcement() {
    let mut runner = FGraph::new().with_concurrency(2);
    let mut records = Vec::new();
    let a_id = runner.add_task(task("A", vec![])).unwrap();
    for name in ["B", "C", "D", "E"] {
        runner.add_task(task(name, vec![a_id])).unwrap();
    }

    run_all(&mut runner, &mut records).unwrap();

    assert!(
        max_concurrency(&records) <= 2,
        "Should not exceed concurrency limit of 2, got {}",
        max_concurrency(&records)
    );
    assert_eq!(records.len(), 10);
}

#[test]
fn test_priority_scheduling() {
    let mut runner = FGraph::new().with_concurrency(1);
    let mut records = Vec::new();
    let a_id = runner.add_task(task("A", vec![])).unwrap();
    runner
        .add_task(GraphNode::new(1, vec![a_id], job("LowPriority")))
        .unwrap(); // Add low priority first
    runner
        .add_task(GraphNode::new(16, vec![a_id], job("HighPriority")))
        .unwrap(); // Add high priority second

    run_all(&mut runner, &mut records).unwrap();

    assert_eq!(started(&records), vec!["A", "HighPriority", "LowPriority"]);
}

#[test]
fn test_multiple_dependencies() {
    let mut runner = FGraph::new();
    let mut records = Vec::new();
    let a_id = runner.add_task(task("A", vec![])).unwrap();
    let b_id = runner.add_task(task("B", vec![])).unwrap();
    let c_id = runner.add_task(task("C", vec![])).unwrap();
    runner.add_task(task("D", vec![a_id, b_id, c_id])).unwrap();

    run_all(&mut runner, &mut records).unwrap();

    assert!(has_execution_order(&records, "A", "D"));
    assert!(has_execution_order(&records, "B", "D"));
    assert!(has_execution_order(&records, "C", "D"));
}

#[test]
fn unknown_dependencies_are_refused() {
    let mut graph = FGraph::new();
    let error = graph.add_task(task("a", vec![0])).unwrap_err();
    assert!(matches!(error, AddError::DependencyNotFound));
    assert_eq!(error.message(), "Dependency node not found in the graph");
    assert_eq!(graph.add_task(task("a", vec![])).unwrap(), 0);
    assert!(graph.add_task(task("b", vec![0, 1])).is_err());
    assert_eq!(graph.add_task(task("b", vec![0, 0])).unwrap(), 1);
    assert!(graph.get(2).is_none());
}

#[test]
fn tasks_of_the_same_priority_start_in_order_of_their_numbers() {
    let mut graph = FGraph::new().with_concurrency(10);
    for priority in [3, 1, 3, 2, 1] {
        graph
            .add_task(GraphNode::new(priority, vec![], job("t")))
            .unwrap();
    }
    assert_eq!(graph.start_ready(), vec![0, 2, 3, 1, 4]);
    assert!(graph.start_ready().is_empty());
}

#[test]
fn a_limit_of_zero_lets_one_task_run() {
    let mut graph = FGraph::new().with_concurrency(0);
    graph.add_task(task("a", vec![])).unwrap();
    graph.add_task(task("b", vec![])).unwrap();
    assert_eq!(graph.start_ready(), vec![0]);
    assert!(graph.start_ready().is_empty());
    assert!(graph.complete(0, vec![]).is_empty());
    assert_eq!(graph.start_ready(), vec![1]);
}

#[test]
fn dependencies_are_met_once_they_are_completed() {
    let mut graph = FGraph::new();
    graph.add_task(task("a", vec![])).unwrap();
    graph.add_task(task("b", vec![0])).unwrap();
    assert!(graph.are_dependencies_met(&0));
    assert!(!graph.are_dependencies_met(&1));
    assert!(!graph.are_dependencies_met(&2));
    assert_eq!(graph.start_ready(), vec![0]);
    graph.complete(0, vec![]);
    assert!(graph.are_dependencies_met(&1));
}

#[test]
fn children_run_after_their_parent() {
    let mut graph = FGraph::new();
    let mut records = Vec::new();
    let mut parent = task("parent", vec![]);
    parent.action.children = vec![
        GraphNode::new(1, vec![], job("child")),
        GraphNode::new(5, vec![0], job("urgent child")),
        GraphNode::new(9, vec![40], job("orphan")),
    ];
    graph.add_task(parent).unwrap();
    graph.add_task(GraphNode::new(3, vec![0], job("dependent"))).unwrap();

    run_all(&mut graph, &mut records).unwrap();

    assert_eq!(
        started(&records),
        vec!["parent", "urgent child", "dependent", "child"]
    );
    assert_eq!(graph.get(2).unwrap().dependencies, vec![0]);
    assert_eq!(graph.get(3).unwrap().dependencies, vec![0]);
    assert!(graph.get(4).is_none());
}

#[test]
fn refused_children_are_reported() {
    let mut graph = FGraph::new();
    graph.add_task(task("a", vec![])).unwrap();
    assert_eq!(graph.start_ready(), vec![0]);
    let refused = graph.complete(
        0,
        vec![task("x", vec![7]), task("y", vec![]), task("z", vec![1])],
    );
    assert_eq!(refused.len(), 1);
    assert!(matches!(refused[0], AddError::DependencyNotFound));
    assert_eq!(graph.get(1).unwrap().action.name, "y");
    assert_eq!(graph.get(2).unwrap().dependencies, vec![1, 0]);
}

#[test]
fn a_graph_can_run_again() {
    let mut graph = FGraph::default();
    let mut records = Vec::new();
    let t1 = graph.add_task(task("t1", vec![])).unwrap();
    run_all(&mut graph, &mut records).unwrap();
    graph.add_task(GraphNode::new(10, vec![t1], job("t4"))).unwrap();
    graph.add_task(GraphNode::new(15, vec![t1], job("t5"))).unwrap();
    run_all(&mut graph, &mut records).unwrap();
    assert_eq!(started(&records), vec!["t1", "t5", "t4"]);
}

#[test]
fn an_idle_graph_is_not_deadlocked() {
    let mut graph = FGraph::new();
    assert!(graph.detect_deadlock().is_ok());
    graph.add_task(task("a", vec![])).unwrap();
    graph.add_task(task("b", vec![0])).unwrap();
    assert!(graph.detect_deadlock().is_ok());
    assert!(matches!(graph.check_progress(), Progress::Wait));
}

#[test]
fn runner_runs_what_was_added() {
    let mut runner: TaskRunner<&str> = TaskRunner::default().with_concurrency(3);
    let t1 = runner.add_task(GraphNode::new(1, vec![], "t1")).unwrap();
    let t2 = runner.add_task(GraphNode::new(2, vec![t1], "t2")).unwrap();
    let t3 = runner.add_task(GraphNode::new(1, vec![t1], "t3")).unwrap();
    assert!(runner.add_task(GraphNode::new(1, vec![9], "t4")).is_err());
    runner.requeue_waiting_ready();
    assert_eq!(runner.start_ready(), vec![t1]);
    assert!(matches!(runner.check_progress(), Progress::Wait));
    assert!(!runner.are_dependencies_met(&t2));
    runner.complete(t1);
    assert!(runner.are_dependencies_met(&t2));
    assert_eq!(runner.start_ready(), vec![t2, t3]);
    assert_eq!(runner.get(t3).unwrap().action, "t3");
    assert!(runner.detect_deadlock().is_ok());
    runner.complete(t3);
    assert!(matches!(runner.check_progress(), Progress::Wait));
    runner.complete(t2);
    assert!(runner.start_ready().is_empty());
    assert!(matches!(runner.check_progress(), Progress::Done));
}

#[test]
fn nodes_print_without_what_they_execute() {
    assert_eq!(
        GraphNode::new(-12, vec![0, 7, 430], ()).debug_text(),
        "HashableGraphNode { priority: -12, dependencies: [0, 7, 430], .. }"
    );
    assert_eq!(
        GraphNode::new(i32::MIN, vec![], ()).debug_text(),
        "HashableGraphNode { priority: -2147483648, dependencies: [], .. }"
    );
}

#[test]
fn failures_name_their_task() {
    assert_eq!(failure_message(0usize), "task 0 failed");
    assert_eq!(failure_message(u64::MAX), "task 18446744073709551615 failed");
}

#[test]
fn filling_up_is_deterministic() {
    let build = || {
        let mut graph = FGraph::new().with_concurrency(4);
        for priority in [2, 9, 2, 5, 9, 1] {
            graph.add_task(GraphNode::new(priority, vec![], job("t"))).unwrap();
        }
        graph
    };
    assert_eq!(build().start_ready(), vec![1, 4, 3, 0]);
    assert_eq!(build().start_ready(), build().start_ready());
}

#[test]
fn a_run_goes_round_by_round() {
    let mut runner: TaskRunner<()> = TaskRunner::new().with_concurrency(2);
    for dependencies in [vec![], vec![0], vec![], vec![1, 2]] {
        runner.add_task(GraphNode::new(1, dependencies, ())).unwrap();
    }
    let round = runner.begin();
    assert_eq!(round.started, vec![0, 2]);
    assert!(matches!(round.progress, Progress::Wait));
    let round = runner.advance(2);
    assert!(round.started.is_empty());
    assert!(matches!(round.progress, Progress::Wait));
    assert_eq!(runner.advance(0).started, vec![1]);
    assert_eq!(runner.advance(1).started, vec![3]);
    let round = runner.advance(3);
    assert!(round.started.is_empty());
    assert!(matches!(round.progress, Progress::Done));
}

#[test]
fn children_of_a_round_start_in_the_next() {
    let mut graph = FGraph::new();
    graph.add_task(task("a", vec![])).unwrap();
    assert_eq!(graph.begin().started, vec![0]);
    let (round, refused) = graph.advance(0, vec![task("b", vec![]), task("c", vec![5])]);
    assert_eq!(round.started, vec![1]);
    assert!(matches!(round.progress, Progress::Wait));
    assert_eq!(refused.len(), 1);
    assert!(matches!(refused[0], AddError::DependencyNotFound));
    let (round, refused) = graph.advance(1, vec![]);
    assert!(round.started.is_empty() && refused.is_empty());
    assert!(matches!(round.progress, Progress::Done));
}

#[test]
fn every_order_of_completions_runs_each_task_once_after_its_dependencies() {
    let dependencies: [&[usize]; 7] = [&[], &[0], &[0], &[1, 2], &[], &[4], &[3, 5]];
    for seed in 0..20usize {
        let mut runner: TaskRunner<()> = TaskRunner::new().with_concurrency(3);
        for list in dependencies {
            runner.add_task(GraphNode::new(1, list.to_vec(), ())).unwrap();
        }
        let mut running: Vec<usize> = Vec::new();
        let mut started: Vec<usize> = Vec::new();
        let mut finished: Vec<usize> = Vec::new();
        let mut round = runner.begin();
        loop {
            for id in round.started {
                assert!(!started.contains(&id));
                assert!(dependencies[id].iter().all(|d| finished.contains(d)));
                started.push(id);
                running.push(id);
            }
            assert!(running.len() <= 3);
            if matches!(round.progress, Progress::Done) {
                break;
            }
            let next = running.remove((seed * 7 + finished.len() * 3) % running.len());
            finished.push(next);
            round = runner.advance(next);
        }
        assert_eq!(started.len(), 7);
        assert_eq!(finished.len(), 7);

        // A second run starts what was added since, and nothing else.
        runner.add_task(GraphNode::new(1, vec![6], ())).unwrap();
        assert_eq!(runner.begin().started, vec![7]);
    }
}
