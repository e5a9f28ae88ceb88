use f_graph::dependency::{
    is_external_package, DependencyType, TypedDependency, WalkTask,
};
use f_graph::names::NameTable;
use f_graph::package::{PackageJson, PackagePath};
use f_graph::scheduler::{failure_message, Progress};
use f_graph::walker::{default_concurrency, PackageWalker, SharedState, UnresolvedDependency};
use f_graph::GraphNode;

fn path(id: u64, text: &str) -> PackagePath {
    PackagePath::new(id, text.to_string())
}

fn dependency(name: &str, dep_type: DependencyType) -> TypedDependency {
    TypedDependency { name: name.to_string(), dep_type }
}

fn manifest(name: &str, dependencies: &[&str], optional: &[&str]) -> PackageJson {
    let table = |names: &[&str]| {
        let mut table = NameTable::new();
        for name in names {
            table.insert(name.to_string(), "*".to_string());
        }
        Some(table)
    };
    PackageJson {
        name: name.to_string(),
        version: Some("1.2.3".to_string()),
        dependencies: table(dependencies),
        dev_dependencies: None,
        optional_dependencies: table(optional),
        peer_dependencies: None,
    }
}

#[test]
fn lib_test_is_external_package() {
    // Local packages (should return false)
    assert!(!is_external_package(&path(1, "/home/user/my-project")));
    assert!(!is_external_package(&path(2, "/workspace/local-package")));

    // External packages (should return true)
    assert!(is_external_package(&path(3, "/project/node_modules/lodash")));
    assert!(is_external_package(&path(
        4,
        "/workspace/node_modules/@types/node"
    )));
    assert!(is_external_package(&path(
        5,
        "/home/.pnpm/store/node_modules/react"
    )));
}

#[test]
fn test_package_walker_creation() {
    let walker = PackageWalker::new(path(0, "/tmp/walk"));
    assert!(walker.get_discovered_packages().is_empty());
    // Test that default concurrency is at least 8 (adaptive based on CPU cores)
    assert!(
        walker.concurrency() >= 8,
        "Default concurrency should be at least 8, got: {}",
        walker.concurrency()
    );
    assert_eq!(walker.concurrency(), num_cpus::get().max(8));
}

#[test]
fn test_package_walker_with_custom_concurrency() {
    let walker = PackageWalker::with_concurrency(path(0, "/tmp/walk"), 8);
    assert!(walker.get_discovered_packages().is_empty());
    assert_eq!(walker.concurrency(), 8);
}

#[test]
fn concurrency_has_a_minimum() {
    assert_eq!(PackageWalker::with_concurrency(path(0, "/"), 0).concurrency(), 2);
    assert_eq!(PackageWalker::with_concurrency(path(0, "/"), 1).concurrency(), 2);
    assert_eq!(PackageWalker::with_concurrency(path(0, "/"), 3).concurrency(), 3);
    assert_eq!(default_concurrency(1), 8);
    assert_eq!(default_concurrency(8), 8);
    assert_eq!(default_concurrency(64), 64);
}

#[test]
fn test_dev_dependency_failure() {
    let mut state = SharedState::new();
    let missing = dependency("nonexistent-dev-package", DependencyType::Dev);

    let result = state.finish_resolve(&missing, &path(0, "/p"), None);

    assert!(
        result.is_err(),
        "Dev dependency resolution should fail when dependency is missing"
    );
    let error_msg = result.err().unwrap().message();
    assert!(error_msg.contains("Failed to resolve required dev dependency"));
    assert!(error_msg.contains("nonexistent-dev-package"));
}

#[test]
fn test_runtime_dependency_failure() {
    let mut state = SharedState::new();
    let missing = dependency("nonexistent-runtime-package", DependencyType::Runtime);

    let result = state.finish_resolve(&missing, &path(0, "/p"), None);

    assert!(
        result.is_err(),
        "Runtime dependency resolution should fail when dependency is missing"
    );
    let error_msg = result.err().unwrap().message();
    assert!(error_msg.contains("Failed to resolve required runtime dependency"));
    assert!(error_msg.contains("nonexistent-runtime-package"));
    assert_eq!(
        error_msg,
        "Failed to resolve required runtime dependency 'nonexistent-runtime-package' from package at /p"
    );
}

#[test]
fn test_optional_dependency_success() {
    let mut state = SharedState::new();
    let missing = dependency("nonexistent-optional-package", DependencyType::Optional);

    let result = state.finish_resolve(&missing, &path(0, "/p"), None);

    assert!(
        result.is_ok(),
        "Optional dependency resolution should succeed even when dependency is missing"
    );
    let child_tasks = result.unwrap();
    assert!(
        child_tasks.is_empty(),
        "Optional dependency should return no child tasks when missing"
    );
}

#[test]
fn test_peer_dependency_success() {
    let mut state = SharedState::new();
    let missing = dependency("nonexistent-peer-package", DependencyType::Peer);

    let result = state.finish_resolve(&missing, &path(0, "/p"), None);

    assert!(
        result.is_ok(),
        "Peer dependency resolution should succeed even when dependency is missing"
    );
    let child_tasks = result.unwrap();
    assert!(
        child_tasks.is_empty(),
        "Peer dependency should return no child tasks when missing"
    );
}

#[test]
fn message_names_every_kind() {
    for (dep_type, word) in [
        (DependencyType::Runtime, "runtime"),
        (DependencyType::Dev, "dev"),
        (DependencyType::Optional, "optional"),
        (DependencyType::Peer, "peer"),
    ] {
        let error = UnresolvedDependency {
            dependency: dependency("d", dep_type),
            parent_path: path(0, "/q"),
        };
        assert_eq!(
            error.message(),
            format!("Failed to resolve required {word} dependency 'd' from package at /q")
        );
    }
}

#[test]
fn a_path_is_claimed_once() {
    let mut state = SharedState::new();
    assert!(state.claim(7));
    assert!(!state.claim(7));
    assert!(state.claim(8));
    assert!(state.processing.contains(&7));

    state.finish_get_info(&path(7, "/seven"), 7, &manifest("seven", &[], &[]));
    assert!(!state.processing.contains(&7));
    assert!(state.discovered_paths.contains(&7));
    assert!(!state.claim(7));
}

#[test]
fn a_found_dependency_is_read_unless_it_was_taken() {
    let mut state = SharedState::new();
    let dep = dependency("lib", DependencyType::Runtime);
    let first = state
        .finish_resolve(&dep, &path(0, "/p"), Some((path(5, "/p/node_modules/lib"), 5)))
        .unwrap();
    assert_eq!(first.len(), 1);
    match &first[0].action {
        WalkTask::GetInfo(found) => assert_eq!(found, &path(5, "/p/node_modules/lib")),
        WalkTask::Resolve(..) => panic!("a package is read first"),
    }
    let second = state
        .finish_resolve(&dep, &path(1, "/q"), Some((path(6, "/q/node_modules/lib"), 5)))
        .unwrap();
    assert!(second.is_empty());
}

#[test]
fn a_package_is_recorded_with_its_dependencies() {
    let mut walker = PackageWalker::with_concurrency(path(0, "/p"), 2);
    let steps = walker
        .state
        .finish_get_info(&path(0, "/p"), 0, &manifest("app", &["a", "b"], &["c"]));
    assert_eq!(steps.len(), 3);

    let packages = walker.get_discovered_packages();
    assert_eq!(packages.len(), 1);
    let package = packages.get("app").unwrap();
    assert_eq!(package.name, "app");
    assert_eq!(package.version, Some("1.2.3".to_string()));
    assert_eq!(package.path, path(0, "/p"));
    assert_eq!(package.dependencies, vec!["a", "b", "c"]);

    // The same place under another path is not read again.
    let again = walker
        .state
        .finish_get_info(&path(9, "/other"), 0, &manifest("other", &["x"], &[]));
    assert!(again.is_empty());
    assert_eq!(walker.get_discovered_packages().len(), 1);
    assert!(!walker.get_discovered_packages().contains_key("other"));
}

#[test]
fn package_names_in_a_store_come_from_the_path() {
    let name = |actual: &str, text: &str| PackageWalker::determine_package_name(actual, &path(0, text));
    assert_eq!(name("real", "/w/packages/app"), "real");
    assert_eq!(name("real", "/w/node_modules/alias"), "real");
    assert_eq!(name("real", "/w/.store/real@1.0/node_modules/alias"), "alias");
    assert_eq!(
        name("real", "/w/.store/real@1.0/node_modules/@scope/alias"),
        "@scope/alias"
    );
    assert_eq!(
        name("real", "/w/node_modules/x/.store/y/node_modules/p/node_modules/q"),
        "p/node_modules/q"
    );
    assert_eq!(name("real", "/w/.store/real@1.0"), "real");
    assert_eq!(name("real", "/ü/.store/é/node_modules/ñandú"), "ñandú");
}

/// The packages of a small file system: path, name, and for each dependency the path it leads to.
struct Tree {
    development: bool,
    packages: Vec<(&'static str, &'static str, Vec<(&'static str, Option<&'static str>)>)>,
}

impl Tree {
    fn number(&self, text: &str) -> u64 {
        self.packages.iter().position(|p| p.0 == text).unwrap() as u64
    }

    fn execute(&self, walker: &mut PackageWalker, task: &WalkTask) -> Result<Vec<GraphNode<WalkTask>>, String> {
        match task {
            WalkTask::GetInfo(place) => {
                let (_, name, dependencies) = &self.packages[place.id as usize];
                let names: Vec<&str> = dependencies.iter().map(|d| d.0).collect();
                let mut package_json = manifest(name, &names, &[]);
                if self.development {
                    package_json.dev_dependencies = package_json.dependencies.take();
                }
                Ok(walker
                    .state
                    .finish_get_info(place, place.id, &package_json))
            }
            WalkTask::Resolve(dependency, parent) => {
                let (_, _, dependencies) = &self.packages[parent.id as usize];
                let target = dependencies.iter().find(|d| d.0 == dependency.name).unwrap().1;
                let resolved = target.map(|t| (path(self.number(t), t), self.number(t)));
                walker
                    .state
                    .finish_resolve(dependency, parent, resolved)
                    .map_err(|e| e.message())
            }
        }
    }

    /// Runs the walker. Each task takes its step as soon as it starts; the graph is told of the
    /// steps in that order, or in the opposite one.
    fn run(&self, walker: &mut PackageWalker, latest_first: bool) -> Result<usize, String> {
        let mut graph = walker.start();
        let mut replies: Vec<(usize, Vec<GraphNode<WalkTask>>)> = Vec::new();
        let mut taken = 0;
        let mut round = graph.begin();
        loop {
            for id in round.started {
                let step = &graph.get(id).unwrap().action;
                let children = self
                    .execute(walker, step)
                    .map_err(|error| format!("{}: {error}", failure_message(id)))?;
                taken += 1;
                replies.push((id, children));
            }
            assert!(replies.len() <= 3);
            match round.progress {
                Progress::Done => return Ok(taken),
                Progress::Deadlocked(deadlock) => panic!("{}", deadlock.message()),
                Progress::Wait => {}
            }
            let next = if latest_first { replies.len() - 1 } else { 0 };
            let (finished, children) = replies.remove(next);
            let (next_round, refused) = graph.advance(finished, children);
            assert!(refused.is_empty());
            round = next_round;
        }
    }

    fn walker(&self) -> PackageWalker {
        PackageWalker::with_concurrency(path(0, self.packages[0].0), 3)
    }
}

fn small_tree() -> Tree {
    Tree {
        development: false,
        packages: vec![
            ("/app", "app", vec![("a", Some("/app/node_modules/a")), ("b", Some("/app/node_modules/b"))]),
            ("/app/node_modules/a", "a", vec![("b", Some("/app/node_modules/b"))]),
            ("/app/node_modules/b", "b", vec![("a", Some("/app/node_modules/a")), ("c", Some("/app/node_modules/c"))]),
            ("/app/node_modules/c", "c", vec![("app", Some("/app"))]),
            ("/app/node_modules/unused", "unused", vec![]),
        ],
    }
}

#[test]
fn a_walk_discovers_everything_that_is_reachable() {
    for latest_first in [false, true] {
        let tree = small_tree();
        let mut walker = tree.walker();
        // Four packages are read, each once, and six dependencies resolved.
        assert_eq!(tree.run(&mut walker, latest_first), Ok(10));
        let packages = walker.get_discovered_packages();
        assert_eq!(packages.len(), 4);
        for name in ["app", "a", "b", "c"] {
            assert!(packages.contains_key(name));
            assert_eq!(packages.get(name).unwrap().name, name);
        }
        assert!(!packages.contains_key("unused"));
        assert!(walker.state.processing.is_empty());
        assert_eq!(walker.state.discovered_paths.len(), 4);
    }
}

#[test]
fn a_second_walk_finds_nothing_new() {
    let tree = small_tree();
    let mut walker = tree.walker();
    tree.run(&mut walker, false).unwrap();
    let first = walker.get_discovered_packages();
    assert_eq!(tree.run(&mut walker, false), Ok(1));
    let second = walker.get_discovered_packages();
    assert_eq!(first.len(), second.len());
    for i in 0..first.len() {
        let (name, package) = first.entry(i);
        let again = second.get(name).unwrap();
        assert_eq!(again.path, package.path);
        assert_eq!(again.dependencies, package.dependencies);
    }
    assert!(walker.state.processing.is_empty());
}

#[test]
fn test_walker_fails_on_missing_dev_dependency() {
    let tree = Tree {
        development: true,
        packages: vec![("/app", "test-package", vec![("nonexistent-dev-package", None)])],
    };
    let error_msg = tree.run(&mut tree.walker(), false).unwrap_err();
    assert_eq!(
        error_msg,
        "task 1 failed: Failed to resolve required dev dependency \
         'nonexistent-dev-package' from package at /app"
    );
}
