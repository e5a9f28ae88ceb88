use f_graph::dependency::{
    collect_dependencies, create_resolve_task, create_resolve_tasks, is_external_package,
    DependencyConfig, DependencyType, TypedDependency, WalkTask,
};
use f_graph::names::NameTable;
use f_graph::package::{PackageJson, PackagePath};

fn path(text: &str) -> PackagePath {
    PackagePath::new(1, text.to_string())
}

fn table(entries: &[(&str, &str)]) -> NameTable<String> {
    let mut table = NameTable::new();
    for (name, version) in entries {
        table.insert(name.to_string(), version.to_string());
    }
    table
}

fn create_test_package_json() -> PackageJson {
    PackageJson {
        name: "test-package".to_string(),
        version: Some("1.0.0".to_string()),
        dependencies: Some(table(&[("lodash", "^4.17.21"), ("express", "^4.18.0")])),
        dev_dependencies: Some(table(&[("jest", "^29.0.0"), ("typescript", "^4.8.0")])),
        optional_dependencies: Some(table(&[("fsevents", "^2.3.2"), ("chokidar", "^3.5.3")])),
        peer_dependencies: Some(table(&[("react", ">=16.0.0")])),
    }
}

fn names(deps: &[TypedDependency], dep_type: DependencyType) -> Vec<&str> {
    deps.iter()
        .filter(|d| d.dep_type == dep_type)
        .map(|d| d.name.as_str())
        .collect()
}

#[test]
fn test_collect_dependencies_for_local_package() {
    let package_json = create_test_package_json();
    let config = DependencyConfig::for_local_package();
    let package_path = path("/home/user/my-project");

    let deps = collect_dependencies(&package_json, &config, &package_path);

    assert_eq!(deps.len(), 7); // 2 runtime + 2 dev + 2 optional + 1 peer

    // Check runtime dependencies
    let runtime_deps = names(&deps, DependencyType::Runtime);
    assert_eq!(runtime_deps.len(), 2);
    assert!(runtime_deps.contains(&"lodash"));
    assert!(runtime_deps.contains(&"express"));

    // Check dev dependencies
    let dev_deps = names(&deps, DependencyType::Dev);
    assert_eq!(dev_deps.len(), 2);
    assert!(dev_deps.contains(&"jest"));
    assert!(dev_deps.contains(&"typescript"));

    // Check optional dependencies
    let optional_deps = names(&deps, DependencyType::Optional);
    assert_eq!(optional_deps.len(), 2);
    assert!(optional_deps.contains(&"fsevents"));
    assert!(optional_deps.contains(&"chokidar"));

    // Check peer dependencies
    let peer_deps = names(&deps, DependencyType::Peer);
    assert_eq!(peer_deps.len(), 1);
    assert!(peer_deps.contains(&"react"));
}

#[test]
fn test_collect_dependencies_for_external_package() {
    let package_json = create_test_package_json();
    let config = DependencyConfig::for_external_package();
    let package_path = path("/project/node_modules/lodash");

    let deps = collect_dependencies(&package_json, &config, &package_path);

    assert_eq!(deps.len(), 4); // 2 runtime + 2 optional (no dev or peer)

    // Check runtime dependencies
    let runtime_deps = names(&deps, DependencyType::Runtime);
    assert_eq!(runtime_deps.len(), 2);
    assert!(runtime_deps.contains(&"lodash"));
    assert!(runtime_deps.contains(&"express"));

    // Check that optional dependencies are included
    let optional_deps = names(&deps, DependencyType::Optional);
    assert_eq!(optional_deps.len(), 2);
    assert!(optional_deps.contains(&"fsevents"));
    assert!(optional_deps.contains(&"chokidar"));

    // Check that no dev dependencies are included
    let dev_deps = names(&deps, DependencyType::Dev);
    assert_eq!(dev_deps.len(), 0);

    // Check that no peer dependencies are included
    let peer_deps = names(&deps, DependencyType::Peer);
    assert_eq!(peer_deps.len(), 0);
}

#[test]
fn dependency_test_is_external_package() {
    // Local packages (should return false)
    assert!(!is_external_package(&path("/home/user/my-project")));
    assert!(!is_external_package(&path("/workspace/local-package")));

    // External packages (should return true)
    assert!(is_external_package(&path("/project/node_modules/lodash")));
    assert!(is_external_package(&path(
        "/workspace/node_modules/@types/node"
    )));
    assert!(is_external_package(&path(
        "/home/.pnpm/store/node_modules/react"
    )));
}

#[test]
fn a_node_modules_directory_is_not_inside_itself() {
    assert!(!is_external_package(&path("/project/node_modules")));
    assert!(!is_external_package(&path("node_modules/lodash")));
    assert!(!is_external_package(&path("/project/my_node_modules/lodash")));
    assert!(is_external_package(&path("/node_modules/")));
}

#[test]
fn test_dependency_config_defaults() {
    let default_config = DependencyConfig::default();
    assert!(default_config.include_dev_dependencies);
    assert!(default_config.include_optional_dependencies);
    assert!(default_config.include_peer_dependencies);

    let local_config = DependencyConfig::for_local_package();
    assert!(local_config.include_dev_dependencies);
    assert!(local_config.include_optional_dependencies);
    assert!(local_config.include_peer_dependencies);

    let external_config = DependencyConfig::for_external_package();
    assert!(!external_config.include_dev_dependencies);
    assert!(external_config.include_optional_dependencies);
    assert!(!external_config.include_peer_dependencies);
}

#[test]
fn kinds_come_in_order() {
    let deps = collect_dependencies(
        &create_test_package_json(),
        &DependencyConfig::default(),
        &path("/a"),
    );
    let listed: Vec<&str> = deps.iter().map(|d| d.name.as_str()).collect();
    assert_eq!(
        listed,
        vec!["lodash", "express", "jest", "typescript", "fsevents", "chokidar", "react"]
    );
}

#[test]
fn missing_tables_list_nothing() {
    let package_json = PackageJson {
        name: "minimal-package".to_string(),
        version: None,
        dependencies: None,
        dev_dependencies: None,
        optional_dependencies: None,
        peer_dependencies: Some(table(&[("react", "*")])),
    };
    let local = DependencyConfig::for_local_package();
    let external = DependencyConfig::for_external_package();
    let deps = collect_dependencies(&package_json, &local, &path("/a"));
    assert_eq!(deps.len(), 1);
    assert_eq!(deps[0].name, "react");
    assert_eq!(deps[0].dep_type, DependencyType::Peer);
    assert!(collect_dependencies(&package_json, &external, &path("/a")).is_empty());
}

#[test]
fn each_dependency_gets_a_task() {
    let deps = vec![
        TypedDependency { name: "a".to_string(), dep_type: DependencyType::Runtime },
        TypedDependency { name: "b".to_string(), dep_type: DependencyType::Peer },
    ];
    let tasks = create_resolve_tasks(deps, path("/p"));
    assert_eq!(tasks.len(), 2);
    for (task, name) in tasks.iter().zip(["a", "b"]) {
        assert_eq!(task.priority, 1);
        assert!(task.dependencies.is_empty());
        match &task.action {
            WalkTask::Resolve(dependency, parent) => {
                assert_eq!(dependency.name, name);
                assert_eq!(parent, &path("/p"));
            }
            WalkTask::GetInfo(_) => panic!("a dependency is resolved first"),
        }
    }
}

#[test]
fn a_resolve_task_names_its_dependency() {
    let dependency = TypedDependency { name: "left-pad".to_string(), dep_type: DependencyType::Dev };
    let task = create_resolve_task(dependency.clone(), path("/p"));
    match task.action {
        WalkTask::Resolve(found, parent) => {
            assert_eq!(found.name, "left-pad");
            assert_eq!(found.dep_type, DependencyType::Dev);
            assert_eq!(parent.text, "/p");
        }
        WalkTask::GetInfo(_) => panic!("a dependency is resolved first"),
    }
    assert_eq!(dependency.name, "left-pad");
}

#[test]
fn whatever_external_packages_follow_local_ones_follow_too() {
    let package_json = create_test_package_json();
    let local = collect_dependencies(
        &package_json,
        &DependencyConfig::for_local_package(),
        &path("/a"),
    );
    let external = collect_dependencies(
        &package_json,
        &DependencyConfig::for_external_package(),
        &path("/a/node_modules/b"),
    );
    for dependency in external {
        assert!(local
            .iter()
            .any(|d| d.name == dependency.name && d.dep_type == dependency.dep_type));
        assert!(matches!(
            dependency.dep_type,
            DependencyType::Runtime | DependencyType::Optional
        ));
    }
}
