use f_graph::names::NameTable;
use f_graph::package::{Package, PackageJson, PackagePath};

#[test]
fn test_package_creation() {
    let package = Package::new(
        "test-pkg".to_string(),
        Some("1.0.0".to_string()),
        PackagePath::new(3, "/path/to/pkg".to_string()),
        vec!["dep1".to_string(), "dep2".to_string()],
    );

    assert_eq!(package.name, "test-pkg");
    assert_eq!(package.version, Some("1.0.0".to_string()));
    assert_eq!(package.path, PackagePath::new(3, "/path/to/pkg".to_string()));
    assert_eq!(package.dependencies, vec!["dep1", "dep2"]);
}

#[test]
fn a_copy_of_a_package_is_equal_to_it() {
    let package = Package::new(
        "p".to_string(),
        None,
        PackagePath::new(1, "/p".to_string()),
        vec!["x".to_string(), "y".to_string(), "x".to_string()],
    );
    let copy = package.clone();
    assert_eq!(copy.name, package.name);
    assert_eq!(copy.version, None);
    assert_eq!(copy.path, package.path);
    assert_eq!(copy.dependencies, package.dependencies);
}

#[test]
fn a_table_keeps_one_value_for_each_name() {
    let mut table: NameTable<u32> = NameTable::new();
    assert!(table.is_empty());
    assert_eq!(table.get("a"), None);
    table.insert("a".to_string(), 1);
    table.insert("b".to_string(), 2);
    table.insert("a".to_string(), 3);
    assert_eq!(table.len(), 2);
    assert!(!table.is_empty());
    assert_eq!(table.get("a"), Some(&3));
    assert_eq!(table.get("b"), Some(&2));
    assert_eq!(table.get("c"), None);
    assert!(table.contains_key("b"));
    assert!(!table.contains_key(""));
    assert_eq!(table.entry(0), (&"a".to_string(), &3));
    assert_eq!(table.entry(1), (&"b".to_string(), &2));
}

#[test]
fn a_copy_of_a_manifest_holds_the_same() {
    let mut table = NameTable::new();
    table.insert("lodash".to_string(), "^4.17.21".to_string());
    table.insert("express".to_string(), "^4.18.0".to_string());
    let package_json = PackageJson {
        name: "p".to_string(),
        version: Some("2.0.0".to_string()),
        dependencies: Some(table),
        dev_dependencies: None,
        optional_dependencies: None,
        peer_dependencies: Some(NameTable::new()),
    };
    let copy = package_json.clone();
    assert_eq!(copy.name, "p");
    assert_eq!(copy.version, Some("2.0.0".to_string()));
    let dependencies = copy.dependencies.unwrap();
    assert_eq!(dependencies.len(), 2);
    assert_eq!(dependencies.get("lodash"), Some(&"^4.17.21".to_string()));
    assert_eq!(dependencies.entry(1).0, "express");
    assert!(copy.dev_dependencies.is_none());
    assert!(copy.optional_dependencies.is_none());
    assert!(copy.peer_dependencies.unwrap().is_empty());
}
