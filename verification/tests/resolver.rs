use f_graph::resolver::{
    next_directory, resolve_dependency_path, try_resolve_with_symlinks, Directory,
};
use std::cell::RefCell;
use std::path::{Path, PathBuf};
use tempfile::TempDir;

fn chain(path: &Path) -> Vec<Directory> {
    path.ancestors()
        .map(|directory| Directory {
            text: directory.to_string_lossy().into_owned(),
            name: directory
                .file_name()
                .map(|name| name.to_string_lossy().into_owned()),
        })
        .collect()
}

fn look_up(path: &Path) -> Option<PathBuf> {
    try_resolve_with_symlinks(
        path.to_path_buf(),
        |p: &PathBuf| p.exists(),
        |p: &PathBuf| p.canonicalize().ok(),
        |p: &PathBuf, name: &str| p.join(name).exists(),
    )
}

/// The directories that a search from `path` looks at before it gives up.
fn searched(path: &str) -> Vec<String> {
    let path = PathBuf::from(path);
    let directories: Vec<&Path> = path.ancestors().collect();
    let looked_at = RefCell::new(Vec::new());
    let found: Option<PathBuf> =
        resolve_dependency_path(&chain(&path), "dep", |i: usize, folder: &str, name: &str| {
            assert_eq!(folder, "node_modules");
            assert_eq!(name, "dep");
            looked_at
                .borrow_mut()
                .push(directories[i].to_string_lossy().into_owned());
            None
        });
    assert_eq!(found, None);
    looked_at.into_inner()
}

#[test]
fn test_try_resolve_with_symlinks_nonexistent_path() {
    let temp_dir = TempDir::new().unwrap();
    let nonexistent = temp_dir.path().join("nonexistent");

    assert_eq!(look_up(&nonexistent), None);
}

#[test]
fn test_resolve_dependency_path_not_found() {
    let temp_dir = TempDir::new().unwrap();
    let directories: Vec<&Path> = temp_dir.path().ancestors().collect();

    assert_eq!(
        resolve_dependency_path(
            &chain(temp_dir.path()),
            "nonexistent-package",
            |i: usize, folder: &str, name: &str| look_up(&directories[i].join(folder).join(name)),
        ),
        None
    );
}

#[test]
fn a_directory_without_package_json_is_no_package() {
    let temp_dir = TempDir::new().unwrap();
    assert_eq!(look_up(temp_dir.path()), None);
}

#[test]
fn links_are_resolved_before_the_package_is_looked_for() {
    let resolve = |path: &str| {
        try_resolve_with_symlinks(
            path.to_string(),
            |p: &String| p != "missing",
            |p: &String| if p == "link" { Some("target".to_string()) } else { None },
            |p: &String, name: &str| name == "package.json" && (p == "target" || p == "plain"),
        )
    };
    assert_eq!(resolve("link"), Some("target".to_string()));
    assert_eq!(resolve("plain"), Some("plain".to_string()));
    assert_eq!(resolve("empty"), None);
    assert_eq!(resolve("missing"), None);
}

#[test]
fn search_goes_up_to_the_root() {
    assert_eq!(searched("/a/b/c"), vec!["/a/b/c", "/a/b", "/a", "/"]);
    assert_eq!(searched("a/b"), vec!["a/b", "a", ""]);
}

#[test]
fn search_from_the_root_looks_there() {
    assert_eq!(searched("/"), vec!["/"]);
    assert_eq!(searched("/a"), vec!["/a", "/"]);
}

#[test]
fn search_steps_over_node_modules_and_scopes() {
    assert_eq!(
        searched("/w/node_modules/@types/node"),
        vec!["/w/node_modules/@types/node", "/w", "/"]
    );
    assert_eq!(
        searched("/w/node_modules/lodash"),
        vec!["/w/node_modules/lodash", "/w", "/"]
    );
    assert_eq!(searched("/w/@scope/p"), vec!["/w/@scope/p", "/w", "/"]);
    assert_eq!(searched("/node_modules/p"), vec!["/node_modules/p", "/"]);
}

#[test]
fn search_steps_over_one_directory_of_each_kind_only() {
    assert_eq!(
        searched("/w/node_modules/node_modules/p"),
        vec!["/w/node_modules/node_modules/p", "/w/node_modules", "/w", "/"]
    );
}

#[test]
fn search_within_a_store_looks_into_scopes() {
    assert_eq!(
        searched("/w/.store/x/@scope/p"),
        vec![
            "/w/.store/x/@scope/p",
            "/w/.store/x/@scope",
            "/w/.store/x",
            "/w/.store",
            "/w",
            "/"
        ]
    );
}

#[test]
fn search_takes_the_nearest_package() {
    let path = PathBuf::from("/a/b/c");
    let directories: Vec<&Path> = path.ancestors().collect();
    let found = resolve_dependency_path(&chain(&path), "dep", |i: usize, _: &str, _: &str| {
        if directories[i] == Path::new("/a/b") || directories[i] == Path::new("/a") {
            Some(directories[i].to_path_buf())
        } else {
            None
        }
    });
    assert_eq!(found, Some(PathBuf::from("/a/b")));
}

#[test]
fn a_package_at_the_root_is_found() {
    let path = PathBuf::from("/a");
    let directories: Vec<&Path> = path.ancestors().collect();
    let found = resolve_dependency_path(&chain(&path), "x", |i: usize, folder: &str, name: &str| {
        let place = directories[i].join(folder).join(name);
        if place == Path::new("/node_modules/x") {
            Some(place)
        } else {
            None
        }
    });
    assert_eq!(found, Some(PathBuf::from("/node_modules/x")));
}

#[test]
fn an_empty_chain_holds_nothing() {
    let found: Option<u8> = resolve_dependency_path(&Vec::new(), "dep", |_: usize, _: &str, _: &str| Some(1));
    assert_eq!(found, None);
}

#[test]
fn the_next_directory_is_the_parent() {
    let directories = chain(Path::new("/a/b"));
    assert_eq!(next_directory(&directories, 0), Some(1));
    assert_eq!(next_directory(&directories, 1), Some(2));
    assert_eq!(next_directory(&directories, 2), None);
}

#[test]
fn a_windows_store_is_recognised() {
    let directory = |text: &str| Directory { text: text.to_string(), name: None };
    assert!(directory("C:\\w\\.pnpm\\x").is_in_store());
    assert!(directory("C:\\w\\.store\\x").is_in_store());
    assert!(directory("/w/.pnpm/x").is_in_store());
    assert!(!directory("/w/.pnpm").is_in_store());
    assert!(!directory("/w/pnpm/x").is_in_store());
}
