//! The contents of a `package.json` file, and packages.

use vstd::prelude::*;

use crate::names::NameTable;

verus! {

/// The path of a directory.
#[verifier::ext_equal]
pub struct PathModel {
    /// The number of the path: two paths are the same where their numbers are.
    pub id: u64,
    /// The path as text.
    pub text: Seq<char>,
}

/// A package.
#[verifier::ext_equal]
pub struct PackageModel {
    pub name: Seq<char>,
    pub version: Option<Seq<char>>,
    pub path: PathModel,
    pub dependencies: Seq<Seq<char>>,
}

/// The path of a directory: a number that stands for it, and the path as text. The text need not
/// tell paths apart: what is no valid text is replaced in it.
#[derive(Debug, PartialEq, Eq)]
pub struct PackagePath {
    pub id: u64,
    pub text: String,
}

impl View for PackagePath {
    type V = PathModel;

    open spec fn view(&self) -> PathModel {
        PathModel { id: self.id, text: self.text@ }
    }
}

impl PackagePath {
    /// The path with the given number and text.
    pub fn new(id: u64, text: String) -> (path: Self)
        ensures
            path@ == (PathModel { id, text: text@ }),
    {
        PackagePath { id, text }
    }
}

impl Clone for PackagePath {
    fn clone(&self) -> (copy: Self)
        ensures
            copy@ == self@,
    {
        PackagePath { id: self.id, text: self.text.clone() }
    }
}

/// The contents of a `package.json` file, as far as they matter here.
#[derive(Debug)]
pub struct PackageJson {
    pub name: String,
    pub version: Option<String>,
    pub dependencies: Option<NameTable<String>>,
    pub dev_dependencies: Option<NameTable<String>>,
    pub optional_dependencies: Option<NameTable<String>>,
    pub peer_dependencies: Option<NameTable<String>>,
}

/// Whether two tables, where there are any, hold the same.
pub open spec fn same_table(a: Option<NameTable<String>>, b: Option<NameTable<String>>) -> bool {
    match (a, b) {
        (Some(a), Some(b)) => a.names() == b.names() && a.values() == b.values() && a@ == b@,
        (None, None) => true,
        _ => false,
    }
}

/// A copy of a table, where there is one.
fn copy_table(table: &Option<NameTable<String>>) -> (copy: Option<NameTable<String>>)
    ensures
        same_table(copy, *table),
{
    match table {
        Some(table) => Some(table.clone()),
        None => None,
    }
}

impl Clone for PackageJson {
    fn clone(&self) -> (copy: Self)
        ensures
            copy.name == self.name,
            copy.version == self.version,
            same_table(copy.dependencies, self.dependencies),
            same_table(copy.dev_dependencies, self.dev_dependencies),
            same_table(copy.optional_dependencies, self.optional_dependencies),
            same_table(copy.peer_dependencies, self.peer_dependencies),
    {
        PackageJson {
            name: self.name.clone(),
            version: copy_optional(&self.version),
            dependencies: copy_table(&self.dependencies),
            dev_dependencies: copy_table(&self.dev_dependencies),
            optional_dependencies: copy_table(&self.optional_dependencies),
            peer_dependencies: copy_table(&self.peer_dependencies),
        }
    }
}

/// A package that was found.
#[derive(Debug)]
pub struct Package {
    pub name: String,
    pub version: Option<String>,
    pub path: PackagePath,
    pub dependencies: Vec<String>,
}

/// The texts of a list of strings.
pub open spec fn texts(list: Seq<String>) -> Seq<Seq<char>> {
    list.map_values(|s: String| s@)
}

/// The text of a string, where there is one.
pub open spec fn optional_text(s: Option<String>) -> Option<Seq<char>> {
    match s {
        Some(s) => Some(s@),
        None => None,
    }
}

impl View for Package {
    type V = PackageModel;

    open spec fn view(&self) -> PackageModel {
        PackageModel {
            name: self.name@,
            version: optional_text(self.version),
            path: self.path@,
            dependencies: texts(self.dependencies@),
        }
    }
}

impl Package {
    /// The package with the given name, version, path and names of dependencies.
    pub fn new(
        name: String,
        version: Option<String>,
        path: PackagePath,
        dependencies: Vec<String>,
    ) -> (package: Self)
        ensures
            package.name == name,
            package.version == version,
            package.path == path,
            package.dependencies == dependencies,
    {
        Package { name, version, path, dependencies }
    }
}

/// A copy of an optional string.
pub fn copy_optional(s: &Option<String>) -> (copy: Option<String>)
    ensures
        copy == *s,
{
    match s {
        Some(s) => Some(s.clone()),
        None => None,
    }
}

impl Clone for Package {
    fn clone(&self) -> (copy: Self)
        ensures
            copy@ == self@,
    {
        let mut dependencies: Vec<String> = Vec::new();
        let mut i: usize = 0;
        while i < self.dependencies.len()
            invariant
                i <= self.dependencies@.len(),
                dependencies@ == self.dependencies@.take(i as int),
            decreases self.dependencies.len() - i,
        {
            dependencies.push(self.dependencies[i].clone());
            i = i + 1;
            assert(dependencies@ =~= self.dependencies@.take(i as int));
        }
        assert(dependencies@ =~= self.dependencies@);
        Package {
            name: self.name.clone(),
            version: copy_optional(&self.version),
            path: self.path.clone(),
            dependencies,
        }
    }
}

/// What contracts say of a path is what the path holds.
pub proof fn law_path_is_seen_as_it_is(path: PackagePath)
    ensures
        path@.id == path.id,
        path@.text == path.text@,
{
}

/// What contracts say of a package is what the package holds: its name, its version or that it has
/// none, its path, and the names of its dependencies, in their order.
pub proof fn law_package_is_seen_as_it_is(package: Package)
    ensures
        package@.name == package.name@,
        package.version matches Some(version) ==> package@.version == Some(version@),
        package.version is None ==> package@.version is None,
        package@.path.id == package.path.id,
        package@.path.text == package.path.text@,
        package@.dependencies.len() == package.dependencies@.len(),
        forall|i: int|
            0 <= i < package.dependencies@.len() ==> #[trigger] package@.dependencies[i]
                == package.dependencies@[i]@,
{
}

/// Optional strings and lists of strings are seen as they are.
pub proof fn law_texts_are_seen_as_they_are(s: String, list: Seq<String>, i: int)
    ensures
        optional_text(Some(s)) == Some(s@),
        optional_text(None) is None,
        texts(list).len() == list.len(),
        0 <= i < list.len() ==> texts(list)[i] == list[i]@,
{
}

/// Two tables are taken for the same only if both are missing, or both hold the same names, in the
/// same order, with the same values.
pub proof fn law_same_tables_hold_the_same(
    a: Option<NameTable<String>>,
    b: Option<NameTable<String>>,
)
    requires
        same_table(a, b),
    ensures
        a is Some <==> b is Some,
        a matches Some(x) ==> (b matches Some(y) && x.names() == y.names() && x.values()
            == y.values()),
{
}

} // verus!
