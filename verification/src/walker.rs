//! The walk over a package and everything that it depends on.
//!
//! A step of the walk either reads a package or finds one of its dependencies. What a step has
//! found out decides which steps come next.

use std::collections::HashSet;
use vstd::prelude::*;
use vstd::string::{StrSliceExecFns, StringExecFns};

use crate::dependency::{
    collect_dependencies, create_resolve_tasks, dependency_models, is_external,
    is_external_package, law_each_dependency_gets_a_task, law_keys_are_collected, resolve_tasks,
    task_model, task_models, walk_task, DependencyConfig, DependencyModel, DependencyType,
    TypedDependency, WalkModel, WalkTask,
};
use crate::f_graph::FGraph;
use crate::graph_node::GraphNode;
use crate::names::NameTable;
use crate::node::{TaskModel, TaskNode};
use crate::package::{
    copy_optional, optional_text, texts, Package, PackageJson, PackageModel, PackagePath, PathModel,
};
use crate::schedule::Schedule;
use crate::text::{
    characters, contains_text, find, first_occurrence, law_position_is_the_first, occurs_at,
    position_of,
};

verus! {

/// What a walk has found out so far.
#[verifier::ext_equal]
pub struct StateModel {
    /// The packages by name.
    pub discovered: Map<Seq<char>, PackageModel>,
    /// The numbers of the canonical paths of the packages.
    pub discovered_paths: Set<u64>,
    /// The numbers of the canonical paths that are being read.
    pub processing: Set<u64>,
}

impl StateModel {
    /// Nothing has been found.
    pub open spec fn empty() -> Self {
        StateModel {
            discovered: Map::empty(),
            discovered_paths: Set::empty(),
            processing: Set::empty(),
        }
    }

    /// Whether a path was read or is being read.
    pub open spec fn is_taken(self, canonical: u64) -> bool {
        self.discovered_paths.contains(canonical) || self.processing.contains(canonical)
    }

    /// The state once a path is being read, unless it was taken before.
    pub open spec fn with_claimed(self, canonical: u64) -> Self {
        if self.is_taken(canonical) {
            self
        } else {
            StateModel { processing: self.processing.insert(canonical), ..self }
        }
    }

    /// The state once a path was read. Where it had been read before, the package is dropped.
    pub open spec fn with_package(self, canonical: u64, package: PackageModel) -> Self {
        let processing = self.processing.remove(canonical);
        if self.discovered_paths.contains(canonical) {
            StateModel { processing, ..self }
        } else {
            StateModel {
                discovered: self.discovered.insert(package.name, package),
                discovered_paths: self.discovered_paths.insert(canonical),
                processing,
            }
        }
    }

    /// No path is being read that was read before, and packages are filed under their names.
    pub open spec fn sound(self) -> bool {
        &&& self.discovered_paths.disjoint(self.processing)
        &&& forall|name: Seq<char>| #[trigger]
            self.discovered.contains_key(name) ==> self.discovered[name].name == name
    }
}

/// The packages of a table.
pub open spec fn packages(table: NameTable<Package>) -> Map<Seq<char>, PackageModel> {
    table@.map_values(|package: Package| package@)
}

/// The name under which a package in a store is known: what follows the first `node_modules`
/// directory inside the store.
pub open spec fn store_alias(path: Seq<char>) -> Option<Seq<char>> {
    match position_of(path, "/.store/"@, 0) {
        None => None,
        Some(store) => match position_of(path, "/node_modules/"@, store) {
            None => None,
            Some(modules) => Some(path.skip(modules + "/node_modules/"@.len())),
        },
    }
}

/// The name of a package: the one under which a store knows it, or else the one that its
/// `package.json` gives.
pub open spec fn package_name(actual_name: Seq<char>, path: Seq<char>) -> Seq<char> {
    match store_alias(path) {
        Some(alias) => alias,
        None => actual_name,
    }
}

/// Which dependencies are followed for the package at a path.
pub open spec fn config_for(path: Seq<char>) -> DependencyConfig {
    if is_external(path) {
        DependencyConfig::external()
    } else {
        DependencyConfig::local()
    }
}

/// The dependencies that are followed for the package at a path.
pub open spec fn dependencies_of(path: PathModel, package_json: PackageJson) -> Seq<
    DependencyModel,
> {
    package_json.collected(config_for(path.text))
}

/// The package at a path.
pub open spec fn package_at(path: PathModel, package_json: PackageJson) -> PackageModel {
    PackageModel {
        name: package_name(package_json.name@, path.text),
        version: optional_text(package_json.version),
        path,
        dependencies: dependencies_of(path, package_json).map_values(
            |d: DependencyModel| d.name,
        ),
    }
}

/// The steps that follow once the package at a path was read: each of its dependencies is looked
/// for, unless the path had been read before.
pub open spec fn steps_after_reading(
    state: StateModel,
    path: PathModel,
    canonical: u64,
    package_json: PackageJson,
) -> Seq<TaskModel<usize, WalkModel>> {
    if state.discovered_paths.contains(canonical) {
        Seq::empty()
    } else {
        resolve_tasks(dependencies_of(path, package_json), path)
    }
}

/// The steps that follow once a dependency was found: its path is read, unless it was taken
/// before.
pub open spec fn steps_after_finding(state: StateModel, path: PathModel, canonical: u64) -> Seq<
    TaskModel<usize, WalkModel>,
> {
    if state.is_taken(canonical) {
        Seq::empty()
    } else {
        seq![walk_task(WalkModel::GetInfo(path))]
    }
}

/// Whether the walk fails where a dependency of this kind is not found.
pub open spec fn is_required(dep_type: DependencyType) -> bool {
    dep_type is Runtime || dep_type is Dev
}

/// The word for a kind of dependency.
pub open spec fn kind_text(dep_type: DependencyType) -> Seq<char> {
    match dep_type {
        DependencyType::Runtime => "runtime"@,
        DependencyType::Dev => "dev"@,
        DependencyType::Optional => "optional"@,
        DependencyType::Peer => "peer"@,
    }
}

/// A required dependency that was not found.
#[derive(Debug)]
pub struct UnresolvedDependency {
    pub dependency: TypedDependency,
    pub parent_path: PackagePath,
}

impl UnresolvedDependency {
    /// The message that reports the error.
    pub fn message(&self) -> (message: String)
        ensures
            message@ == "Failed to resolve required "@ + kind_text(self.dependency.dep_type)
                + " dependency '"@ + self.dependency.name@ + "' from package at "@
                + self.parent_path.text@,
    {
        let mut message = String::new();
        message.append("Failed to resolve required ");
        message.append(
            match self.dependency.dep_type {
                DependencyType::Runtime => "runtime",
                DependencyType::Dev => "dev",
                DependencyType::Optional => "optional",
                DependencyType::Peer => "peer",
            },
        );
        message.append(" dependency '");
        message.append(self.dependency.name.as_str());
        message.append("' from package at ");
        message.append(self.parent_path.text.as_str());
        assert(message@ =~= "Failed to resolve required "@ + kind_text(self.dependency.dep_type)
            + " dependency '"@ + self.dependency.name@ + "' from package at "@
            + self.parent_path.text@);
        message
    }
}

/// What a walk has found out so far.
#[derive(Debug)]
pub struct SharedState {
    pub discovered: NameTable<Package>,
    pub discovered_paths: HashSet<u64>,
    pub processing: HashSet<u64>,
}

impl View for SharedState {
    type V = StateModel;

    open spec fn view(&self) -> StateModel {
        StateModel {
            discovered: packages(self.discovered),
            discovered_paths: self.discovered_paths@,
            processing: self.processing@,
        }
    }
}

impl SharedState {
    /// The table of packages is in order.
    pub open spec fn wf(&self) -> bool {
        self.discovered.wf()
    }

    /// Nothing has been found.
    pub fn new() -> (state: Self)
        ensures
            state.wf(),
            state@ == StateModel::empty(),
    {
        let state = SharedState {
            discovered: NameTable::new(),
            discovered_paths: HashSet::new(),
            processing: HashSet::new(),
        };
        assert(state@ =~= StateModel::empty());
        state
    }

    /// Takes a path for reading, unless it was taken before, and says whether it did.
    pub fn claim(&mut self, canonical: u64) -> (claimed: bool)
        requires
            old(self).wf(),
        ensures
            final(self).wf(),
            claimed == !old(self)@.is_taken(canonical),
            final(self)@ == old(self)@.with_claimed(canonical),
    {
        broadcast use vstd::std_specs::hash::group_hash_axioms;

        if self.discovered_paths.contains(&canonical) || self.processing.contains(&canonical) {
            false
        } else {
            self.processing.insert(canonical);
            true
        }
    }

    /// What follows from the search for a dependency: where it was found, at a path with the
    /// given canonical path, that path is read next, unless it was taken before. Where it was not
    /// found, the walk fails if the dependency is required.
    pub fn finish_resolve(
        &mut self,
        dependency: &TypedDependency,
        parent_path: &PackagePath,
        resolved: Option<(PackagePath, u64)>,
    ) -> (outcome: Result<Vec<GraphNode<WalkTask>>, UnresolvedDependency>)
        requires
            old(self).wf(),
        ensures
            final(self).wf(),
            match resolved {
                Some((path, canonical)) => {
                    &&& outcome is Ok
                    &&& task_models(outcome->Ok_0@) == steps_after_finding(
                        old(self)@,
                        path@,
                        canonical,
                    )
                    &&& final(self)@ == old(self)@.with_claimed(canonical)
                },
                None => {
                    &&& outcome is Err <==> is_required(dependency.dep_type)
                    &&& outcome matches Ok(steps) ==> steps@.len() == 0
                    &&& outcome matches Err(error) ==> error.dependency@ == dependency@
                        && error.parent_path@ == parent_path@
                    &&& final(self)@ == old(self)@
                },
            },
    {
        match resolved {
            Some((path, canonical)) => {
                let mut steps: Vec<GraphNode<WalkTask>> = Vec::new();
                let ghost target = path@;
                if self.claim(canonical) {
                    steps.push(PackageWalker::create_get_info_task(path));
                }
                proof {
                    assert(task_models(steps@) =~= steps_after_finding(
                        old(self)@,
                        target,
                        canonical,
                    ));
                }
                Ok(steps)
            },
            None => match dependency.dep_type {
                DependencyType::Runtime | DependencyType::Dev => Err(
                    UnresolvedDependency {
                        dependency: dependency.clone(),
                        parent_path: parent_path.clone(),
                    },
                ),
                DependencyType::Optional | DependencyType::Peer => Ok(Vec::new()),
            },
        }
    }

    /// What follows from reading the package at a path with the given canonical path: the package
    /// is recorded, and each of its dependencies is looked for next, unless the canonical path had
    /// been read before.
    pub fn finish_get_info(
        &mut self,
        package_path: &PackagePath,
        canonical: u64,
        package_json: &PackageJson,
    ) -> (steps: Vec<GraphNode<WalkTask>>)
        requires
            old(self).wf(),
        ensures
            final(self).wf(),
            final(self)@ == old(self)@.with_package(
                canonical,
                package_at(package_path@, *package_json),
            ),
            task_models(steps@) == steps_after_reading(
                old(self)@,
                package_path@,
                canonical,
                *package_json,
            ),
    {
        broadcast use vstd::std_specs::hash::group_hash_axioms;

        let config = if is_external_package(package_path) {
            DependencyConfig::for_external_package()
        } else {
            DependencyConfig::for_local_package()
        };
        let deps = collect_dependencies(package_json, &config, package_path);
        let package = Package::new(
            PackageWalker::determine_package_name(package_json.name.as_str(), package_path),
            copy_optional(&package_json.version),
            package_path.clone(),
            names_of(&deps),
        );
        let ghost expected = package_at(package_path@, *package_json);
        assert(package@ =~= expected);
        if self.discovered_paths.contains(&canonical) {
            self.processing.remove(&canonical);
            let steps: Vec<GraphNode<WalkTask>> = Vec::new();
            assert(task_models(steps@) =~= Seq::<TaskModel<usize, WalkModel>>::empty());
            return steps;
        }
        let ghost table = self.discovered;
        self.discovered_paths.insert(canonical);
        self.discovered.insert(package.name.clone(), package);
        self.processing.remove(&canonical);
        assert(packages(self.discovered) =~= packages(table).insert(expected.name, expected));
        create_resolve_tasks(deps, package_path.clone())
    }
}

/// The names of some dependencies.
fn names_of(deps: &Vec<TypedDependency>) -> (names: Vec<String>)
    ensures
        texts(names@) == dependency_models(deps@).map_values(|d: DependencyModel| d.name),
{
    let mut names: Vec<String> = Vec::new();
    let mut i: usize = 0;
    while i < deps.len()
        invariant
            i <= deps@.len(),
            names@.len() == i,
            forall|j: int| 0 <= j < i ==> (#[trigger] names@[j])@ == deps@[j].name@,
        decreases deps.len() - i,
    {
        names.push(deps[i].name.clone());
        i = i + 1;
    }
    assert(texts(names@) =~= dependency_models(deps@).map_values(|d: DependencyModel| d.name));
    names
}

/// A copy of a table of packages.
fn copy_packages(table: &NameTable<Package>) -> (copy: NameTable<Package>)
    requires
        table.wf(),
    ensures
        copy.wf(),
        copy.names() == table.names(),
        packages(copy) == packages(*table),
{
    let mut copy: NameTable<Package> = NameTable::new();
    let mut i: usize = 0;
    assert(copy.names() =~= table.names().take(0));
    while i < table.len()
        invariant
            i <= table.names().len(),
            table.wf(),
            copy.wf(),
            copy.names() == table.names().take(i as int),
            forall|j: int|
                0 <= j < i ==> copy@[#[trigger] table.names()[j]]@ == table.values()[j]@,
        decreases table.names().len() - i,
    {
        let (name, package) = table.entry(i);
        let ghost before = copy.names();
        proof {
            assert(!before.contains(name@));
            assert(table.names().take(i + 1) =~= before.push(name@));
            assert forall|j: int| 0 <= j < i implies #[trigger] table.names()[j] != name@ by {}
        }
        copy.insert(name.clone(), package.clone());
        i = i + 1;
    }
    assert(copy.names() =~= table.names());
    assert(packages(copy) =~= packages(*table)) by {
        assert forall|name: Seq<char>| table.names().contains(name) implies copy@[name]@
            == table@[name]@ by {
            let j = table.names().index_of(name);
            assert(table.names()[j] == name);
        }
    }
    copy
}

/// The number of processors that are available, by `num_cpus::get`.
///
/// It is one at least. Nothing else is claimed of it: it depends on the machine, and on what the
/// process is allowed to use of it.
#[verifier::external_body]
fn cpu_count() -> (n: usize)
    ensures
        n >= 1,
{
    num_cpus::get()
}

/// How many steps are taken at a time where nothing else is asked for: one for each processor, but
/// eight at least.
pub fn default_concurrency(cpus: usize) -> (n: usize)
    ensures
        n == (if cpus < 8 {
            8
        } else {
            cpus
        }),
{
    if cpus < 8 {
        8
    } else {
        cpus
    }
}

/// A walker over the package at a path and everything that it depends on.
#[derive(Debug)]
pub struct PackageWalker {
    /// The path at which the walk starts.
    pub root_path: PackagePath,
    /// What the walk has found out so far.
    pub state: SharedState,
    /// How many steps are taken at a time.
    pub concurrency: usize,
}

impl PackageWalker {
    /// A walker that takes one step for each processor at a time, but eight at least.
    pub fn new(root_path: PackagePath) -> (walker: Self)
        ensures
            walker.root_path == root_path,
            walker.concurrency >= 8,
            walker.state.wf(),
            walker.state@ == StateModel::empty(),
    {
        PackageWalker::with_concurrency(root_path, default_concurrency(cpu_count()))
    }

    /// A walker that takes the given number of steps at a time, but two at least.
    pub fn with_concurrency(root_path: PackagePath, concurrency: usize) -> (walker: Self)
        ensures
            walker.root_path == root_path,
            walker.concurrency == (if concurrency < 2 {
                2
            } else {
                concurrency
            }),
            walker.state.wf(),
            walker.state@ == StateModel::empty(),
    {
        let effective: usize = if concurrency < 2 {
            2
        } else {
            concurrency
        };
        PackageWalker { root_path, state: SharedState::new(), concurrency: effective }
    }

    /// The graph with which the walk starts: its one task reads the package at the root path.
    pub fn start(&self) -> (graph: FGraph<WalkTask>)
        ensures
            graph.wf(),
            graph@.sound(),
            exists|root: GraphNode<WalkTask>|
                {
                    &&& task_model(root) == walk_task(WalkModel::GetInfo(self.root_path@))
                    &&& graph@ == Schedule::<usize, WalkTask>::empty().with_limit(
                        self.concurrency as nat,
                    ).with_task(0, #[trigger] root.model())
                },
    {
        let mut graph: FGraph<WalkTask> = FGraph::new().with_concurrency(self.concurrency);
        let root = PackageWalker::create_get_info_task(self.root_path.clone());
        let ghost node = root;
        let added = graph.add_task(root);
        assert(added is Ok && added->Ok_0 == 0);
        assert(graph@ == Schedule::<usize, WalkTask>::empty().with_limit(
            self.concurrency as nat,
        ).with_task(0, node.model()));
        graph
    }

    /// The task that reads the package at a path.
    pub fn create_get_info_task(package_path: PackagePath) -> (task: GraphNode<WalkTask>)
        ensures
            task_model(task) == walk_task(WalkModel::GetInfo(package_path@)),
    {
        let dependencies: Vec<usize> = Vec::new();
        assert(dependencies@ =~= Seq::<usize>::empty());
        GraphNode::new(1, dependencies, WalkTask::GetInfo(package_path))
    }

    /// The name of a package: the one under which a store knows it, or else the one that its
    /// `package.json` gives.
    pub fn determine_package_name(actual_name: &str, package_path: &PackagePath) -> (name: String)
        ensures
            name@ == package_name(actual_name@, package_path@.text),
    {
        let path = characters(package_path.text.as_str());
        let modules = characters("/node_modules/");
        if let Some(store_pos) = find(&path, &characters("/.store/"), 0) {
            if let Some(modules_pos) = find(&path, &modules, store_pos) {
                assert(modules_pos + modules.len() <= path.len());
                let start: usize = modules_pos + modules.len();
                assert(path@.skip(start as int) =~= path@.subrange(
                    start as int,
                    path@.len() as int,
                ));
                return package_path.text.as_str().substring_char(start, path.len()).to_owned();
            }
        }
        actual_name.to_owned()
    }

    /// The packages that were found, by name.
    pub fn get_discovered_packages(&self) -> (found: NameTable<Package>)
        requires
            self.state.wf(),
        ensures
            found.wf(),
            found.names() == self.state.discovered.names(),
            packages(found) == self.state@.discovered,
    {
        copy_packages(&self.state.discovered)
    }

    /// How many steps are taken at a time.
    pub fn concurrency(&self) -> (n: usize)
        ensures
            n == self.concurrency,
    {
        self.concurrency
    }
}

/// A walk starts from a sound state.
pub proof fn law_empty_state_is_sound()
    ensures
        StateModel::empty().sound(),
{
}

/// Taking a path keeps the state sound, and the path is taken afterwards: it is never taken a
/// second time, and nothing else changes.
pub proof fn law_path_is_taken_once(state: StateModel, canonical: u64)
    requires
        state.sound(),
    ensures
        state.with_claimed(canonical).sound(),
        state.with_claimed(canonical).is_taken(canonical),
        state.with_claimed(canonical).with_claimed(canonical) == state.with_claimed(canonical),
        state.with_claimed(canonical).discovered == state.discovered,
        state.with_claimed(canonical).discovered_paths == state.discovered_paths,
{
}

/// Recording a package keeps the state sound. The path has been read for good and is no longer
/// being read; whoever finds it again has nothing to do.
pub proof fn law_package_is_recorded_once(
    state: StateModel,
    canonical: u64,
    package: PackageModel,
    other: PackageModel,
)
    requires
        state.sound(),
    ensures
        ({
            let next = state.with_package(canonical, package);
            &&& next.sound()
            &&& next.discovered_paths == state.discovered_paths.insert(canonical)
            &&& !next.processing.contains(canonical)
            &&& next.is_taken(canonical)
            &&& next.with_package(canonical, other) == next
            &&& next.with_claimed(canonical) == next
        }),
{
    let next = state.with_package(canonical, package);
    assert(next.discovered_paths =~= state.discovered_paths.insert(canonical));
    assert(next.with_package(canonical, other) =~= next);
}

/// A path that was taken stays taken, whatever else the walk finds, and what was discovered stays
/// discovered.
pub proof fn law_nothing_is_forgotten(
    state: StateModel,
    path: u64,
    canonical: u64,
    package: PackageModel,
)
    requires
        state.is_taken(path),
    ensures
        state.with_claimed(canonical).is_taken(path),
        state.with_package(canonical, package).is_taken(path),
        state.discovered_paths.subset_of(
            state.with_package(canonical, package).discovered_paths,
        ),
        state.discovered.dom().subset_of(state.with_package(canonical, package).discovered.dom()),
{
}

/// A package that is read for the first time is found under its name afterwards.
pub proof fn law_package_is_found_by_name(
    state: StateModel,
    canonical: u64,
    package: PackageModel,
)
    requires
        !state.discovered_paths.contains(canonical),
    ensures
        state.with_package(canonical, package).discovered.contains_key(package.name),
        state.with_package(canonical, package).discovered[package.name] == package,
        forall|name: Seq<char>|
            name != package.name && state.discovered.contains_key(name) ==> #[trigger]
            state.with_package(canonical, package).discovered[name] == state.discovered[name],
{
}

/// Outside a store a package keeps the name that its `package.json` gives.
pub proof fn law_local_package_keeps_its_name(actual_name: Seq<char>, path: Seq<char>)
    requires
        !contains_text(path, "/.store/"@),
    ensures
        package_name(actual_name, path) == actual_name,
{
    if let Some(store) = position_of(path, "/.store/"@, 0) {
        assert(first_occurrence(path, "/.store/"@, 0, store));
        assert(occurs_at(path, "/.store/"@, store));
    }
}

/// What contracts say of the state of a walk is what the state holds.
pub proof fn law_state_is_seen_as_it_is(state: SharedState, name: Seq<char>)
    ensures
        state@.discovered_paths == state.discovered_paths@,
        state@.processing == state.processing@,
        state@.discovered.contains_key(name) <==> state.discovered@.contains_key(name),
        state.discovered@.contains_key(name) ==> state@.discovered[name]
            == state.discovered@[name]@,
        packages(state.discovered) == state@.discovered,
{
}

/// At the start of a walk nothing is known.
pub proof fn law_nothing_is_known_at_first()
    ensures
        StateModel::empty().discovered == Map::<Seq<char>, PackageModel>::empty(),
        StateModel::empty().discovered_paths == Set::<u64>::empty(),
        StateModel::empty().processing == Set::<u64>::empty(),
{
}

/// A path is claimed exactly if it was neither read nor is being read. It is being read then, and
/// nothing else changes; otherwise nothing changes at all.
pub proof fn law_claim_is_for_new_paths(state: StateModel, canonical: u64)
    ensures
        state.is_taken(canonical) <==> state.discovered_paths.contains(canonical)
            || state.processing.contains(canonical),
        state.discovered_paths.contains(canonical) || state.processing.contains(canonical)
            ==> state.with_claimed(canonical) == state,
        !state.discovered_paths.contains(canonical) && !state.processing.contains(canonical)
            ==> state.with_claimed(canonical).processing == state.processing.insert(canonical),
        state.with_claimed(canonical).discovered_paths == state.discovered_paths,
        state.with_claimed(canonical).discovered == state.discovered,
{
}

/// A package that was read is filed under its name if its path was not read before, in place of
/// what was filed there; if it was, no package changes. Either way the path was read and is no
/// longer being read.
pub proof fn law_package_is_filed_under_its_name(
    state: StateModel,
    canonical: u64,
    package: PackageModel,
)
    ensures
        ({
            let next = state.with_package(canonical, package);
            &&& next.processing == state.processing.remove(canonical)
            &&& next.discovered_paths == state.discovered_paths.insert(canonical)
            &&& !state.discovered_paths.contains(canonical) ==> next.discovered
                == state.discovered.insert(package.name, package)
            &&& state.discovered_paths.contains(canonical) ==> next.discovered == state.discovered
        }),
{
    let next = state.with_package(canonical, package);
    assert(next.discovered_paths =~= state.discovered_paths.insert(canonical));
}

/// A package is recorded with its path and with the version that its `package.json` gives, or with
/// none if it gives none, wherever the package lies.
pub proof fn law_recorded_package_has_its_version(path: PathModel, package_json: PackageJson)
    ensures
        package_at(path, package_json).path == path,
        package_json.version matches Some(version) ==> package_at(path, package_json).version
            == Some(version@),
        package_json.version is None ==> package_at(path, package_json).version is None,
{
}

/// A package is recorded with the names of the dependencies that are looked for, in their order: of
/// those that its `package.json` lists, all if no `node_modules` directory is in its path, and
/// otherwise those at run time and the optional ones.
pub proof fn law_recorded_package_has_its_dependencies(path: PathModel, package_json: PackageJson)
    ensures
        package_at(path, package_json).dependencies.len() == dependencies_of(
            path,
            package_json,
        ).len(),
        forall|i: int|
            0 <= i < dependencies_of(path, package_json).len() ==> #[trigger] package_at(
                path,
                package_json,
            ).dependencies[i] == dependencies_of(path, package_json)[i].name,
        (exists|i: int| #[trigger] occurs_at(path.text, "/node_modules/"@, i)) ==> dependencies_of(
            path,
            package_json,
        ) == package_json.collected(
            DependencyConfig {
                include_dev_dependencies: false,
                include_optional_dependencies: true,
                include_peer_dependencies: false,
            },
        ),
        (forall|i: int| !#[trigger] occurs_at(path.text, "/node_modules/"@, i)) ==> dependencies_of(
            path,
            package_json,
        ) == package_json.collected(
            DependencyConfig {
                include_dev_dependencies: true,
                include_optional_dependencies: true,
                include_peer_dependencies: true,
            },
        ),
{
}

/// A name that is a key of a table of the `package.json` is among the dependencies of the recorded
/// package: for the tables of what is needed at run time and of what is optional always, and for
/// the others if no `node_modules` directory is in the path.
pub proof fn law_keys_are_recorded(path: PathModel, package_json: PackageJson, name: Seq<char>)
    ensures
        (package_json.dependencies matches Some(table) && table@.contains_key(name))
            ==> package_at(path, package_json).dependencies.contains(name),
        (package_json.optional_dependencies matches Some(table) && table@.contains_key(name))
            ==> package_at(path, package_json).dependencies.contains(name),
        (forall|i: int| !#[trigger] occurs_at(path.text, "/node_modules/"@, i)) && (
        package_json.dev_dependencies matches Some(table) && table@.contains_key(name))
            ==> package_at(path, package_json).dependencies.contains(name),
        (forall|i: int| !#[trigger] occurs_at(path.text, "/node_modules/"@, i)) && (
        package_json.peer_dependencies matches Some(table) && table@.contains_key(name))
            ==> package_at(path, package_json).dependencies.contains(name),
{
    let config = config_for(path.text);
    law_keys_are_collected(package_json, config, name);
    let deps = dependencies_of(path, package_json);
    let names = package_at(path, package_json).dependencies;
    assert forall|d: DependencyModel| #[trigger] deps.contains(d) && d.name == name implies
        names.contains(name) by {
        let i = deps.index_of(d);
        assert(names[i] == name);
    }
    assert(deps.contains(DependencyModel { name, dep_type: DependencyType::Runtime })
        ==> names.contains(name));
    assert(deps.contains(DependencyModel { name, dep_type: DependencyType::Dev })
        ==> names.contains(name));
    assert(deps.contains(DependencyModel { name, dep_type: DependencyType::Optional })
        ==> names.contains(name));
    assert(deps.contains(DependencyModel { name, dep_type: DependencyType::Peer })
        ==> names.contains(name));
}

/// A package has the name that its `package.json` gives, unless its path has a `node_modules`
/// directory at or after the first store directory. Then its name is what follows the first such
/// directory.
pub proof fn law_package_is_named_by_its_path(
    path: PathModel,
    package_json: PackageJson,
    store: int,
    modules: int,
)
    ensures
        ({
            let name = package_at(path, package_json).name;
            let text = path.text;
            let first = occurs_at(text, "/.store/"@, store) && forall|i: int|
                0 <= i < store ==> !#[trigger] occurs_at(text, "/.store/"@, i);
            &&& package_name(package_json.name@, text) == name
            &&& (forall|i: int| !#[trigger] occurs_at(text, "/.store/"@, i)) ==> name
                == package_json.name@
            &&& first && (forall|i: int|
                store <= i ==> !#[trigger] occurs_at(text, "/node_modules/"@, i)) ==> name
                == package_json.name@
            &&& first && store <= modules && occurs_at(text, "/node_modules/"@, modules) && (
            forall|i: int|
                store <= i < modules ==> !#[trigger] occurs_at(text, "/node_modules/"@, i))
                ==> name == text.skip(modules + "/node_modules/"@.len())
        }),
{
    let text = path.text;
    law_position_is_the_first(text, "/.store/"@, 0, store);
    law_position_is_the_first(text, "/node_modules/"@, store, modules);
    if let Some(found) = position_of(text, "/.store/"@, 0) {
        law_position_is_the_first(text, "/.store/"@, 0, found);
        assert(occurs_at(text, "/.store/"@, found));
    }
    if let Some(found) = position_of(text, "/node_modules/"@, store) {
        law_position_is_the_first(text, "/node_modules/"@, store, found);
        assert(occurs_at(text, "/node_modules/"@, found));
    }
}

/// Once a package was read, each of its dependencies is looked for from its path, in their order,
/// by a task of priority one without dependencies, unless the canonical path was read before; then
/// nothing follows.
pub proof fn law_dependencies_are_looked_for_next(
    state: StateModel,
    path: PathModel,
    canonical: u64,
    package_json: PackageJson,
    i: int,
)
    ensures
        ({
            let steps = steps_after_reading(state, path, canonical, package_json);
            let deps = dependencies_of(path, package_json);
            &&& state.discovered_paths.contains(canonical) ==> steps.len() == 0
            &&& !state.discovered_paths.contains(canonical) ==> steps.len() == deps.len()
            &&& !state.discovered_paths.contains(canonical) && 0 <= i < deps.len() ==> {
                &&& steps[i].priority == 1
                &&& steps[i].dependencies == Seq::<usize>::empty()
                &&& steps[i].action == WalkModel::Resolve(deps[i], path)
            }
        }),
{
    law_each_dependency_gets_a_task(
        dependencies_of(path, package_json),
        path,
        WalkModel::GetInfo(path),
        i,
    );
}

/// Once a dependency was found, its path is read next, by a task of priority one without
/// dependencies, unless it was read or is being read; then nothing follows.
pub proof fn law_found_package_is_read_next(state: StateModel, path: PathModel, canonical: u64)
    ensures
        ({
            let steps = steps_after_finding(state, path, canonical);
            &&& state.discovered_paths.contains(canonical) || state.processing.contains(canonical)
                ==> steps.len() == 0
            &&& !state.discovered_paths.contains(canonical) && !state.processing.contains(canonical)
                ==> {
                &&& steps.len() == 1
                &&& steps[0].priority == 1
                &&& steps[0].dependencies == Seq::<usize>::empty()
                &&& steps[0].action == WalkModel::GetInfo(path)
            }
        }),
{
}

/// A dependency that is needed at run time or for development is required. An optional or a peer
/// dependency is not.
pub proof fn law_required_kinds()
    ensures
        is_required(DependencyType::Runtime),
        is_required(DependencyType::Dev),
        !is_required(DependencyType::Optional),
        !is_required(DependencyType::Peer),
        kind_text(DependencyType::Runtime) == "runtime"@,
        kind_text(DependencyType::Dev) == "dev"@,
        kind_text(DependencyType::Optional) == "optional"@,
        kind_text(DependencyType::Peer) == "peer"@,
{
}

} // verus!
