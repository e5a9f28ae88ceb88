//! Which dependencies of a package are followed, and the tasks that resolve them.

use vstd::prelude::*;

use crate::graph_node::GraphNode;
use crate::names::NameTable;
use crate::node::TaskModel;
use crate::package::{PackageJson, PackagePath, PathModel};
use crate::text::{contains, contains_text, law_found_is_contained};

verus! {

/// The kind of a dependency.
#[derive(Debug, Clone, Copy, PartialEq, Eq, Structural)]
pub enum DependencyType {
    /// Always required.
    Runtime,
    /// Required where it is followed at all.
    Dev,
    /// Never required.
    Optional,
    /// To be provided by whoever uses the package.
    Peer,
}

/// A dependency: its name and its kind.
#[verifier::ext_equal]
pub struct DependencyModel {
    pub name: Seq<char>,
    pub dep_type: DependencyType,
}

/// A dependency with its kind.
#[derive(Debug)]
pub struct TypedDependency {
    pub name: String,
    pub dep_type: DependencyType,
}

impl View for TypedDependency {
    type V = DependencyModel;

    open spec fn view(&self) -> DependencyModel {
        DependencyModel { name: self.name@, dep_type: self.dep_type }
    }
}

impl Clone for TypedDependency {
    fn clone(&self) -> (copy: Self)
        ensures
            copy@ == self@,
    {
        TypedDependency { name: self.name.clone(), dep_type: self.dep_type }
    }
}

/// The dependencies of a list.
pub open spec fn dependency_models(list: Seq<TypedDependency>) -> Seq<DependencyModel> {
    list.map_values(|d: TypedDependency| d@)
}

/// Which kinds of dependencies are followed, besides those at run time.
#[derive(Debug, Clone, Copy, PartialEq, Eq, Structural)]
pub struct DependencyConfig {
    pub include_dev_dependencies: bool,
    pub include_optional_dependencies: bool,
    pub include_peer_dependencies: bool,
}

impl Default for DependencyConfig {
    fn default() -> (config: Self)
        ensures
            config == DependencyConfig::local(),
    {
        DependencyConfig {
            include_dev_dependencies: true,
            include_optional_dependencies: true,
            include_peer_dependencies: true,
        }
    }
}

impl DependencyConfig {
    /// All kinds.
    pub open spec fn local() -> Self {
        DependencyConfig {
            include_dev_dependencies: true,
            include_optional_dependencies: true,
            include_peer_dependencies: true,
        }
    }

    /// Optional dependencies only.
    pub open spec fn external() -> Self {
        DependencyConfig {
            include_dev_dependencies: false,
            include_optional_dependencies: true,
            include_peer_dependencies: false,
        }
    }

    /// Whether a kind of dependency is followed.
    pub open spec fn follows(self, dep_type: DependencyType) -> bool {
        match dep_type {
            DependencyType::Runtime => true,
            DependencyType::Dev => self.include_dev_dependencies,
            DependencyType::Optional => self.include_optional_dependencies,
            DependencyType::Peer => self.include_peer_dependencies,
        }
    }

    /// For a local package: all kinds are followed.
    pub fn for_local_package() -> (config: Self)
        ensures
            config == DependencyConfig::local(),
    {
        DependencyConfig::default()
    }

    /// For an external package: of the other kinds only optional dependencies are followed.
    pub fn for_external_package() -> (config: Self)
        ensures
            config == DependencyConfig::external(),
    {
        DependencyConfig {
            include_dev_dependencies: false,
            include_optional_dependencies: true,
            include_peer_dependencies: false,
        }
    }
}

impl PackageJson {
    /// The dependencies of one kind, where the file lists any.
    pub open spec fn table(self, dep_type: DependencyType) -> Option<NameTable<String>> {
        match dep_type {
            DependencyType::Runtime => self.dependencies,
            DependencyType::Dev => self.dev_dependencies,
            DependencyType::Optional => self.optional_dependencies,
            DependencyType::Peer => self.peer_dependencies,
        }
    }

    /// The names of the dependencies of one kind.
    pub open spec fn listed(self, dep_type: DependencyType) -> Seq<Seq<char>> {
        match self.table(dep_type) {
            Some(table) => table.names(),
            None => Seq::empty(),
        }
    }

    /// The dependencies of one kind that are followed.
    pub open spec fn followed(self, config: DependencyConfig, dep_type: DependencyType) -> Seq<
        DependencyModel,
    > {
        if config.follows(dep_type) {
            self.listed(dep_type).map_values(
                |name: Seq<char>| DependencyModel { name, dep_type },
            )
        } else {
            Seq::empty()
        }
    }

    /// The dependencies that are followed: those at run time first, then those for development,
    /// the optional ones and the peer dependencies.
    pub open spec fn collected(self, config: DependencyConfig) -> Seq<DependencyModel> {
        self.followed(config, DependencyType::Runtime) + self.followed(config, DependencyType::Dev)
            + self.followed(config, DependencyType::Optional) + self.followed(
            config,
            DependencyType::Peer,
        )
    }
}

/// Appends the dependencies of one kind, if the kind is followed.
fn push_dependencies(
    deps: &mut Vec<TypedDependency>,
    package_json: &PackageJson,
    config: &DependencyConfig,
    dep_type: DependencyType,
)
    ensures
        dependency_models(final(deps)@) == dependency_models(old(deps)@) + package_json.followed(
            *config,
            dep_type,
        ),
{
    let included = match dep_type {
        DependencyType::Runtime => true,
        DependencyType::Dev => config.include_dev_dependencies,
        DependencyType::Optional => config.include_optional_dependencies,
        DependencyType::Peer => config.include_peer_dependencies,
    };
    let table = match dep_type {
        DependencyType::Runtime => &package_json.dependencies,
        DependencyType::Dev => &package_json.dev_dependencies,
        DependencyType::Optional => &package_json.optional_dependencies,
        DependencyType::Peer => &package_json.peer_dependencies,
    };
    let ghost start = dependency_models(deps@);
    let ghost more = package_json.followed(*config, dep_type);
    if included {
        if let Some(table) = table {
            let mut i: usize = 0;
            assert(dependency_models(deps@) =~= start + more.take(0));
            while i < table.len()
                invariant
                    i <= table.names().len(),
                    more == table.names().map_values(
                        |name: Seq<char>| DependencyModel { name, dep_type },
                    ),
                    dependency_models(deps@) == start + more.take(i as int),
                decreases table.names().len() - i,
            {
                let (name, _) = table.entry(i);
                let ghost before = deps@;
                deps.push(TypedDependency { name: name.clone(), dep_type });
                proof {
                    assert(dependency_models(deps@) =~= dependency_models(before).push(
                        more[i as int],
                    ));
                    assert(more.take(i + 1) =~= more.take(i as int).push(more[i as int]));
                    assert(dependency_models(deps@) =~= start + more.take(i + 1));
                }
                i = i + 1;
            }
            assert(more.take(i as int) =~= more);
        }
    }
    assert(dependency_models(deps@) =~= start + more);
}

/// The dependencies of a package that are followed. The path tells for which package.
pub fn collect_dependencies(
    package_json: &PackageJson,
    config: &DependencyConfig,
    _package_path: &PackagePath,
) -> (deps: Vec<TypedDependency>)
    ensures
        dependency_models(deps@) == package_json.collected(*config),
{
    let mut deps: Vec<TypedDependency> = Vec::new();
    push_dependencies(&mut deps, package_json, config, DependencyType::Runtime);
    push_dependencies(&mut deps, package_json, config, DependencyType::Dev);
    push_dependencies(&mut deps, package_json, config, DependencyType::Optional);
    push_dependencies(&mut deps, package_json, config, DependencyType::Peer);
    assert(dependency_models(deps@) =~= package_json.collected(*config));
    deps
}

/// A dependency is followed exactly if the file lists it under a kind that is followed.
pub proof fn law_collects_what_is_listed(
    package_json: PackageJson,
    config: DependencyConfig,
    dependency: DependencyModel,
)
    ensures
        package_json.collected(config).contains(dependency) <==> config.follows(
            dependency.dep_type,
        ) && package_json.listed(dependency.dep_type).contains(dependency.name),
{
    let a = package_json.followed(config, DependencyType::Runtime);
    let b = package_json.followed(config, DependencyType::Dev);
    let c = package_json.followed(config, DependencyType::Optional);
    let d = package_json.followed(config, DependencyType::Peer);
    let all = package_json.collected(config);
    if all.contains(dependency) {
        let i = all.index_of(dependency);
        if i < a.len() {
            assert(a[i] == dependency);
            assert(package_json.listed(DependencyType::Runtime)[i] == dependency.name);
        } else if i < a.len() + b.len() {
            let j = i - a.len();
            assert(b[j] == dependency);
            assert(package_json.listed(DependencyType::Dev)[j] == dependency.name);
        } else if i < a.len() + b.len() + c.len() {
            let j = i - a.len() - b.len();
            assert(c[j] == dependency);
            assert(package_json.listed(DependencyType::Optional)[j] == dependency.name);
        } else {
            let j = i - a.len() - b.len() - c.len();
            assert(d[j] == dependency);
            assert(package_json.listed(DependencyType::Peer)[j] == dependency.name);
        }
    }
    if config.follows(dependency.dep_type) && package_json.listed(dependency.dep_type).contains(
        dependency.name,
    ) {
        let i = package_json.listed(dependency.dep_type).index_of(dependency.name);
        let offset: nat = match dependency.dep_type {
            DependencyType::Runtime => 0,
            DependencyType::Dev => a.len(),
            DependencyType::Optional => a.len() + b.len(),
            DependencyType::Peer => a.len() + b.len() + c.len(),
        };
        assert(package_json.followed(config, dependency.dep_type)[i] =~= dependency);
        assert(all[offset + i] == dependency);
    }
}

/// Whatever is followed for an external package is followed for a local one too.
pub proof fn law_external_follows_less(package_json: PackageJson, dependency: DependencyModel)
    requires
        package_json.collected(DependencyConfig::external()).contains(dependency),
    ensures
        package_json.collected(DependencyConfig::local()).contains(dependency),
        dependency.dep_type is Runtime || dependency.dep_type is Optional,
{
    law_collects_what_is_listed(package_json, DependencyConfig::external(), dependency);
    law_collects_what_is_listed(package_json, DependencyConfig::local(), dependency);
}

/// A step of the walk over packages.
pub enum WalkModel {
    /// Read the package at a path.
    GetInfo(PathModel),
    /// Find a dependency of the package at a path.
    Resolve(DependencyModel, PathModel),
}

/// A step of the walk over packages.
#[derive(Debug)]
pub enum WalkTask {
    /// Read the package at a path.
    GetInfo(PackagePath),
    /// Find a dependency of the package at a path.
    Resolve(TypedDependency, PackagePath),
}

impl View for WalkTask {
    type V = WalkModel;

    open spec fn view(&self) -> WalkModel {
        match self {
            WalkTask::GetInfo(path) => WalkModel::GetInfo(path@),
            WalkTask::Resolve(dependency, path) => WalkModel::Resolve(dependency@, path@),
        }
    }
}

/// The task for a step of the walk: all have the same priority, and none depends on another.
pub open spec fn walk_task(step: WalkModel) -> TaskModel<usize, WalkModel> {
    TaskModel { priority: 1, dependencies: Seq::empty(), action: step }
}

/// A task of the walk.
pub open spec fn task_model(node: GraphNode<WalkTask>) -> TaskModel<usize, WalkModel> {
    TaskModel {
        priority: node.priority,
        dependencies: node.dependencies@,
        action: node.action@,
    }
}

/// The tasks of a list.
pub open spec fn task_models(nodes: Seq<GraphNode<WalkTask>>) -> Seq<
    TaskModel<usize, WalkModel>,
> {
    nodes.map_values(|node: GraphNode<WalkTask>| task_model(node))
}

/// The tasks that resolve some dependencies of the package at a path.
pub open spec fn resolve_tasks(deps: Seq<DependencyModel>, parent: PathModel) -> Seq<
    TaskModel<usize, WalkModel>,
> {
    deps.map_values(|d: DependencyModel| walk_task(WalkModel::Resolve(d, parent)))
}

/// The tasks that resolve some dependencies of the package at a path.
pub fn create_resolve_tasks(dependencies: Vec<TypedDependency>, parent_path: PackagePath) -> (tasks:
    Vec<GraphNode<WalkTask>>)
    ensures
        task_models(tasks@) == resolve_tasks(dependency_models(dependencies@), parent_path@),
{
    let mut tasks: Vec<GraphNode<WalkTask>> = Vec::new();
    let ghost given = dependencies@;
    let ghost all = resolve_tasks(dependency_models(given), parent_path@);
    assert(task_models(tasks@) =~= all.take(0));
    for dependency in it: dependencies
        invariant
            it.seq() == given,
            all == resolve_tasks(dependency_models(given), parent_path@),
            task_models(tasks@) == all.take(it.index() as int),
    {
        let ghost n = it.index() as int;
        let ghost before = tasks@;
        tasks.push(create_resolve_task(dependency, parent_path.clone()));
        proof {
            assert(dependency == given[n]);
            assert(task_models(tasks@) =~= task_models(before).push(all[n]));
            assert(all.take(n + 1) =~= all.take(n).push(all[n]));
        }
    }
    assert(all.take(all.len() as int) =~= all);
    tasks
}

/// The task that resolves a dependency of the package at a path.
pub fn create_resolve_task(typed_dependency: TypedDependency, parent_path: PackagePath) -> (task:
    GraphNode<WalkTask>)
    ensures
        task_model(task) == walk_task(WalkModel::Resolve(typed_dependency@, parent_path@)),
{
    let dependencies: Vec<usize> = Vec::new();
    assert(dependencies@ =~= Seq::<usize>::empty());
    GraphNode::new(1, dependencies, WalkTask::Resolve(typed_dependency, parent_path))
}

/// Whether a package lies in a `node_modules` directory.
pub open spec fn is_external(path: Seq<char>) -> bool {
    contains_text(path, "/node_modules/"@)
}

/// Whether a package is external: one that lies in a `node_modules` directory.
pub fn is_external_package(package_path: &PackagePath) -> (external: bool)
    ensures
        external == is_external(package_path@.text),
{
    contains(package_path.text.as_str(), "/node_modules/")
}

/// What contracts say of a dependency is what the dependency holds.
pub proof fn law_dependency_is_seen_as_it_is(
    dependency: TypedDependency,
    list: Seq<TypedDependency>,
    i: int,
)
    ensures
        dependency@.name == dependency.name@,
        dependency@.dep_type == dependency.dep_type,
        dependency_models(list).len() == list.len(),
        0 <= i < list.len() ==> dependency_models(list)[i].name == list[i].name@
            && dependency_models(list)[i].dep_type == list[i].dep_type,
{
}

/// For a local package dependencies of every kind are followed. For an external one development and
/// peer dependencies are not.
pub proof fn law_kinds_that_are_followed()
    ensures
        DependencyConfig::local().include_dev_dependencies,
        DependencyConfig::local().include_optional_dependencies,
        DependencyConfig::local().include_peer_dependencies,
        !DependencyConfig::external().include_dev_dependencies,
        DependencyConfig::external().include_optional_dependencies,
        !DependencyConfig::external().include_peer_dependencies,
{
}

/// Every name in a table of the file is collected, once, under the kind of the table: those at run
/// time always, the others if the configuration has them. The names of a table come in their order,
/// and the tables one after the other. Nothing else is collected.
pub proof fn law_every_name_of_a_table_is_collected(
    package_json: PackageJson,
    config: DependencyConfig,
)
    ensures
        ({
            let runtime = match package_json.dependencies {
                Some(table) => table.names(),
                None => Seq::empty(),
            };
            let dev = match package_json.dev_dependencies {
                Some(table) if config.include_dev_dependencies => table.names(),
                _ => Seq::empty(),
            };
            let optional = match package_json.optional_dependencies {
                Some(table) if config.include_optional_dependencies => table.names(),
                _ => Seq::empty(),
            };
            let peer = match package_json.peer_dependencies {
                Some(table) if config.include_peer_dependencies => table.names(),
                _ => Seq::empty(),
            };
            let all = package_json.collected(config);
            &&& all.len() == runtime.len() + dev.len() + optional.len() + peer.len()
            &&& forall|i: int|
                0 <= i < runtime.len() ==> #[trigger] all[i] == (DependencyModel {
                    name: runtime[i],
                    dep_type: DependencyType::Runtime,
                })
            &&& forall|i: int|
                0 <= i < dev.len() ==> #[trigger] all[runtime.len() + i] == (DependencyModel {
                    name: dev[i],
                    dep_type: DependencyType::Dev,
                })
            &&& forall|i: int|
                0 <= i < optional.len() ==> #[trigger] all[runtime.len() + dev.len() + i] == (
                DependencyModel { name: optional[i], dep_type: DependencyType::Optional })
            &&& forall|i: int|
                0 <= i < peer.len() ==> #[trigger] all[runtime.len() + dev.len() + optional.len()
                    + i] == (DependencyModel { name: peer[i], dep_type: DependencyType::Peer })
        }),
{
}

/// A name that is a key of a table of the file is collected under the kind of the table, whatever
/// the name is, if dependencies of this kind are followed.
pub proof fn law_keys_are_collected(
    package_json: PackageJson,
    config: DependencyConfig,
    name: Seq<char>,
)
    ensures
        package_json.dependencies matches Some(table) ==> (table@.contains_key(name)
            <==> package_json.collected(config).contains(
            DependencyModel { name, dep_type: DependencyType::Runtime },
        )),
        package_json.dev_dependencies matches Some(table) ==> (config.include_dev_dependencies
            && table@.contains_key(name) <==> package_json.collected(config).contains(
            DependencyModel { name, dep_type: DependencyType::Dev },
        )),
        package_json.optional_dependencies matches Some(table) ==> (
        config.include_optional_dependencies && table@.contains_key(name)
            <==> package_json.collected(config).contains(
            DependencyModel { name, dep_type: DependencyType::Optional },
        )),
        package_json.peer_dependencies matches Some(table) ==> (config.include_peer_dependencies
            && table@.contains_key(name) <==> package_json.collected(config).contains(
            DependencyModel { name, dep_type: DependencyType::Peer },
        )),
{
    law_collects_what_is_listed(
        package_json,
        config,
        DependencyModel { name, dep_type: DependencyType::Runtime },
    );
    law_collects_what_is_listed(
        package_json,
        config,
        DependencyModel { name, dep_type: DependencyType::Dev },
    );
    law_collects_what_is_listed(
        package_json,
        config,
        DependencyModel { name, dep_type: DependencyType::Optional },
    );
    law_collects_what_is_listed(
        package_json,
        config,
        DependencyModel { name, dep_type: DependencyType::Peer },
    );
}

/// What contracts say of a task of the walk is what the task holds.
pub proof fn law_walk_task_is_seen_as_it_is(
    node: GraphNode<WalkTask>,
    nodes: Seq<GraphNode<WalkTask>>,
    i: int,
)
    ensures
        task_model(node).priority == node.priority,
        task_model(node).dependencies == node.dependencies@,
        node.action matches WalkTask::GetInfo(path) ==> task_model(node).action
            == WalkModel::GetInfo(path@),
        node.action matches WalkTask::Resolve(dependency, path) ==> task_model(node).action
            == WalkModel::Resolve(dependency@, path@),
        task_models(nodes).len() == nodes.len(),
        0 <= i < nodes.len() ==> task_models(nodes)[i] == task_model(nodes[i]),
{
}

/// Each dependency gets a task that looks for it, in their order. All tasks of a walk have the
/// priority one and depend on no other task.
pub proof fn law_each_dependency_gets_a_task(
    deps: Seq<DependencyModel>,
    parent: PathModel,
    step: WalkModel,
    i: int,
)
    ensures
        walk_task(step).priority == 1,
        walk_task(step).dependencies == Seq::<usize>::empty(),
        walk_task(step).action == step,
        resolve_tasks(deps, parent).len() == deps.len(),
        0 <= i < deps.len() ==> {
            &&& resolve_tasks(deps, parent)[i].priority == 1
            &&& resolve_tasks(deps, parent)[i].dependencies == Seq::<usize>::empty()
            &&& resolve_tasks(deps, parent)[i].action == WalkModel::Resolve(deps[i], parent)
        },
{
}

/// A package is external exactly if its path has a `node_modules` directory before its end.
pub proof fn law_external_packages_lie_in_node_modules(
    path: Seq<char>,
    before: Seq<char>,
    after: Seq<char>,
)
    ensures
        path == before + "/node_modules/"@ + after ==> is_external(path),
        is_external(path) ==> exists|i: int|
            0 <= i <= path.len() - "/node_modules/"@.len() && path == #[trigger] path.take(i)
                + "/node_modules/"@ + path.skip(i + "/node_modules/"@.len()),
{
    law_found_is_contained(path, "/node_modules/"@, before, after);
}

} // verus!
