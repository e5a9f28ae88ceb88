//! What a whole walk finds.
//!
//! The laws here are about walks over packages that stay as they are while the walk lasts.

use vstd::prelude::*;

use crate::dependency::{
    is_external, law_collects_what_is_listed, task_model, task_models, walk_task, DependencyModel,
    WalkModel, WalkTask,
};
use crate::f_graph::{
    as_child, depends_backwards, lemma_with_task_keeps_numbers, numbered, refused_children,
    tasks_of, with_children,
};
use crate::graph_node::GraphNode;
use crate::node::TaskModel;
use crate::package::{PackageJson, PackageModel, PathModel};
use crate::schedule::Schedule;
use crate::scheduler::{is_round, law_round, Round};
use crate::walker::{
    config_for, dependencies_of, is_required, law_nothing_is_forgotten, law_package_is_recorded_once,
    law_path_is_taken_once, package_at, steps_after_finding, steps_after_reading, StateModel,
};

verus! {

/// The packages that a walk finds in the file system.
pub struct FileTree {
    /// The number of the canonical path of a path.
    pub canonical: spec_fn(PathModel) -> u64,
    /// The path of a dependency, by the path of the package that depends on it and its name.
    pub resolve: spec_fn(PathModel, Seq<char>) -> Option<PathModel>,
    /// The contents of the `package.json` at a path.
    pub manifest: spec_fn(PathModel) -> PackageJson,
}

impl FileTree {
    /// The dependencies that are followed for the package at a path.
    pub open spec fn dependencies(self, path: PathModel) -> Seq<DependencyModel> {
        dependencies_of(path, (self.manifest)(path))
    }

    /// The package at a path.
    pub open spec fn package(self, path: PathModel) -> PackageModel {
        package_at(path, (self.manifest)(path))
    }

    /// Whether following a dependency of the package at `from` leads to `to`.
    pub open spec fn leads(self, from: PathModel, to: PathModel) -> bool {
        exists|d: DependencyModel| #[trigger]
            self.dependencies(from).contains(d) && (self.resolve)(from, d.name) == Some(to)
    }

    /// Whether each path of a list is reached from the one before by following a dependency.
    pub open spec fn is_path(self, list: Seq<PathModel>) -> bool {
        forall|i: int| 0 < i < list.len() ==> self.leads(list[i - 1], #[trigger] list[i])
    }

    /// Whether a path is reached from another by following dependencies.
    pub open spec fn reachable(self, root: PathModel, path: PathModel) -> bool {
        exists|list: Seq<PathModel>| #[trigger]
            self.is_path(list) && list.len() > 0 && list[0] == root && list.last() == path
    }
}

/// A walk at some point: its steps in the order in which they were added, those that were taken,
/// and what was found out.
#[verifier::ext_equal]
pub struct Walk {
    pub steps: Seq<WalkModel>,
    pub taken: Set<int>,
    pub state: StateModel,
}

impl Walk {
    /// The start of a walk with what an earlier one has found out.
    pub open spec fn again(root: PathModel, state: StateModel) -> Self {
        Walk { steps: seq![WalkModel::GetInfo(root)], taken: Set::empty(), state }
    }

    /// The walk at its start.
    pub open spec fn start(root: PathModel) -> Self {
        Walk::again(root, StateModel::empty())
    }

    /// Whether a step is there to be taken.
    pub open spec fn is_open(self, id: int) -> bool {
        0 <= id < self.steps.len() && !self.taken.contains(id)
    }

    /// Whether all steps were taken.
    pub open spec fn is_over(self) -> bool {
        forall|id: int| 0 <= id < self.steps.len() ==> #[trigger] self.taken.contains(id)
    }
}

/// The state after a step; a step that fails has none.
pub open spec fn state_after(tree: FileTree, state: StateModel, step: WalkModel) -> Option<
    StateModel,
> {
    match step {
        WalkModel::GetInfo(path) => Some(
            state.with_package((tree.canonical)(path), tree.package(path)),
        ),
        WalkModel::Resolve(dependency, parent) => match (tree.resolve)(parent, dependency.name) {
            Some(path) => Some(state.with_claimed((tree.canonical)(path))),
            None => if is_required(dependency.dep_type) {
                None
            } else {
                Some(state)
            },
        },
    }
}

/// The tasks that a step adds.
pub open spec fn tasks_after(tree: FileTree, state: StateModel, step: WalkModel) -> Seq<
    TaskModel<usize, WalkModel>,
> {
    match step {
        WalkModel::GetInfo(path) => steps_after_reading(
            state,
            path,
            (tree.canonical)(path),
            (tree.manifest)(path),
        ),
        WalkModel::Resolve(dependency, parent) => match (tree.resolve)(parent, dependency.name) {
            Some(path) => steps_after_finding(state, path, (tree.canonical)(path)),
            None => Seq::empty(),
        },
    }
}

/// The steps of some tasks.
pub open spec fn steps_of(tasks: Seq<TaskModel<usize, WalkModel>>) -> Seq<WalkModel> {
    tasks.map_values(|task: TaskModel<usize, WalkModel>| task.action)
}

/// Whether the walk `post` comes from `pre` by taking a step.
pub open spec fn advances(tree: FileTree, pre: Walk, id: int, post: Walk) -> bool {
    &&& pre.is_open(id)
    &&& state_after(tree, pre.state, pre.steps[id]) == Some(post.state)
    &&& post.steps == pre.steps + steps_of(tasks_after(tree, pre.state, pre.steps[id]))
    &&& post.taken == pre.taken.insert(id)
}

/// Whether `walks` are the successive points of a walk that takes the steps `ids`.
pub open spec fn is_walk(tree: FileTree, root: PathModel, walks: Seq<Walk>, ids: Seq<int>) -> bool {
    &&& walks.len() == ids.len() + 1
    &&& walks[0] == Walk::start(root)
    &&& forall|i: int|
        0 <= i < ids.len() ==> advances(tree, walks[i], #[trigger] ids[i], walks[i + 1])
}

/// Whether a step is one that the walk has a reason for.
pub open spec fn is_justified(tree: FileTree, root: PathModel, step: WalkModel) -> bool {
    match step {
        WalkModel::GetInfo(path) => tree.reachable(root, path),
        WalkModel::Resolve(dependency, parent) => tree.reachable(root, parent)
            && tree.dependencies(parent).contains(dependency),
    }
}

/// Whether the search for a dependency has come to something.
pub open spec fn is_settled(
    tree: FileTree,
    state: StateModel,
    d: DependencyModel,
    parent: PathModel,
) -> bool {
    match (tree.resolve)(parent, d.name) {
        Some(path) => state.is_taken((tree.canonical)(path)),
        None => !is_required(d.dep_type),
    }
}

/// Whether the walk has steps that look for each dependency of the package at a path.
pub open spec fn is_expanded(tree: FileTree, walk: Walk, path: PathModel) -> bool {
    forall|d: DependencyModel| #[trigger]
        tree.dependencies(path).contains(d) ==> walk.steps.contains(WalkModel::Resolve(d, path))
}

/// Whether the package at a path was recorded: the path is discovered, its dependencies are looked
/// for, and there is a package of its name.
#[verifier::opaque]
pub open spec fn is_recorded(tree: FileTree, walk: Walk, path: PathModel) -> bool {
    &&& walk.state.discovered_paths.contains((tree.canonical)(path))
    &&& walk.state.discovered.contains_key(tree.package(path).name)
    &&& is_expanded(tree, walk, path)
}

/// What holds at every point of a walk.
pub open spec fn is_consistent(tree: FileTree, root: PathModel, walk: Walk) -> bool {
    &&& walk.state.sound()
    &&& walk.steps.len() > 0
    &&& walk.steps[0] == WalkModel::GetInfo(root)
    &&& forall|i: int| #[trigger] walk.taken.contains(i) ==> 0 <= i < walk.steps.len()
    // The root is read first.
    &&& if walk.taken.contains(0) {
        is_recorded(tree, walk, root)
    } else {
        walk == Walk::start(root)
    }
    // Every step has a reason.
    &&& forall|i: int|
        0 <= i < walk.steps.len() ==> is_justified(tree, root, #[trigger] walk.steps[i])
    // A path that was read is discovered.
    &&& forall|i: int|
        #![trigger walk.steps[i]]
        0 <= i < walk.steps.len() && walk.taken.contains(i) && walk.steps[i] is GetInfo
            ==> walk.state.discovered_paths.contains(
            (tree.canonical)(walk.steps[i]->GetInfo_0),
        )
    // Once the root was read, every path that is read was taken for that.
    &&& forall|i: int|
        #![trigger walk.steps[i]]
        0 <= i < walk.steps.len() && walk.taken.contains(0) && walk.steps[i] is GetInfo
            ==> walk.state.is_taken((tree.canonical)(walk.steps[i]->GetInfo_0))
    // No two of them are the same.
    &&& forall|i: int, j: int|
        0 <= i < j < walk.steps.len() && (#[trigger] walk.steps[i]) is GetInfo && (
        #[trigger] walk.steps[j]) is GetInfo ==> (tree.canonical)(walk.steps[i]->GetInfo_0) != (
        tree.canonical)(walk.steps[j]->GetInfo_0)
    // A search that was made has come to something.
    &&& forall|i: int|
        #![trigger walk.steps[i]]
        0 <= i < walk.steps.len() && walk.taken.contains(i) && walk.steps[i] is Resolve
            ==> is_settled(
            tree,
            walk.state,
            walk.steps[i]->Resolve_0,
            walk.steps[i]->Resolve_1,
        )
    // A path that is being read has an open step.
    &&& forall|c: u64| #[trigger]
        walk.state.processing.contains(c) ==> exists|i: int|
            walk.is_open(i) && #[trigger] walk.steps[i] is GetInfo && (tree.canonical)(
                walk.steps[i]->GetInfo_0,
            ) == c
    // A discovered path is that of a package that was recorded.
    &&& forall|c: u64| #[trigger]
        walk.state.discovered_paths.contains(c) ==> exists|path: PathModel|
            (tree.canonical)(path) == c && #[trigger] tree.reachable(root, path) && is_recorded(
                tree,
                walk,
                path,
            )
    // A discovered package was recorded.
    &&& forall|name: Seq<char>| #[trigger]
        walk.state.discovered.contains_key(name) ==> exists|path: PathModel| #[trigger]
            tree.reachable(root, path) && is_recorded(tree, walk, path)
                && walk.state.discovered[name] == tree.package(path)
}

/// The root is reached from itself.
proof fn lemma_root_is_reachable(tree: FileTree, root: PathModel)
    ensures
        tree.reachable(root, root),
{
    let list = seq![root];
    assert(tree.is_path(list));
    assert(list[0] == root && list.last() == root);
}

/// What a dependency of a reachable package leads to is reachable.
proof fn lemma_reach_further(tree: FileTree, root: PathModel, from: PathModel, to: PathModel)
    requires
        tree.reachable(root, from),
        tree.leads(from, to),
    ensures
        tree.reachable(root, to),
{
    let list = choose|list: Seq<PathModel>| #[trigger]
        tree.is_path(list) && list.len() > 0 && list[0] == root && list.last() == from;
    let longer = list.push(to);
    assert forall|i: int| 0 < i < longer.len() implies tree.leads(
        longer[i - 1],
        #[trigger] longer[i],
    ) by {
        if i < list.len() {
            assert(tree.leads(list[i - 1], list[i]));
        }
    }
    assert(tree.is_path(longer));
    assert(longer[0] == root && longer.last() == to);
}

/// The start of a walk is consistent.
proof fn lemma_start_is_consistent(tree: FileTree, root: PathModel)
    ensures
        is_consistent(tree, root, Walk::start(root)),
{
    lemma_root_is_reachable(tree, root);
}

/// What it takes for a package to be recorded.
proof fn lemma_record(tree: FileTree, walk: Walk, path: PathModel)
    requires
        walk.state.discovered_paths.contains((tree.canonical)(path)),
        walk.state.discovered.contains_key(tree.package(path).name),
        is_expanded(tree, walk, path),
    ensures
        is_recorded(tree, walk, path),
{
    reveal(is_recorded);
}

/// When a walk is over, all is known of what was recorded.
proof fn lemma_recorded_is_complete(tree: FileTree, walk: Walk, path: PathModel)
    requires
        is_recorded(tree, walk, path),
        walk.is_over(),
        walk.state.processing == Set::<u64>::empty(),
        forall|i: int|
            #![trigger walk.steps[i]]
            0 <= i < walk.steps.len() && walk.taken.contains(i) && walk.steps[i] is Resolve
                ==> is_settled(
                tree,
                walk.state,
                walk.steps[i]->Resolve_0,
                walk.steps[i]->Resolve_1,
            ),
    ensures
        is_complete(tree, walk.state, path),
{
    reveal(is_recorded);
    reveal(is_complete);
    let state = walk.state;
    assert forall|d: DependencyModel| #[trigger]
        tree.dependencies(path).contains(d) implies match (tree.resolve)(path, d.name) {
        Some(found) => state.discovered_paths.contains((tree.canonical)(found)),
        None => !is_required(d.dep_type),
    } by {
        let i = walk.steps.index_of(WalkModel::Resolve(d, path));
        assert(walk.steps[i] == WalkModel::Resolve(d, path));
        assert(walk.taken.contains(i));
        assert(is_settled(tree, state, d, path));
    }
}

/// What is known of a path of which all is known.
pub proof fn lemma_complete(tree: FileTree, state: StateModel, path: PathModel)
    requires
        is_complete(tree, state, path),
    ensures
        state.discovered_paths.contains((tree.canonical)(path)),
        state.discovered.contains_key(tree.package(path).name),
        is_closed(tree, state, path),
{
    reveal(is_complete);
}

/// What was recorded stays recorded.
proof fn lemma_recorded_stays(tree: FileTree, pre: Walk, post: Walk, path: PathModel)
    requires
        is_recorded(tree, pre, path),
        pre.steps.len() <= post.steps.len(),
        forall|i: int| 0 <= i < pre.steps.len() ==> #[trigger] post.steps[i] == pre.steps[i],
        pre.state.discovered_paths.subset_of(post.state.discovered_paths),
        pre.state.discovered.dom().subset_of(post.state.discovered.dom()),
    ensures
        is_recorded(tree, post, path),
{
    reveal(is_recorded);
    assert(post.state.discovered.dom().contains(tree.package(path).name)) by {
        assert(pre.state.discovered.dom().contains(tree.package(path).name));
    }
    assert forall|d: DependencyModel| #[trigger]
        tree.dependencies(path).contains(d) implies post.steps.contains(
        WalkModel::Resolve(d, path),
    ) by {
        let i = pre.steps.index_of(WalkModel::Resolve(d, path));
        assert(post.steps[i] == WalkModel::Resolve(d, path));
    }
}

/// Every discovered path and package is that of a package that was recorded, if that held before
/// and the walk has since found out about one package at most.
proof fn lemma_recorded_covers(
    tree: FileTree,
    root: PathModel,
    pre: Walk,
    post: Walk,
    here: PathModel,
)
    requires
        is_consistent(tree, root, pre),
        pre.steps.len() <= post.steps.len(),
        forall|i: int| 0 <= i < pre.steps.len() ==> #[trigger] post.steps[i] == pre.steps[i],
        pre.state.discovered_paths.subset_of(post.state.discovered_paths),
        pre.state.discovered.dom().subset_of(post.state.discovered.dom()),
        tree.reachable(root, here),
        forall|c: u64| #[trigger]
            post.state.discovered_paths.contains(c) ==> pre.state.discovered_paths.contains(c) || (
            c == (tree.canonical)(here) && is_recorded(tree, post, here)),
        forall|name: Seq<char>| #[trigger]
            post.state.discovered.contains_key(name) ==> (pre.state.discovered.contains_key(name)
                && post.state.discovered[name] == pre.state.discovered[name]) || (
            post.state.discovered[name] == tree.package(here) && is_recorded(tree, post, here)),
    ensures
        forall|c: u64| #[trigger]
            post.state.discovered_paths.contains(c) ==> exists|path: PathModel|
                (tree.canonical)(path) == c && #[trigger] tree.reachable(root, path)
                    && is_recorded(tree, post, path),
        forall|name: Seq<char>| #[trigger]
            post.state.discovered.contains_key(name) ==> exists|path: PathModel| #[trigger]
                tree.reachable(root, path) && is_recorded(tree, post, path)
                    && post.state.discovered[name] == tree.package(path),
{
    assert forall|c: u64| #[trigger] post.state.discovered_paths.contains(c) implies exists|
        path: PathModel,
    |
        (tree.canonical)(path) == c && #[trigger] tree.reachable(root, path) && is_recorded(
            tree,
            post,
            path,
        ) by {
        if pre.state.discovered_paths.contains(c) {
            let path = choose|path: PathModel|
                (tree.canonical)(path) == c && #[trigger] tree.reachable(root, path)
                    && is_recorded(tree, pre, path);
            lemma_recorded_stays(tree, pre, post, path);
        }
    }
    assert forall|name: Seq<char>| #[trigger]
        post.state.discovered.contains_key(name) implies exists|path: PathModel| #[trigger]
        tree.reachable(root, path) && is_recorded(tree, post, path)
            && post.state.discovered[name] == tree.package(path) by {
        if pre.state.discovered.contains_key(name) && post.state.discovered[name]
            == pre.state.discovered[name] {
            let path = choose|path: PathModel| #[trigger]
                tree.reachable(root, path) && is_recorded(tree, pre, path)
                    && pre.state.discovered[name] == tree.package(path);
            lemma_recorded_stays(tree, pre, post, path);
        }
    }
}

/// Reading a package keeps a walk consistent.
proof fn lemma_reading_keeps_consistent(
    tree: FileTree,
    root: PathModel,
    pre: Walk,
    id: int,
    post: Walk,
)
    requires
        is_consistent(tree, root, pre),
        advances(tree, pre, id, post),
        pre.steps[id] is GetInfo,
    ensures
        is_consistent(tree, root, post),
{
    let here = pre.steps[id]->GetInfo_0;
    let c = (tree.canonical)(here);
    let package = tree.package(here);
    let deps = tree.dependencies(here);
    let fresh = steps_of(tasks_after(tree, pre.state, pre.steps[id]));
    let n = pre.steps.len() as int;
    law_package_is_recorded_once(pre.state, c, package, package);
    assert(is_justified(tree, root, pre.steps[id]));
    assert(tree.reachable(root, here));
    assert forall|i: int| n <= i < post.steps.len() implies post.steps[i] == WalkModel::Resolve(
        deps[i - n],
        here,
    ) && 0 <= i - n < deps.len() by {
        assert(post.steps[i] == fresh[i - n]);
    }
    assert forall|i: int| 0 <= i < n implies #[trigger] post.steps[i] == pre.steps[i] by {}
    assert forall|i: int| 0 <= i < post.steps.len() implies is_justified(
        tree,
        root,
        #[trigger] post.steps[i],
    ) by {
        if i < n {
            assert(is_justified(tree, root, pre.steps[i]));
        } else {
            assert(deps.contains(deps[i - n]));
        }
    }
    assert forall|i: int|
        #![trigger post.steps[i]]
        0 <= i < post.steps.len() && post.steps[i] is GetInfo implies post.state.is_taken(
        (tree.canonical)(post.steps[i]->GetInfo_0),
    ) by {
        assert(i < n);
        if pre.taken.contains(0) {
            law_nothing_is_forgotten(
                pre.state,
                (tree.canonical)(pre.steps[i]->GetInfo_0),
                c,
                package,
            );
        }
    }
    assert forall|i: int|
        #![trigger post.steps[i]]
        0 <= i < post.steps.len() && post.taken.contains(i) && post.steps[i] is Resolve implies
        is_settled(tree, post.state, post.steps[i]->Resolve_0, post.steps[i]->Resolve_1) by {
        if i < n {
            assert(pre.taken.contains(i));
            let d = pre.steps[i]->Resolve_0;
            let parent = pre.steps[i]->Resolve_1;
            assert(is_settled(tree, pre.state, d, parent));
            if let Some(path) = (tree.resolve)(parent, d.name) {
                law_nothing_is_forgotten(pre.state, (tree.canonical)(path), c, package);
            }
        } else {
            assert(!post.taken.contains(i));
        }
    }
    assert forall|k: u64| #[trigger] post.state.processing.contains(k) implies exists|i: int|
        post.is_open(i) && #[trigger] post.steps[i] is GetInfo && (tree.canonical)(
            post.steps[i]->GetInfo_0,
        ) == k by {
        assert(pre.state.processing.contains(k));
        let i = choose|i: int|
            pre.is_open(i) && #[trigger] pre.steps[i] is GetInfo && (tree.canonical)(
                pre.steps[i]->GetInfo_0,
            ) == k;
        assert(post.steps[i] == pre.steps[i]);
        assert(post.is_open(i));
    }
    if !pre.state.discovered_paths.contains(c) {
        assert forall|d: DependencyModel| #[trigger]
            tree.dependencies(here).contains(d) implies post.steps.contains(
            WalkModel::Resolve(d, here),
        ) by {
            let j = deps.index_of(d);
            assert(fresh[j] == WalkModel::Resolve(d, here));
            assert(post.steps[n + j] == WalkModel::Resolve(d, here));
        }
        lemma_record(tree, post, here);
    }
    if pre.taken.contains(0) {
        lemma_recorded_stays(tree, pre, post, root);
    } else {
        assert(pre == Walk::start(root));
        assert(id == 0);
        assert(here == root);
    }
    lemma_recorded_covers(tree, root, pre, post, here);
}

/// Looking for a dependency keeps a walk consistent.
proof fn lemma_resolving_keeps_consistent(
    tree: FileTree,
    root: PathModel,
    pre: Walk,
    id: int,
    post: Walk,
)
    requires
        is_consistent(tree, root, pre),
        advances(tree, pre, id, post),
        pre.steps[id] is Resolve,
    ensures
        is_consistent(tree, root, post),
{
    let d = pre.steps[id]->Resolve_0;
    let parent = pre.steps[id]->Resolve_1;
    let n = pre.steps.len() as int;
    let fresh = steps_of(tasks_after(tree, pre.state, pre.steps[id]));
    assert(is_justified(tree, root, pre.steps[id]));
    assert(pre.taken.contains(0));
    assert forall|i: int| 0 <= i < n implies #[trigger] post.steps[i] == pre.steps[i] by {}
    match (tree.resolve)(parent, d.name) {
        None => {
            assert(fresh.len() == 0);
            assert(post.steps =~= pre.steps);
            assert forall|k: u64| #[trigger]
                post.state.processing.contains(k) implies exists|i: int|
                post.is_open(i) && #[trigger] post.steps[i] is GetInfo && (tree.canonical)(
                    post.steps[i]->GetInfo_0,
                ) == k by {
                let i = choose|i: int|
                    pre.is_open(i) && #[trigger] pre.steps[i] is GetInfo && (tree.canonical)(
                        pre.steps[i]->GetInfo_0,
                    ) == k;
                assert(post.is_open(i) && post.steps[i] is GetInfo);
            }
        },
        Some(path) => {
            let c = (tree.canonical)(path);
            law_path_is_taken_once(pre.state, c);
            assert(tree.leads(parent, path)) by {
                assert(tree.dependencies(parent).contains(d));
            }
            lemma_reach_further(tree, root, parent, path);
            assert forall|i: int| n <= i < post.steps.len() implies i == n && #[trigger]
                post.steps[i] == WalkModel::GetInfo(path) && !pre.state.is_taken(c) by {
                assert(post.steps[i] == fresh[i - n]);
            }
            assert forall|k: u64| #[trigger]
                post.state.processing.contains(k) implies exists|i: int|
                post.is_open(i) && #[trigger] post.steps[i] is GetInfo && (tree.canonical)(
                    post.steps[i]->GetInfo_0,
                ) == k by {
                if pre.state.processing.contains(k) {
                    let i = choose|i: int|
                        pre.is_open(i) && #[trigger] pre.steps[i] is GetInfo && (tree.canonical)(
                            pre.steps[i]->GetInfo_0,
                        ) == k;
                    assert(post.is_open(i) && post.steps[i] is GetInfo);
                } else {
                    assert(k == c && !pre.state.is_taken(c));
                    assert(fresh.len() == 1);
                    assert(post.steps[n] == WalkModel::GetInfo(path));
                    assert(post.is_open(n));
                }
            }
        },
    }
    lemma_recorded_stays(tree, pre, post, root);
    lemma_recorded_covers(tree, root, pre, post, parent);
}

/// Every point of a walk is consistent.
proof fn lemma_walk_is_consistent(
    tree: FileTree,
    root: PathModel,
    walks: Seq<Walk>,
    ids: Seq<int>,
    n: int,
)
    requires
        is_walk(tree, root, walks, ids),
        0 <= n < walks.len(),
    ensures
        is_consistent(tree, root, walks[n]),
    decreases n,
{
    if n == 0 {
        lemma_start_is_consistent(tree, root);
    } else {
        lemma_walk_is_consistent(tree, root, walks, ids, n - 1);
        assert(advances(tree, walks[n - 1], ids[n - 1], walks[n - 1 + 1]));
        if walks[n - 1].steps[ids[n - 1]] is GetInfo {
            lemma_reading_keeps_consistent(tree, root, walks[n - 1], ids[n - 1], walks[n]);
        } else {
            lemma_resolving_keeps_consistent(tree, root, walks[n - 1], ids[n - 1], walks[n]);
        }
    }
}

/// Whether the package at a path is done with: each dependency that is followed was found at a
/// path that is discovered, or was not found and is not required.
pub open spec fn is_closed(tree: FileTree, state: StateModel, path: PathModel) -> bool {
    forall|d: DependencyModel| #[trigger]
        tree.dependencies(path).contains(d) ==> match (tree.resolve)(path, d.name) {
            Some(found) => state.discovered_paths.contains((tree.canonical)(found)),
            None => !is_required(d.dep_type),
        }
}

/// Whether all is known of the package at a path: the path is discovered, there is a package of its
/// name, and it is done with.
#[verifier::opaque]
pub open spec fn is_complete(tree: FileTree, state: StateModel, path: PathModel) -> bool {
    &&& state.discovered_paths.contains((tree.canonical)(path))
    &&& state.discovered.contains_key(tree.package(path).name)
    &&& is_closed(tree, state, path)
}

/// What a walk from a root is to find out.
///
/// Nothing is left to be read. All is known of the root, of some path for every discovered path,
/// and of the path of every discovered package. A discovered package is filed under its name and
/// is the one that lies at its path. Whatever was discovered is reached from the root by following
/// dependencies.
pub open spec fn is_result(tree: FileTree, root: PathModel, state: StateModel) -> bool {
    &&& state.processing == Set::<u64>::empty()
    &&& is_complete(tree, state, root)
    &&& forall|c: u64| #[trigger]
        state.discovered_paths.contains(c) ==> exists|path: PathModel|
            (tree.canonical)(path) == c && #[trigger] tree.reachable(root, path) && is_complete(
                tree,
                state,
                path,
            )
    &&& forall|name: Seq<char>| #[trigger]
        state.discovered.contains_key(name) ==> {
            let package = state.discovered[name];
            &&& package.name == name
            &&& package == tree.package(package.path)
            &&& tree.reachable(root, package.path)
            &&& is_complete(tree, state, package.path)
        }
}

/// A walk that ends has discovered the root and, with a package, all the packages that its
/// dependencies lead to, and no required dependency was missing. All that was discovered is
/// reached from the root by following dependencies.
pub proof fn law_walk_discovers_dependencies(
    tree: FileTree,
    root: PathModel,
    walks: Seq<Walk>,
    ids: Seq<int>,
)
    requires
        is_walk(tree, root, walks, ids),
        walks.last().is_over(),
    ensures
        is_result(tree, root, walks.last().state),
{
    let walk = walks.last();
    let state = walk.state;
    lemma_walk_is_consistent(tree, root, walks, ids, walks.len() - 1);
    assert(walk.taken.contains(0));
    assert forall|c: u64| !state.processing.contains(c) by {
        if state.processing.contains(c) {
            let i = choose|i: int|
                walk.is_open(i) && #[trigger] walk.steps[i] is GetInfo && (tree.canonical)(
                    walk.steps[i]->GetInfo_0,
                ) == c;
            assert(walk.taken.contains(i));
        }
    }
    assert(state.processing =~= Set::<u64>::empty());
    assert forall|path: PathModel| is_recorded(tree, walk, path) implies #[trigger] is_complete(
        tree,
        state,
        path,
    ) by {
        lemma_recorded_is_complete(tree, walk, path);
    }
    assert forall|c: u64| #[trigger] state.discovered_paths.contains(c) implies exists|
        path: PathModel,
    |
        (tree.canonical)(path) == c && #[trigger] tree.reachable(root, path) && is_complete(
            tree,
            state,
            path,
        ) by {
        let path = choose|path: PathModel|
            (tree.canonical)(path) == c && #[trigger] tree.reachable(root, path) && is_recorded(
                tree,
                walk,
                path,
            );
        assert(is_complete(tree, state, path));
    }
    assert forall|name: Seq<char>| #[trigger] state.discovered.contains_key(name) implies {
        let package = state.discovered[name];
        &&& package.name == name
        &&& package == tree.package(package.path)
        &&& tree.reachable(root, package.path)
        &&& is_complete(tree, state, package.path)
    } by {
        let path = choose|path: PathModel| #[trigger]
            tree.reachable(root, path) && is_recorded(tree, walk, path) && state.discovered[name]
                == tree.package(path);
        assert(state.discovered[name].path == path);
        assert(is_complete(tree, state, path));
    }
}

/// In the result of a walk, every dependency that a package needs at run time, and for development
/// too if the package is a local one, was found at a discovered path.
pub proof fn law_required_dependencies_are_discovered(
    tree: FileTree,
    state: StateModel,
    path: PathModel,
    d: DependencyModel,
)
    requires
        is_complete(tree, state, path),
        (tree.manifest)(path).listed(d.dep_type).contains(d.name),
        d.dep_type is Runtime || (d.dep_type is Dev && !is_external(path.text)),
    ensures
        (tree.resolve)(path, d.name) is Some,
        state.discovered_paths.contains(
            (tree.canonical)((tree.resolve)(path, d.name)->Some_0),
        ),
{
    lemma_complete(tree, state, path);
    law_collects_what_is_listed((tree.manifest)(path), config_for(path.text), d);
    assert(tree.dependencies(path).contains(d));
}

/// A second walk finds nothing new: it takes one step, which reads the root, and leaves the result
/// of the first walk as it is.
pub proof fn law_second_walk_changes_nothing(
    tree: FileTree,
    root: PathModel,
    state: StateModel,
    id: int,
    post: Walk,
)
    requires
        is_result(tree, root, state),
        advances(tree, Walk::again(root, state), id, post),
    ensures
        id == 0,
        post.is_over(),
        post.state == state,
{
    lemma_complete(tree, state, root);
    assert(post.state =~= state);
    assert(post.steps =~= Walk::again(root, state).steps);
    assert(post.taken.contains(0));
}

/// Whether paths with the same canonical path lead to the same places.
pub open spec fn is_uniform(tree: FileTree) -> bool {
    forall|from: PathModel, to: PathModel, other: PathModel|
        #[trigger] tree.leads(from, to) && (tree.canonical)(other) == (tree.canonical)(from)
            ==> #[trigger] leads_like(tree, other, to)
}

/// Whether a dependency of the package at `from` leads to the same place as `to`.
pub open spec fn leads_like(tree: FileTree, from: PathModel, to: PathModel) -> bool {
    exists|path: PathModel| #[trigger]
        tree.leads(from, path) && (tree.canonical)(path) == (tree.canonical)(to)
}

/// Where the way in which a path is written makes no difference, a walk that ends has discovered
/// exactly the packages that are reached from the root by following dependencies.
pub proof fn law_walk_discovers_all_that_is_reachable(
    tree: FileTree,
    root: PathModel,
    walks: Seq<Walk>,
    ids: Seq<int>,
    c: u64,
)
    requires
        is_walk(tree, root, walks, ids),
        walks.last().is_over(),
        is_uniform(tree),
    ensures
        walks.last().state.discovered_paths.contains(c) <==> exists|path: PathModel|
            #[trigger] tree.reachable(root, path) && (tree.canonical)(path) == c,
{
    let state = walks.last().state;
    law_walk_discovers_dependencies(tree, root, walks, ids);
    lemma_complete(tree, state, root);
    if exists|path: PathModel| #[trigger]
        tree.reachable(root, path) && (tree.canonical)(path) == c {
        let path = choose|path: PathModel| #[trigger]
            tree.reachable(root, path) && (tree.canonical)(path) == c;
        let list = choose|list: Seq<PathModel>| #[trigger]
            tree.is_path(list) && list.len() > 0 && list[0] == root && list.last() == path;
        lemma_path_is_discovered(tree, root, state, list, list.len() - 1);
    }
}

proof fn lemma_path_is_discovered(
    tree: FileTree,
    root: PathModel,
    state: StateModel,
    list: Seq<PathModel>,
    n: int,
)
    requires
        is_uniform(tree),
        tree.is_path(list),
        0 <= n < list.len(),
        list[0] == root,
        state.discovered_paths.contains((tree.canonical)(root)),
        forall|c: u64| #[trigger]
            state.discovered_paths.contains(c) ==> exists|path: PathModel|
                (tree.canonical)(path) == c && #[trigger] tree.reachable(root, path) && is_complete(
                    tree,
                    state,
                    path,
                ),
    ensures
        state.discovered_paths.contains((tree.canonical)(list[n])),
    decreases n,
{
    if n > 0 {
        lemma_path_is_discovered(tree, root, state, list, n - 1);
        let c = (tree.canonical)(list[n - 1]);
        let from = choose|path: PathModel|
            (tree.canonical)(path) == c && #[trigger] tree.reachable(root, path) && is_complete(
                tree,
                state,
                path,
            );
        assert(tree.leads(list[n - 1], list[n]));
        assert(leads_like(tree, from, list[n]));
        let to = choose|path: PathModel| #[trigger]
            tree.leads(from, path) && (tree.canonical)(path) == (tree.canonical)(list[n]);
        let d = choose|d: DependencyModel| #[trigger]
            tree.dependencies(from).contains(d) && (tree.resolve)(from, d.name) == Some(to);
        assert(tree.dependencies(from).contains(d));
        lemma_complete(tree, state, from);
    }
}

/// At every point of a walk, the packages at two paths that are read have different canonical
/// paths: no package is read twice.
pub proof fn law_package_is_read_once(
    tree: FileTree,
    root: PathModel,
    walks: Seq<Walk>,
    ids: Seq<int>,
    i: int,
    j: int,
)
    requires
        is_walk(tree, root, walks, ids),
        0 <= i < j < walks.last().steps.len(),
        walks.last().steps[i] is GetInfo,
        walks.last().steps[j] is GetInfo,
    ensures
        (tree.canonical)(walks.last().steps[i]->GetInfo_0) != (tree.canonical)(
            walks.last().steps[j]->GetInfo_0,
        ),
{
    lemma_walk_is_consistent(tree, root, walks, ids, walks.len() - 1);
}

/// The paths that were read or are being read.
pub open spec fn taken_paths(state: StateModel) -> Set<u64> {
    state.discovered_paths.union(state.processing)
}

/// Where there are finitely many packages and none has more than `most` dependencies, a walk comes
/// to an end: it has no more steps than one for the root, one for each package, and one for each
/// dependency of a package.
pub proof fn law_walk_comes_to_an_end(
    tree: FileTree,
    root: PathModel,
    walks: Seq<Walk>,
    ids: Seq<int>,
    all: Set<u64>,
    most: nat,
)
    requires
        is_walk(tree, root, walks, ids),
        all.finite(),
        forall|path: PathModel| #[trigger]
            tree.reachable(root, path) ==> all.contains((tree.canonical)(path))
                && tree.dependencies(path).len() <= most,
    ensures
        ids.len() <= walks.last().steps.len() <= 1 + all.len() + all.len() * most,
{
    let n = walks.len() - 1;
    lemma_walk_is_bounded(tree, root, walks, ids, all, most, n);
    let state = walks.last().state;
    vstd::set_lib::lemma_len_subset(taken_paths(state), all);
    vstd::set_lib::lemma_len_subset(state.discovered_paths, all);
    assert(state.discovered_paths.len() * most <= all.len() * most) by (nonlinear_arith)
        requires
            state.discovered_paths.len() <= all.len(),
    ;
    let steps = walks.last().steps;
    let range = vstd::set_lib::set_int_range(0, steps.len() as int);
    vstd::set_lib::lemma_int_range(0, steps.len() as int);
    lemma_walk_is_consistent(tree, root, walks, ids, n);
    assert(walks.last().taken.subset_of(range));
    vstd::set_lib::lemma_len_subset(walks.last().taken, range);
}

proof fn lemma_walk_is_bounded(
    tree: FileTree,
    root: PathModel,
    walks: Seq<Walk>,
    ids: Seq<int>,
    all: Set<u64>,
    most: nat,
    n: int,
)
    requires
        is_walk(tree, root, walks, ids),
        0 <= n < walks.len(),
        all.finite(),
        forall|path: PathModel| #[trigger]
            tree.reachable(root, path) ==> all.contains((tree.canonical)(path))
                && tree.dependencies(path).len() <= most,
    ensures
        taken_paths(walks[n].state).subset_of(all),
        walks[n].taken.finite(),
        walks[n].taken.len() == n,
        walks[n].steps.len() <= 1 + taken_paths(walks[n].state).len()
            + walks[n].state.discovered_paths.len() * most,
    decreases n,
{
    if n == 0 {
        assert(taken_paths(walks[0].state) =~= Set::<u64>::empty());
        assert(0 * most == 0) by (nonlinear_arith);
    } else {
        let pre = walks[n - 1];
        let post = walks[n];
        let id = ids[n - 1];
        lemma_walk_is_bounded(tree, root, walks, ids, all, most, n - 1);
        lemma_walk_is_consistent(tree, root, walks, ids, n - 1);
        assert(advances(tree, walks[n - 1], ids[n - 1], walks[n - 1 + 1]));
        assert(is_justified(tree, root, pre.steps[id]));
        vstd::set_lib::lemma_len_subset(taken_paths(pre.state), all);
        vstd::set_lib::lemma_len_subset(pre.state.discovered_paths, all);
        match pre.steps[id] {
            WalkModel::GetInfo(path) => {
                let c = (tree.canonical)(path);
                assert(taken_paths(post.state) =~= taken_paths(pre.state).insert(c));
                if pre.state.discovered_paths.contains(c) {
                    assert(taken_paths(post.state) =~= taken_paths(pre.state));
                } else {
                    let before = pre.state.discovered_paths.len();
                    assert((before + 1) * most == before * most + most) by (nonlinear_arith);
                }
            },
            WalkModel::Resolve(d, parent) => {
                if let Some(path) = (tree.resolve)(parent, d.name) {
                    let c = (tree.canonical)(path);
                    assert(tree.leads(parent, path)) by {
                        assert(tree.dependencies(parent).contains(d));
                    }
                    lemma_reach_further(tree, root, parent, path);
                    assert(taken_paths(post.state) =~= taken_paths(pre.state).insert(c));
                }
            },
        }
    }
}

/// What a step has handed back that the graph has not been told yet: the tasks that follow, and
/// the position of the first of them among the steps of the walk.
pub struct Reply {
    pub first: int,
    pub children: Seq<GraphNode<WalkTask>>,
}

impl Reply {
    /// Whether a step of the walk is that of one of these tasks.
    pub open spec fn holds(self, step: int) -> bool {
        self.first <= step < self.first + self.children.len()
    }
}

/// A walk that is run by a graph of tasks.
///
/// Several tasks may run at a time. The step of a task is taken while the task runs, and the graph
/// is told of it later, perhaps after it was told of a step that was taken after it. So the steps
/// of the walk are numbered otherwise than the tasks, and a step may have been taken that the graph
/// does not know of yet.
pub struct WalkRun {
    pub walk: Walk,
    /// The step of each task.
    pub step_of: Map<usize, int>,
    /// The replies that the graph has not been told yet, by task.
    pub replies: Map<usize, Reply>,
}

impl WalkRun {
    /// A walk that has just been started.
    pub open spec fn start(walk: Walk) -> Self {
        WalkRun { walk, step_of: Map::empty().insert(0usize, 0int), replies: Map::empty() }
    }

    /// The run once the step of a task was taken.
    pub open spec fn with_step(
        self,
        id: usize,
        children: Seq<GraphNode<WalkTask>>,
        walk: Walk,
    ) -> Self {
        WalkRun {
            walk,
            step_of: self.step_of,
            replies: self.replies.insert(
                id,
                Reply { first: self.walk.steps.len() as int, children },
            ),
        }
    }

    /// The run once a graph of `n` tasks was told of the step of a task.
    pub open spec fn with_reply(self, id: usize, n: nat) -> Self {
        let reply = self.replies[id];
        WalkRun {
            walk: self.walk,
            step_of: Map::new(
                |k: usize| k < n + reply.children.len(),
                |k: usize|
                    if k < n {
                        self.step_of[k]
                    } else {
                        reply.first + (k - n)
                    },
            ),
            replies: self.replies.remove(id),
        }
    }

    /// Whether a step of the walk is that of a task in the graph.
    pub open spec fn has_task(self, step: int) -> bool {
        exists|k: usize| #[trigger] self.step_of.contains_key(k) && self.step_of[k] == step
    }

    /// Whether a step of the walk is that of a task that the graph has not been told of yet.
    pub open spec fn has_reply(self, step: int) -> bool {
        exists|k: usize| #[trigger] self.replies.contains_key(k) && self.replies[k].holds(step)
    }

    /// Whether a step of the walk is that of a task, in the graph or not.
    pub open spec fn is_known(self, step: int) -> bool {
        self.has_task(step) || self.has_reply(step)
    }
}

/// Whether the tasks of a graph are those of a walk that it runs, as far as it has been told.
pub open spec fn runs(s: Schedule<usize, WalkTask>, run: WalkRun) -> bool {
    let steps = run.walk.steps;
    &&& numbered(s)
    &&& forall|i: int| #[trigger] run.walk.taken.contains(i) ==> 0 <= i < steps.len()
    // Each task has its own step, which was taken if the task is completed or has a reply.
    &&& forall|k: usize| #[trigger]
        run.step_of.contains_key(k) <==> s.graph.tasks.contains_key(k)
    &&& forall|k: usize| #[trigger]
        run.step_of.contains_key(k) ==> {
            &&& 0 <= run.step_of[k] < steps.len()
            &&& s.graph.tasks[k].action@ == steps[run.step_of[k]]
            &&& run.walk.taken.contains(run.step_of[k]) <==> s.completed.contains(k)
                || run.replies.contains_key(k)
        }
    &&& forall|k: usize, l: usize|
        k != l && #[trigger] run.step_of.contains_key(k) && #[trigger] run.step_of.contains_key(l)
            ==> run.step_of[k] != run.step_of[l]
    // Only running tasks have replies. What follows them is among the steps, and open.
    &&& forall|k: usize| #[trigger]
        run.replies.contains_key(k) ==> {
            &&& s.running.contains(k)
            &&& 0 <= run.replies[k].first
            &&& run.replies[k].first + run.replies[k].children.len() <= steps.len()
        }
    &&& forall|k: usize, i: int|
        run.replies.contains_key(k) && 0 <= i < run.replies[k].children.len() ==> {
            &&& task_model(#[trigger] run.replies[k].children[i]) == walk_task(
                steps[run.replies[k].first + i],
            )
            &&& !run.walk.taken.contains(run.replies[k].first + i)
        }
    &&& forall|k: usize, l: usize| #[trigger]
        run.replies.contains_key(k) && #[trigger] run.step_of.contains_key(l)
            ==> !run.replies[k].holds(run.step_of[l])
    &&& forall|k: usize, l: usize, step: int|
        k != l && #[trigger] run.replies.contains_key(k) && #[trigger] run.replies.contains_key(l)
            && run.replies[k].holds(step) ==> !#[trigger] run.replies[l].holds(step)
    // There is no step besides these.
    &&& forall|step: int| 0 <= step < steps.len() ==> #[trigger] run.is_known(step)
}

/// A graph with one task that reads the root is at the start of a walk.
pub proof fn law_run_starts_a_walk(
    root: PathModel,
    state: StateModel,
    limit: nat,
    task: TaskModel<usize, WalkTask>,
)
    requires
        task.action@ == WalkModel::GetInfo(root),
        task.dependencies == Seq::<usize>::empty(),
    ensures
        runs(
            Schedule::<usize, WalkTask>::empty().with_limit(limit).with_task(0, task),
            WalkRun::start(Walk::again(root, state)),
        ),
{
    let base = Schedule::<usize, WalkTask>::empty().with_limit(limit);
    lemma_with_task_keeps_numbers(base, task);
    let run = WalkRun::start(Walk::again(root, state));
    assert(run.step_of.contains_key(0));
    assert(run.is_known(0));
}

/// A round leaves a graph at the same point of a walk.
pub proof fn law_round_stays_in_walk(
    s: Schedule<usize, WalkTask>,
    round: Round<usize>,
    post: Schedule<usize, WalkTask>,
    run: WalkRun,
)
    requires
        s.sound(),
        runs(s, run),
        is_round(s, round, post),
    ensures
        runs(post, run),
{
    law_round(s, round, post);
}

/// When a running task takes its step, in whatever order the tasks do, the walk comes to its next
/// point.
pub proof fn law_step_advances_walk(
    tree: FileTree,
    s: Schedule<usize, WalkTask>,
    run: WalkRun,
    id: usize,
    children: Seq<GraphNode<WalkTask>>,
    walk: Walk,
)
    requires
        s.sound(),
        runs(s, run),
        s.running.contains(id),
        !run.replies.contains_key(id),
        ({
            let step = run.walk.steps[run.step_of[id]];
            &&& task_models(children) == tasks_after(tree, run.walk.state, step)
            &&& state_after(tree, run.walk.state, step) == Some(walk.state)
        }),
        walk.steps == run.walk.steps + steps_of(task_models(children)),
        walk.taken == run.walk.taken.insert(run.step_of[id]),
    ensures
        advances(tree, run.walk, run.step_of[id], walk),
        runs(s, run.with_step(id, children, walk)),
{
    let next = run.with_step(id, children, walk);
    let n = run.walk.steps.len() as int;
    let here = run.step_of[id];
    assert(s.graph.tasks.contains_key(id));
    assert(s.placed(id));
    assert(run.step_of.contains_key(id));
    assert(!run.walk.taken.contains(here));
    assert forall|i: int| 0 <= i < children.len() implies task_model(#[trigger] children[i])
        == walk_task(walk.steps[n + i]) by {
        let models = task_models(children);
        assert(models[i] == task_model(children[i]));
        assert(walk.steps[n + i] == models[i].action);
        assert(tasks_after(tree, run.walk.state, run.walk.steps[here])[i] == models[i]);
    }
    assert forall|i: int| 0 <= i < n implies #[trigger] walk.steps[i] == run.walk.steps[i] by {}
    assert forall|k: usize, i: int|
        next.replies.contains_key(k) && 0 <= i < next.replies[k].children.len() implies {
        &&& task_model(#[trigger] next.replies[k].children[i]) == walk_task(
            walk.steps[next.replies[k].first + i],
        )
        &&& !walk.taken.contains(next.replies[k].first + i)
    } by {
        if k == id {
            assert(next.replies[k].children[i] == children[i]);
            assert(!run.walk.taken.contains(n + i));
        } else {
            assert(run.replies.contains_key(k));
            assert(run.replies[k].children[i] == next.replies[k].children[i]);
            assert(!run.replies[k].holds(here));
        }
    }
    assert forall|k: usize, l: usize, step: int|
        k != l && #[trigger] next.replies.contains_key(k) && #[trigger] next.replies.contains_key(l)
            && next.replies[k].holds(step) implies !#[trigger] next.replies[l].holds(step) by {
        if k == id {
            assert(run.replies.contains_key(l));
        } else if l == id {
            assert(run.replies.contains_key(k));
        } else {
            assert(run.replies.contains_key(k) && run.replies.contains_key(l));
            assert(run.replies[k].holds(step));
            assert(!run.replies[l].holds(step));
        }
    }
    assert forall|step: int| 0 <= step < walk.steps.len() implies #[trigger] next.is_known(
        step,
    ) by {
        if step < n {
            assert(run.is_known(step));
            if run.has_task(step) {
                let k = choose|k: usize| #[trigger]
                    run.step_of.contains_key(k) && run.step_of[k] == step;
                assert(next.step_of.contains_key(k));
            } else {
                let k = choose|k: usize| #[trigger]
                    run.replies.contains_key(k) && run.replies[k].holds(step);
                assert(next.replies.contains_key(k));
                assert(next.replies[k].holds(step));
            }
        } else {
            assert(next.replies.contains_key(id));
            assert(next.replies[id].holds(step));
        }
    }
}

/// When the graph is told of a step that was taken, in whatever order it is, it stays at the same
/// point of the walk. None of the tasks that follow is refused.
pub proof fn law_completion_stays_in_walk(s: Schedule<usize, WalkTask>, run: WalkRun, id: usize)
    requires
        s.sound(),
        runs(s, run),
        run.replies.contains_key(id),
        s.graph.tasks.len() + run.replies[id].children.len() <= usize::MAX,
    ensures
        ({
            let children = tasks_of(run.replies[id].children);
            &&& runs(
                with_children(s.with_completed(id), children, id),
                run.with_reply(id, s.graph.tasks.len()),
            )
            &&& refused_children(s.with_completed(id), children, id) == 0
        }),
{
    let reply = run.replies[id];
    let base = s.with_completed(id);
    let tasks = tasks_of(reply.children);
    let n = s.graph.tasks.len();
    let end = with_children(base, tasks, id);
    let next = run.with_reply(id, n);
    assert(s.running.contains(id));
    assert(s.graph.tasks.contains_key(id));
    assert(s.placed(id));
    assert forall|i: int| 0 <= i < tasks.len() implies (#[trigger] tasks[i]).dependencies
        == Seq::<usize>::empty() && tasks[i].action@ == run.walk.steps[reply.first + i] by {
        assert(task_model(run.replies[id].children[i]) == walk_task(
            run.walk.steps[reply.first + i],
        ));
    }
    lemma_children_are_added(base, tasks, id);
    assert forall|k: usize| k < n implies #[trigger] run.step_of.contains_key(k) by {
        assert(s.graph.tasks.contains_key(k));
    }
    assert forall|k: usize| #[trigger] next.step_of.contains_key(k) implies {
        &&& 0 <= next.step_of[k] < run.walk.steps.len()
        &&& end.graph.tasks[k].action@ == run.walk.steps[next.step_of[k]]
        &&& run.walk.taken.contains(next.step_of[k]) <==> end.completed.contains(k)
            || next.replies.contains_key(k)
    } by {
        if k < n {
            assert(run.step_of.contains_key(k));
            assert(base.graph.tasks[k] == end.graph.tasks[k]);
        } else {
            let i = k - n;
            assert(tasks[i].action@ == run.walk.steps[reply.first + i]);
            assert(end.graph.tasks[k].action == tasks[k - n].action);
            assert(task_model(run.replies[id].children[i]) == walk_task(
                run.walk.steps[reply.first + i],
            ));
            assert(!s.graph.tasks.contains_key(k));
            assert(!s.completed.contains(k));
            assert(!s.running.contains(k));
        }
    }
    assert forall|k: usize, l: usize|
        k != l && #[trigger] next.step_of.contains_key(k) && #[trigger] next.step_of.contains_key(
            l,
        ) implies next.step_of[k] != next.step_of[l] by {
        if k < n {
            assert(run.step_of.contains_key(k));
            assert(!reply.holds(run.step_of[k]));
        }
        if l < n {
            assert(run.step_of.contains_key(l));
            assert(!reply.holds(run.step_of[l]));
        }
    }
    assert forall|k: usize| #[trigger] next.replies.contains_key(k) implies end.running.contains(
        k,
    ) by {
        assert(run.replies.contains_key(k));
        assert(s.running.contains(k));
    }
    assert forall|k: usize, i: int|
        next.replies.contains_key(k) && 0 <= i < next.replies[k].children.len() implies {
        &&& task_model(#[trigger] next.replies[k].children[i]) == walk_task(
            run.walk.steps[next.replies[k].first + i],
        )
        &&& !run.walk.taken.contains(next.replies[k].first + i)
    } by {
        assert(run.replies.contains_key(k));
        assert(run.replies[k].children[i] == next.replies[k].children[i]);
    }
    assert forall|k: usize, l: usize| #[trigger]
        next.replies.contains_key(k) && #[trigger] next.step_of.contains_key(
            l,
        ) implies !next.replies[k].holds(next.step_of[l]) by {
        assert(run.replies.contains_key(k));
        if l < n {
            assert(run.step_of.contains_key(l));
        } else {
            assert(reply.holds(next.step_of[l]));
            assert(!run.replies[k].holds(next.step_of[l]));
        }
    }
    assert forall|k: usize, l: usize, step: int|
        k != l && #[trigger] next.replies.contains_key(k) && #[trigger] next.replies.contains_key(l)
            && next.replies[k].holds(step) implies !#[trigger] next.replies[l].holds(step) by {
        assert(run.replies.contains_key(k) && run.replies.contains_key(l));
        assert(run.replies[k].holds(step));
        assert(!run.replies[l].holds(step));
    }
    assert forall|step: int| 0 <= step < run.walk.steps.len() implies #[trigger] next.is_known(
        step,
    ) by {
        assert(run.is_known(step));
        if run.has_task(step) {
            let k = choose|k: usize| #[trigger]
                run.step_of.contains_key(k) && run.step_of[k] == step;
            assert(s.graph.tasks.contains_key(k));
            assert(next.step_of.contains_key(k) && next.step_of[k] == step);
        } else {
            let k = choose|k: usize| #[trigger]
                run.replies.contains_key(k) && run.replies[k].holds(step);
            if k == id {
                let l = (n + (step - reply.first)) as usize;
                assert(next.step_of.contains_key(l) && next.step_of[l] == step);
            } else {
                assert(next.replies.contains_key(k) && next.replies[k].holds(step));
            }
        }
    }
}

/// Children without dependencies of their own are all added, in order.
proof fn lemma_children_are_added(
    base: Schedule<usize, WalkTask>,
    tasks: Seq<TaskModel<usize, WalkTask>>,
    finished: usize,
)
    requires
        numbered(base),
        base.graph.tasks.contains_key(finished),
        base.graph.tasks.len() + tasks.len() <= usize::MAX,
        forall|i: int|
            0 <= i < tasks.len() ==> (#[trigger] tasks[i]).dependencies == Seq::<usize>::empty(),
    ensures
        ({
            let end = with_children(base, tasks, finished);
            &&& numbered(end)
            &&& end.completed == base.completed
            &&& end.running == base.running
            &&& end.graph.tasks.len() == base.graph.tasks.len() + tasks.len()
            &&& forall|k: usize|
                k < base.graph.tasks.len() ==> #[trigger] end.graph.tasks[k]
                    == base.graph.tasks[k]
            &&& forall|k: usize|
                base.graph.tasks.len() <= k < end.graph.tasks.len() ==> (
                #[trigger] end.graph.tasks[k]).action == tasks[k
                    - base.graph.tasks.len()].action
            &&& refused_children(base, tasks, finished) == 0
        }),
    decreases tasks.len(),
{
    if tasks.len() > 0 {
        let earlier = tasks.drop_last();
        assert forall|i: int| 0 <= i < earlier.len() implies (#[trigger] earlier[i]).dependencies
            == Seq::<usize>::empty() by {
            assert(tasks[i].dependencies == Seq::<usize>::empty());
        }
        lemma_children_are_added(base, earlier, finished);
        let mid = with_children(base, earlier, finished);
        let child = as_child(tasks.last(), finished);
        assert(tasks[tasks.len() - 1].dependencies == Seq::<usize>::empty());
        assert(child.dependencies =~= seq![finished]);
        assert(depends_backwards(mid, child));
        lemma_with_task_keeps_numbers(mid, child);
    }
}

/// The walk is over when the run is, and the run is over when the walk is and the graph has been
/// told of all its steps.
pub proof fn law_walk_is_over_when_the_run_is(
    s: Schedule<usize, WalkTask>,
    round: Round<usize>,
    post: Schedule<usize, WalkTask>,
    run: WalkRun,
)
    requires
        s.sound(),
        runs(s, run),
        is_round(s, round, post),
    ensures
        round.progress is Done <==> run.walk.is_over() && run.replies.dom() == Set::<
            usize,
        >::empty(),
{
    law_round(s, round, post);
    if round.progress is Done {
        assert forall|k: usize| !run.replies.contains_key(k) by {
            if run.replies.contains_key(k) {
                assert(s.running.contains(k));
                assert(s.graph.tasks.contains_key(k));
                assert(s.placed(k));
            }
        }
        assert(run.replies.dom() =~= Set::<usize>::empty());
        assert forall|step: int| 0 <= step < run.walk.steps.len() implies
            #[trigger] run.walk.taken.contains(step) by {
            assert(run.is_known(step));
            let k = choose|k: usize| #[trigger]
                run.step_of.contains_key(k) && run.step_of[k] == step;
            assert(s.graph.tasks.contains_key(k));
        }
    }
    if run.walk.is_over() && run.replies.dom() == Set::<usize>::empty() {
        assert forall|k: usize| s.graph.tasks.contains_key(k) implies s.completed.contains(k) by {
            assert(run.step_of.contains_key(k));
            assert(run.walk.taken.contains(run.step_of[k]));
            assert(!run.replies.dom().contains(k));
        }
        assert(s.completed =~= s.graph.tasks.dom());
    }
}

/// When the run of a walk is over, the walk has found out what it is to find out.
pub proof fn law_finished_run_has_the_result(
    tree: FileTree,
    root: PathModel,
    walks: Seq<Walk>,
    ids: Seq<int>,
    s: Schedule<usize, WalkTask>,
    round: Round<usize>,
    post: Schedule<usize, WalkTask>,
    run: WalkRun,
)
    requires
        is_walk(tree, root, walks, ids),
        walks.last() == run.walk,
        s.sound(),
        runs(s, run),
        is_round(s, round, post),
        round.progress is Done,
    ensures
        is_result(tree, root, run.walk.state),
{
    law_walk_is_over_when_the_run_is(s, round, post, run);
    law_walk_discovers_dependencies(tree, root, walks, ids);
}

} // verus!
