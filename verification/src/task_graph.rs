//! Tasks and the dependencies between them.

use std::collections::{HashMap, HashSet};
use vstd::prelude::*;
use vstd::string::StringExecFns;

use crate::counting::{
    law_occurrences_count, lemma_occurrences_repeated, lemma_occurs, lemma_tally_push, occurrences,
    repeated,
};
use crate::deadlock::{dependents_of, diagnose, explains, Deadlock};
use crate::key::TaskKey;
use crate::node::{models, TaskModel, TaskNode};
use crate::text::{decimal, push_decimal};

verus! {

/// Why a task cannot be added to a graph.
#[derive(Debug)]
pub enum AddError<K> {
    /// A task with this key is in the graph already.
    AlreadyExists(K),
    /// The task depends on a task that is not in the graph.
    DependencyNotFound,
}

impl<K: TaskKey> AddError<K> {
    /// The message that reports the error.
    pub open spec fn text(self) -> Seq<char> {
        match self {
            AddError::AlreadyExists(key) => "Node already exists in the graph: "@ + decimal(
                key.rank(),
            ),
            AddError::DependencyNotFound => "Dependency node not found in the graph"@,
        }
    }

    /// The message that reports the error.
    pub fn message(&self) -> (message: String)
        ensures
            message@ == self.text(),
    {
        let mut message = String::new();
        match self {
            AddError::AlreadyExists(key) => {
                message.append("Node already exists in the graph: ");
                push_decimal(&mut message, key.number());
            },
            AddError::DependencyNotFound => {
                message.append("Dependency node not found in the graph");
            },
        }
        assert(message@ =~= self.text());
        message
    }
}

/// The contents of a graph: the tasks, for each of them the tasks that depend on it, in the
/// order in which they were added, and its level.
#[verifier::ext_equal]
#[verifier::reject_recursive_types(K)]
pub struct GraphModel<K, P> {
    pub tasks: Map<K, TaskModel<K, P>>,
    pub dependents: Map<K, Seq<K>>,
    pub levels: Map<K, nat>,
}

/// The level of a task with the given dependencies: one more than the highest level among them,
/// and the lowest level where there are none.
pub open spec fn level_above<K>(levels: Map<K, nat>, dependencies: Seq<K>) -> nat
    decreases dependencies.len(),
{
    if dependencies.len() == 0 {
        0
    } else {
        let below = level_above(levels, dependencies.drop_last());
        let here = levels[dependencies.last()] + 1;
        if here > below {
            here
        } else {
            below
        }
    }
}

/// Whether every key of `keys` is the key of a task.
pub open spec fn all_known<K, P>(tasks: Map<K, TaskModel<K, P>>, keys: Seq<K>) -> bool {
    forall|i: int| 0 <= i < keys.len() ==> tasks.contains_key(#[trigger] keys[i])
}

impl<K, P> GraphModel<K, P> {
    /// The graph without tasks.
    pub open spec fn empty() -> Self {
        GraphModel { tasks: Map::empty(), dependents: Map::empty(), levels: Map::empty() }
    }

    /// The dependencies of a task.
    pub open spec fn dependencies(self, id: K) -> Seq<K> {
        self.tasks[id].dependencies
    }

    /// Whether the graph accepts the task: its key is new and its dependencies are known.
    pub open spec fn accepts(self, id: K, task: TaskModel<K, P>) -> bool {
        &&& !self.tasks.contains_key(id)
        &&& all_known(self.tasks, task.dependencies)
    }

    /// The graph with one more task.
    pub open spec fn with_task(self, id: K, task: TaskModel<K, P>) -> Self {
        let dependencies = task.dependencies;
        GraphModel {
            tasks: self.tasks.insert(id, task),
            dependents: Map::new(
                |k: K| self.tasks.contains_key(k) || k == id,
                |k: K|
                    if k == id {
                        Seq::empty()
                    } else {
                        self.dependents[k] + repeated(id, occurrences(dependencies, k))
                    },
            ),
            levels: self.levels.insert(id, level_above(self.levels, dependencies)),
        }
    }

    /// Each task is filed as a dependent as often as it names a dependency.
    pub open spec fn linked(self) -> bool {
        &&& self.tasks.dom().finite()
        &&& self.dependents.dom() == self.tasks.dom()
        &&& forall|u: K, v: K|
            self.tasks.contains_key(u) ==> #[trigger] occurrences(self.dependents[u], v) == (
            if self.tasks.contains_key(v) {
                occurrences(self.dependencies(v), u)
            } else {
                0
            })
    }

    /// Each task lies above its dependencies, which are all known.
    pub open spec fn layered(self) -> bool {
        &&& self.levels.dom() == self.tasks.dom()
        &&& forall|k: K| #[trigger]
            self.tasks.contains_key(k) ==> {
                &&& all_known(self.tasks, self.dependencies(k))
                &&& self.levels[k] < self.tasks.len()
                &&& forall|i: int|
                    0 <= i < self.dependencies(k).len() ==> self.levels[#[trigger] self.dependencies(
                        k,
                    )[i]] < self.levels[k]
                &&& self.levels[k] > 0 ==> exists|i: int|
                    0 <= i < self.dependencies(k).len() && self.levels[#[trigger] self.dependencies(
                        k,
                    )[i]] + 1 == self.levels[k]
            }
    }

    /// What holds of every graph.
    pub open spec fn wf(self) -> bool {
        self.linked() && self.layered()
    }
}

/// The level of a task is one above the highest of its dependencies.
proof fn lemma_level_above<K>(levels: Map<K, nat>, dependencies: Seq<K>)
    ensures
        forall|i: int|
            0 <= i < dependencies.len() ==> levels[#[trigger] dependencies[i]] < level_above(
                levels,
                dependencies,
            ),
        level_above(levels, dependencies) > 0 ==> exists|i: int|
            0 <= i < dependencies.len() && levels[#[trigger] dependencies[i]] + 1 == level_above(
                levels,
                dependencies,
            ),
    decreases dependencies.len(),
{
    if dependencies.len() > 0 {
        let rest = dependencies.drop_last();
        lemma_level_above(levels, rest);
        assert forall|i: int| 0 <= i < dependencies.len() implies levels[#[trigger] dependencies[i]]
            < level_above(levels, dependencies) by {
            if i < rest.len() {
                assert(levels[rest[i]] < level_above(levels, rest));
            }
        }
        if level_above(levels, dependencies) == level_above(levels, rest) {
            let i = choose|i: int|
                0 <= i < rest.len() && levels[#[trigger] rest[i]] + 1 == level_above(levels, rest);
            assert(levels[dependencies[i]] + 1 == level_above(levels, dependencies));
        } else {
            assert(levels[dependencies[dependencies.len() - 1]] + 1 == level_above(
                levels,
                dependencies,
            ));
        }
    }
}

/// Adding an accepted task keeps the graph well formed.
pub proof fn law_with_task_keeps_wf<K, P>(
    graph: GraphModel<K, P>,
    id: K,
    task: TaskModel<K, P>,
)
    requires
        graph.wf(),
        graph.accepts(id, task),
    ensures
        graph.with_task(id, task).wf(),
{
    let next = graph.with_task(id, task);
    let added = task.dependencies;
    assert(next.dependents.dom() =~= next.tasks.dom());
    assert(next.levels.dom() =~= next.tasks.dom());
    assert forall|u: K, v: K| next.tasks.contains_key(u) implies #[trigger] occurrences(
        next.dependents[u],
        v,
    ) == (if next.tasks.contains_key(v) {
        occurrences(next.dependencies(v), u)
    } else {
        0
    }) by {
        if u == id {
            // No task named the new key before, and the new task does not name itself.
            if next.tasks.contains_key(v) {
                lemma_occurs(next.dependencies(v), u);
                if next.dependencies(v).contains(u) {
                    let i = choose|i: int|
                        0 <= i < next.dependencies(v).len() && next.dependencies(v)[i] == u;
                    if v == id {
                        assert(graph.tasks.contains_key(added[i]));
                    } else {
                        assert(all_known(graph.tasks, graph.dependencies(v)));
                        assert(graph.tasks.contains_key(graph.dependencies(v)[i]));
                    }
                }
            }
        } else {
            lemma_occurrences_repeated(graph.dependents[u], id, occurrences(added, u), v);
            assert(occurrences(graph.dependents[u], v) == (if graph.tasks.contains_key(v) {
                occurrences(graph.dependencies(v), u)
            } else {
                0
            }));
        }
    }
    lemma_level_above(graph.levels, added);
    assert forall|k: K| #[trigger] next.tasks.contains_key(k) implies {
        &&& all_known(next.tasks, next.dependencies(k))
        &&& next.levels[k] < next.tasks.len()
        &&& forall|i: int|
            0 <= i < next.dependencies(k).len() ==> next.levels[#[trigger] next.dependencies(k)[i]]
                < next.levels[k]
        &&& next.levels[k] > 0 ==> exists|i: int|
            0 <= i < next.dependencies(k).len() && next.levels[#[trigger] next.dependencies(k)[i]]
                + 1 == next.levels[k]
    } by {
        if k == id {
            assert forall|i: int| 0 <= i < added.len() implies next.levels[#[trigger] added[i]]
                < next.levels[k] by {
                assert(graph.tasks.contains_key(added[i]));
            }
            if next.levels[k] > 0 {
                let i = choose|i: int|
                    0 <= i < added.len() && graph.levels[#[trigger] added[i]] + 1 == level_above(
                        graph.levels,
                        added,
                    );
                assert(graph.tasks.contains_key(added[i]));
                assert(next.levels[next.dependencies(k)[i]] + 1 == next.levels[k]);
            }
        } else {
            assert(graph.tasks.contains_key(k));
            assert(all_known(graph.tasks, graph.dependencies(k)));
            assert(next.dependencies(k) == graph.dependencies(k));
            if next.levels[k] > 0 {
                let i = choose|i: int|
                    0 <= i < graph.dependencies(k).len()
                        && graph.levels[#[trigger] graph.dependencies(k)[i]] + 1
                        == graph.levels[k];
                assert(next.levels[next.dependencies(k)[i]] + 1 == next.levels[k]);
            }
        }
    }
}

/// A graph of tasks. A task is added after the tasks that it depends on.
#[verifier::reject_recursive_types(K)]
pub struct TaskGraph<K, N> {
    nodes: HashMap<K, N>,
    reverse_dependencies: HashMap<K, Vec<K>>,
    levels: HashMap<K, usize>,
}

impl<K: TaskKey, N: TaskNode<K>> View for TaskGraph<K, N> {
    type V = GraphModel<K, N::Payload>;

    closed spec fn view(&self) -> GraphModel<K, N::Payload> {
        GraphModel {
            tasks: models(self.nodes@),
            dependents: self.reverse_dependencies@.map_values(|list: Vec<K>| list@),
            levels: self.levels@.map_values(|level: usize| level as nat),
        }
    }
}

impl<K: TaskKey, N: TaskNode<K>> TaskGraph<K, N> {
    /// The stored tasks.
    pub closed spec fn nodes(&self) -> Map<K, N> {
        self.nodes@
    }

    /// The graph consists of the stored tasks.
    pub proof fn lemma_nodes(&self)
        ensures
            models(self.nodes()) == self@.tasks,
    {
    }

    /// A graph without tasks.
    pub fn new() -> (graph: Self)
        ensures
            graph@ == GraphModel::<K, N::Payload>::empty(),
            graph.nodes() == Map::<K, N>::empty(),
            graph@.wf(),
    {
        let graph = TaskGraph {
            nodes: HashMap::new(),
            reverse_dependencies: HashMap::new(),
            levels: HashMap::new(),
        };
        assert(graph@ =~= GraphModel::<K, N::Payload>::empty());
        assert(graph@.dependents.dom() =~= graph@.tasks.dom());
        assert(graph@.levels.dom() =~= graph@.tasks.dom());
        graph
    }

    /// The number of tasks.
    pub fn len(&self) -> (n: usize)
        ensures
            n == self@.tasks.len(),
    {
        broadcast use vstd::std_specs::hash::group_hash_axioms;

        proof {
            K::lemma_hashable();
        }
        assert(self@.tasks.dom() =~= self.nodes@.dom());
        self.nodes.len()
    }

    /// The task that is filed under a key.
    pub fn get(&self, id: &K) -> (node: Option<&N>)
        ensures
            node == (if self.nodes().contains_key(*id) {
                Some(&self.nodes()[*id])
            } else {
                None
            }),
            node is Some <==> self@.tasks.contains_key(*id),
            node matches Some(node) ==> node.model() == self@.tasks[*id],
    {
        broadcast use vstd::std_specs::hash::group_hash_axioms;

        proof {
            K::lemma_hashable();
        }
        self.nodes.get(id)
    }

    /// The tasks that depend on a task, in the order in which they were added; one that names
    /// the task several times is listed as often.
    pub fn dependents(&self, id: &K) -> (list: Option<&Vec<K>>)
        ensures
            list is Some <==> self@.dependents.contains_key(*id),
            list matches Some(list) ==> list@ == self@.dependents[*id],
    {
        broadcast use vstd::std_specs::hash::group_hash_axioms;

        proof {
            K::lemma_hashable();
        }
        self.reverse_dependencies.get(id)
    }

    /// The level that a task with the given dependencies gets, or nothing where one of them is
    /// not in the graph.
    fn level_for(&self, dependencies: &Vec<K>) -> (level: Option<usize>)
        requires
            self@.wf(),
        ensures
            level is Some <==> all_known(self@.tasks, dependencies@),
            level matches Some(level) ==> level == level_above(self@.levels, dependencies@),
    {
        broadcast use vstd::std_specs::hash::group_hash_axioms;

        proof {
            K::lemma_hashable();
        }
        let known: usize = self.len();
        let mut level: usize = 0;
        let mut i: usize = 0;
        while i < dependencies.len()
            invariant
                i <= dependencies@.len(),
                vstd::std_specs::hash::obeys_key_model::<K>(),
                self@.wf(),
                known == self@.tasks.len(),
                level <= known,
                forall|j: int| 0 <= j < i ==> self@.tasks.contains_key(#[trigger] dependencies@[j]),
                level == level_above(self@.levels, dependencies@.take(i as int)),
            decreases dependencies.len() - i,
        {
            let d = dependencies[i];
            assert(dependencies@.take(i + 1).drop_last() =~= dependencies@.take(i as int));
            match self.levels.get(&d) {
                None => {
                    assert(!self@.tasks.contains_key(dependencies@[i as int]));
                    return None;
                },
                Some(below) => {
                    assert(self@.levels.contains_key(d));
                    assert(self@.tasks.contains_key(d));
                    assert(self@.levels[d] == *below as nat);
                    if *below + 1 > level {
                        level = *below + 1;
                    }
                },
            }
            i = i + 1;
        }
        assert(dependencies@.take(i as int) =~= dependencies@);
        Some(level)
    }

    /// Adds a task. It is refused where its key is in use or a dependency is not in the graph;
    /// the graph is then left as it was.
    pub fn add(&mut self, id: K, node: N) -> (added: Result<(), AddError<K>>)
        requires
            old(self)@.wf(),
        ensures
            final(self)@.wf(),
            match added {
                Ok(_) => {
                    &&& old(self)@.accepts(id, node.model())
                    &&& final(self)@ == old(self)@.with_task(id, node.model())
                    &&& final(self).nodes() == old(self).nodes().insert(id, node)
                },
                Err(AddError::AlreadyExists(key)) => {
                    &&& old(self)@.tasks.contains_key(id)
                    &&& key == id
                    &&& final(self)@ == old(self)@
                    &&& final(self).nodes() == old(self).nodes()
                },
                Err(AddError::DependencyNotFound) => {
                    &&& !old(self)@.tasks.contains_key(id)
                    &&& !all_known(old(self)@.tasks, node.model().dependencies)
                    &&& final(self)@ == old(self)@
                    &&& final(self).nodes() == old(self).nodes()
                },
            },
    {
        broadcast use vstd::std_specs::hash::group_hash_axioms;

        proof {
            K::lemma_hashable();
        }
        if self.nodes.contains_key(&id) {
            return Err(AddError::AlreadyExists(id));
        }
        let level: usize = match self.level_for(node.dependencies()) {
            None => {
                return Err(AddError::DependencyNotFound);
            },
            Some(level) => level,
        };
        let ghost pre = self@;
        proof {
            law_with_task_keeps_wf(pre, id, node.model());
        }
        self.levels.insert(id, level);
        self.reverse_dependencies.insert(id, Vec::new());
        let dependencies = node.dependencies();
        let ghost added = node.model().dependencies;
        let mut i: usize = 0;
        assert(added.take(0) =~= Seq::<K>::empty());
        while i < dependencies.len()
            invariant
                i <= dependencies@.len(),
                vstd::std_specs::hash::obeys_key_model::<K>(),
                dependencies@ == added,
                all_known(pre.tasks, added),
                !pre.tasks.contains_key(id),
                pre.dependents.dom() == pre.tasks.dom(),
                self.nodes@ == old(self).nodes@,
                models(self.nodes@) == pre.tasks,
                self.levels@ == old(self).levels@.insert(id, level),
                forall|k: K| #[trigger]
                    self.reverse_dependencies@.contains_key(k) <==> pre.tasks.contains_key(k) || k
                        == id,
                forall|k: K| #[trigger]
                    pre.tasks.contains_key(k) ==> self.reverse_dependencies@[k]@
                        == pre.dependents[k] + repeated(id, occurrences(added.take(i as int), k)),
                self.reverse_dependencies@[id]@ == Seq::<K>::empty(),
            decreases dependencies.len() - i,
        {
            let d = dependencies[i];
            assert(pre.tasks.contains_key(added[i as int]));
            let ghost before = self.reverse_dependencies@;
            self.reverse_dependencies.entry(d).or_insert(Vec::new()).push(id);
            proof {
                assert(added.take(i + 1) =~= added.take(i as int).push(d));
                assert forall|k: K| #[trigger] pre.tasks.contains_key(k) implies
                    self.reverse_dependencies@[k]@ == pre.dependents[k] + repeated(
                    id,
                    occurrences(added.take(i + 1), k),
                ) by {
                    lemma_tally_push(added.take(i as int), d, Set::empty().insert(k));
                    if k == d {
                        let n = occurrences(added.take(i as int), k);
                        assert((pre.dependents[k] + repeated(id, n)).push(id)
                            =~= pre.dependents[k] + repeated(id, n + 1));
                    }
                }
            }
            i = i + 1;
        }
        assert(added.take(i as int) =~= added);
        self.nodes.insert(id, node);
        assert(self@ =~= pre.with_task(id, node.model())) by {
            let post = self@;
            let next = pre.with_task(id, node.model());
            assert(post.tasks =~= next.tasks);
            assert(post.levels =~= next.levels);
            assert(post.dependents =~= next.dependents);
        }
        Ok(())
    }

    /// Says why the given waiting tasks cannot run, given that nothing runs and nothing is
    /// queued.
    pub fn diagnose(&self, waiting: &HashSet<K>, completed: &HashSet<K>) -> (deadlock: Deadlock<K>)
        requires
            self@.linked(),
        ensures
            explains(self@.tasks, waiting@, completed@, deadlock),
    {
        proof {
            let tasks = models(self.nodes@);
            let dependents = self.reverse_dependencies@;
            assert forall|u: K, v: K|
                waiting@.contains(u) && waiting@.contains(v) && tasks.contains_key(u)
                    && tasks.contains_key(v) implies #[trigger] occurrences(
                dependents_of(dependents, u),
                v,
            ) == occurrences(tasks[v].dependencies, u) by {
                assert(self@.dependents.contains_key(u));
                assert(self@.dependents[u] == dependents_of(dependents, u));
                assert(occurrences(self@.dependents[u], v) == occurrences(self@.dependencies(v), u));
            }
        }
        diagnose(&self.nodes, &self.reverse_dependencies, waiting, completed)
    }
}

/// A task is accepted exactly if its key is not in use and each of its dependencies is in the
/// graph.
pub proof fn law_known_dependencies_are_accepted<K, P>(
    graph: GraphModel<K, P>,
    id: K,
    task: TaskModel<K, P>,
)
    ensures
        graph.accepts(id, task) <==> !graph.tasks.contains_key(id) && forall|i: int|
            0 <= i < task.dependencies.len() ==> graph.tasks.contains_key(
                #[trigger] task.dependencies[i],
            ),
        all_known(graph.tasks, task.dependencies) <==> forall|i: int|
            0 <= i < task.dependencies.len() ==> graph.tasks.contains_key(
                #[trigger] task.dependencies[i],
            ),
{
}

/// Adding a task adds this one as it is, and leaves the others as they are.
pub proof fn law_added_task_is_kept_as_it_is<K, P>(
    graph: GraphModel<K, P>,
    id: K,
    task: TaskModel<K, P>,
    other: K,
)
    requires
        other != id,
    ensures
        GraphModel::<K, P>::empty().tasks == Map::<K, TaskModel<K, P>>::empty(),
        graph.with_task(id, task).tasks == graph.tasks.insert(id, task),
        graph.with_task(id, task).tasks[id] == task,
        graph.with_task(id, task).tasks[other] == graph.tasks[other],
        graph.dependencies(other) == graph.tasks[other].dependencies,
{
}

/// A new task has no dependents. It is appended to the dependents of each of its dependencies, as
/// often as it names the dependency, and to no others; the order of the others stays.
pub proof fn law_dependents_are_appended<K, P>(
    graph: GraphModel<K, P>,
    id: K,
    task: TaskModel<K, P>,
    u: K,
)
    requires
        graph.wf(),
        graph.accepts(id, task),
    ensures
        ({
            let next = graph.with_task(id, task).dependents;
            &&& next.contains_key(u) <==> graph.tasks.contains_key(u) || u == id
            &&& next[id] == Seq::<K>::empty()
            &&& graph.tasks.contains_key(u) ==> next[u] == graph.dependents[u] + Seq::new(
                task.dependencies.to_multiset().count(u),
                |i: int| id,
            )
        }),
{
    law_occurrences_count(task.dependencies, u);
    if graph.tasks.contains_key(u) {
        assert(graph.with_task(id, task).dependents[u] =~= graph.dependents[u] + Seq::new(
            task.dependencies.to_multiset().count(u),
            |i: int| id,
        ));
    }
}

/// A task is a dependent of another one exactly if it depends on it.
pub proof fn law_dependents_are_those_that_depend<K, P>(graph: GraphModel<K, P>, u: K, v: K)
    requires
        graph.wf(),
        graph.tasks.contains_key(u),
    ensures
        graph.dependents.contains_key(u),
        graph.dependents[u].contains(v) <==> graph.tasks.contains_key(v)
            && graph.tasks[v].dependencies.contains(u),
{
    lemma_occurs(graph.dependents[u], v);
    if graph.tasks.contains_key(v) {
        lemma_occurs(graph.dependencies(v), u);
    }
    assert(occurrences(graph.dependents[u], v) == (if graph.tasks.contains_key(v) {
        occurrences(graph.dependencies(v), u)
    } else {
        0
    }));
}

/// What the messages say: which key is in use, and that a dependency is unknown.
pub proof fn law_refusals_are_told_apart<K: TaskKey>(key: K)
    ensures
        AddError::AlreadyExists(key).text() == "Node already exists in the graph: "@ + decimal(
            key.rank(),
        ),
        AddError::<K>::DependencyNotFound.text() == "Dependency node not found in the graph"@,
{
}

} // verus!
