//! Tasks that are identified by a hash of their priority and dependencies.

use std::collections::hash_map::DefaultHasher;
use std::hash::Hasher;
use vstd::bytes::{
    spec_u32_to_le_bytes, spec_u64_to_le_bytes, u32_to_le_bytes, u64_to_le_bytes,
};
use vstd::prelude::*;
use vstd::std_specs::cmp::PartialEqSpec;
use vstd::std_specs::hash::DefaultHasherAdditionalSpecFns;
use vstd::string::StringExecFns;

use crate::node::{models, TaskModel, TaskNode};
use crate::task_graph::{all_known, AddError, GraphModel, TaskGraph};
use crate::text::{bracketed, decimal, push_bracketed, push_decimal, push_signed, signed_decimal};

verus! {

/// A task: its priority, the hashes of the tasks that it depends on, its own hash, and what it
/// executes.
#[derive(Clone)]
pub struct HashableGraphNode<F> {
    pub priority: i32,
    pub dependencies: Vec<u64>,
    pub hash: u64,
    pub action: F,
}

/// The two's complement of a priority.
pub open spec fn unsigned(priority: i32) -> u32 {
    if priority < 0 {
        (priority + 0x1_0000_0000) as u32
    } else {
        priority as u32
    }
}

/// What the hasher is fed for a task, all numbers in little-endian order: the priority, the number
/// of dependencies, and the dependencies.
pub open spec fn fed(priority: i32, dependencies: Seq<u64>) -> Seq<Seq<u8>> {
    seq![
        spec_u32_to_le_bytes(unsigned(priority)),
        spec_u64_to_le_bytes(dependencies.len() as u64),
    ] + dependencies.map_values(|d: u64| spec_u64_to_le_bytes(d))
}

/// The hash of a task.
pub open spec fn hash_of(priority: i32, dependencies: Seq<u64>) -> u64 {
    DefaultHasher::spec_finish(fed(priority, dependencies))
}

/// The hash of a task with the given priority and dependencies: what the hasher of the standard
/// library makes of them.
pub fn task_hash(priority: i32, dependencies: &Vec<u64>) -> (hash: u64)
    ensures
        hash == hash_of(priority, dependencies@),
{
    let mut hasher = DefaultHasher::new();
    let bits: u32 = if priority < 0 {
        (priority as i64 + 0x1_0000_0000) as u32
    } else {
        priority as u32
    };
    let ghost whole = fed(priority, dependencies@);
    hasher.write(u32_to_le_bytes(bits).as_slice());
    hasher.write(u64_to_le_bytes(dependencies.len() as u64).as_slice());
    assert(hasher@ =~= whole.take(2));
    let mut i: usize = 0;
    while i < dependencies.len()
        invariant
            i <= dependencies@.len(),
            whole == fed(priority, dependencies@),
            hasher@ == whole.take(i + 2),
        decreases dependencies.len() - i,
    {
        hasher.write(u64_to_le_bytes(dependencies[i]).as_slice());
        i = i + 1;
        assert(hasher@ =~= whole.take(i + 2));
    }
    assert(whole.take(i + 2) =~= whole);
    hasher.finish()
}

impl<F> HashableGraphNode<F> {
    /// A task with the given priority and dependencies, whose hash is computed from these two.
    pub fn new(priority: i32, dependencies: Vec<u64>, action: F) -> (node: Self)
        ensures
            node.priority == priority,
            node.dependencies == dependencies,
            node.hash == hash_of(priority, dependencies@),
            node.action == action,
    {
        let hash: u64 = task_hash(priority, &dependencies);
        HashableGraphNode::with_hash(priority, dependencies, hash, action)
    }

    /// A task with the given priority, dependencies and hash.
    pub fn with_hash(priority: i32, dependencies: Vec<u64>, hash: u64, action: F) -> (node: Self)
        ensures
            node.priority == priority,
            node.dependencies == dependencies,
            node.hash == hash,
            node.action == action,
    {
        HashableGraphNode { priority, dependencies, hash, action }
    }

    /// The task for a log, without what it executes.
    pub fn debug_text(&self) -> (text: String)
        ensures
            text@ == "HashableGraphNode { priority: "@ + signed_decimal(self.priority as int)
                + ", dependencies: "@ + bracketed(self.dependencies@) + ", hash: "@ + decimal(
                self.hash as nat,
            ) + ", .. }"@,
    {
        let mut text = String::new();
        text.append("HashableGraphNode { priority: ");
        push_signed(&mut text, self.priority);
        text.append(", dependencies: ");
        push_bracketed(&mut text, &self.dependencies);
        text.append(", hash: ");
        push_decimal(&mut text, self.hash);
        text.append(", .. }");
        assert(text@ =~= "HashableGraphNode { priority: "@ + signed_decimal(self.priority as int)
            + ", dependencies: "@ + bracketed(self.dependencies@) + ", hash: "@ + decimal(
            self.hash as nat,
        ) + ", .. }"@);
        text
    }
}

impl<F> TaskNode<u64> for HashableGraphNode<F> {
    type Payload = F;

    open spec fn model(&self) -> TaskModel<u64, F> {
        TaskModel {
            priority: self.priority,
            dependencies: self.dependencies@,
            action: self.action,
        }
    }

    fn priority(&self) -> (priority: i32) {
        self.priority
    }

    fn dependencies(&self) -> (dependencies: &Vec<u64>) {
        &self.dependencies
    }
}

/// Tasks are equal where their hashes are.
impl<F> PartialEq for HashableGraphNode<F> {
    fn eq(&self, other: &Self) -> (equal: bool) {
        self.hash == other.hash
    }
}

impl<F> vstd::std_specs::cmp::PartialEqSpecImpl for HashableGraphNode<F> {
    open spec fn obeys_eq_spec() -> bool {
        true
    }

    open spec fn eq_spec(&self, other: &Self) -> bool {
        self.hash == other.hash
    }
}

impl<F> Eq for HashableGraphNode<F> {

}

/// Two tasks whose hashes were computed, with the same priority and the same dependencies, are
/// equal, whatever they execute.
pub proof fn law_equal_tasks_have_equal_hashes<F>(
    a: HashableGraphNode<F>,
    b: HashableGraphNode<F>,
)
    requires
        a.hash == hash_of(a.priority, a.dependencies@),
        b.hash == hash_of(b.priority, b.dependencies@),
        a.priority == b.priority,
        a.dependencies@ == b.dependencies@,
    ensures
        a.hash == b.hash,
        a.eq_spec(&b),
{
}

/// A graph of tasks that are filed under their hashes.
pub struct Graph<F> {
    tasks: TaskGraph<u64, HashableGraphNode<F>>,
}

impl<F> View for Graph<F> {
    type V = GraphModel<u64, F>;

    closed spec fn view(&self) -> GraphModel<u64, F> {
        self.tasks@
    }
}

impl<F> Graph<F> {
    /// The graph is well formed and every task is filed under its hash.
    pub closed spec fn wf(&self) -> bool {
        &&& self.tasks@.wf()
        &&& forall|k: u64| #[trigger]
            self.tasks.nodes().contains_key(k) ==> self.tasks.nodes()[k].hash == k
    }

    /// The stored tasks.
    pub closed spec fn nodes(&self) -> Map<u64, HashableGraphNode<F>> {
        self.tasks.nodes()
    }

    /// What a graph that is in order offers to laws about its state.
    pub proof fn lemma_wf(&self)
        requires
            self.wf(),
        ensures
            self@.wf(),
            models(self.nodes()) == self@.tasks,
            forall|k: u64| #[trigger]
                self.nodes().contains_key(k) ==> self.nodes()[k].hash == k,
    {
        self.tasks.lemma_nodes();
    }

    /// A graph without tasks.
    pub fn new() -> (graph: Self)
        ensures
            graph.wf(),
            graph@ == GraphModel::<u64, F>::empty(),
            graph.nodes() == Map::<u64, HashableGraphNode<F>>::empty(),
    {
        Graph { tasks: TaskGraph::new() }
    }

    /// Adds a task. It is refused where its hash is in use or a dependency is not in the graph;
    /// the graph is then left as it was.
    pub fn add_node(&mut self, node: HashableGraphNode<F>) -> (added: Result<(), AddError<u64>>)
        requires
            old(self).wf(),
        ensures
            final(self).wf(),
            final(self)@.wf(),
            match added {
                Ok(_) => {
                    &&& old(self)@.accepts(node.hash, node.model())
                    &&& final(self)@ == old(self)@.with_task(node.hash, node.model())
                    &&& final(self).nodes() == old(self).nodes().insert(node.hash, node)
                },
                Err(AddError::AlreadyExists(hash)) => {
                    &&& old(self)@.tasks.contains_key(node.hash)
                    &&& hash == node.hash
                    &&& final(self)@ == old(self)@
                    &&& final(self).nodes() == old(self).nodes()
                },
                Err(AddError::DependencyNotFound) => {
                    &&& !old(self)@.tasks.contains_key(node.hash)
                    &&& !all_known(old(self)@.tasks, node.dependencies@)
                    &&& final(self)@ == old(self)@
                    &&& final(self).nodes() == old(self).nodes()
                },
            },
    {
        let hash: u64 = node.hash;
        self.tasks.add(hash, node)
    }

    /// The tasks that depend on a task, in the order in which they were added; one that names
    /// the task several times is listed as often.
    pub fn get_dependents(&self, node_hash: u64) -> (list: Option<&Vec<u64>>)
        ensures
            list is Some <==> self@.dependents.contains_key(node_hash),
            list matches Some(list) ==> list@ == self@.dependents[node_hash],
    {
        self.tasks.dependents(&node_hash)
    }

    /// The task that is filed under a hash.
    pub fn get_node(&self, node_hash: u64) -> (node: Option<&HashableGraphNode<F>>)
        requires
            self.wf(),
        ensures
            node == (if self.nodes().contains_key(node_hash) {
                Some(&self.nodes()[node_hash])
            } else {
                None
            }),
            node is Some <==> self@.tasks.contains_key(node_hash),
            node matches Some(node) ==> node.hash == node_hash && node.model()
                == self@.tasks[node_hash],
    {
        self.tasks.get(&node_hash)
    }
}

/// What a scheduler is told of a task is what the task holds: its priority, all its dependencies in
/// their order, and what it executes.
pub proof fn law_task_is_what_the_hashed_node_holds<F>(node: HashableGraphNode<F>)
    ensures
        node.model().priority == node.priority,
        node.model().dependencies == node.dependencies@,
        node.model().action == node.action,
{
}

/// Tasks are equal exactly if their hashes are, whatever else they hold.
pub proof fn law_equality_is_that_of_hashes<F>(a: HashableGraphNode<F>, b: HashableGraphNode<F>)
    ensures
        a.eq_spec(&b) <==> a.hash == b.hash,
{
}

/// The hasher is fed the priority, then the number of dependencies, then each dependency in order,
/// and nothing else.
pub proof fn law_hasher_is_fed_everything(priority: i32, dependencies: Seq<u64>)
    ensures
        hash_of(priority, dependencies) == DefaultHasher::spec_finish(
            fed(priority, dependencies),
        ),
        fed(priority, dependencies).len() == dependencies.len() + 2,
        priority >= 0 ==> fed(priority, dependencies)[0] == spec_u32_to_le_bytes(priority as u32),
        priority < 0 ==> fed(priority, dependencies)[0] == spec_u32_to_le_bytes(
            (priority + 0x1_0000_0000) as u32,
        ),
        fed(priority, dependencies)[1] == spec_u64_to_le_bytes(dependencies.len() as u64),
        forall|i: int|
            0 <= i < dependencies.len() ==> #[trigger] fed(priority, dependencies)[i + 2]
                == spec_u64_to_le_bytes(dependencies[i]),
{
}

/// Two tasks with different priorities or different dependencies feed the hasher differently.
pub proof fn law_hasher_tells_tasks_apart(
    priority: i32,
    dependencies: Seq<u64>,
    other_priority: i32,
    others: Seq<u64>,
)
    requires
        fed(priority, dependencies) == fed(other_priority, others),
    ensures
        priority == other_priority,
        dependencies == others,
{
    vstd::bytes::lemma_auto_spec_u32_to_from_le_bytes();
    vstd::bytes::lemma_auto_spec_u64_to_from_le_bytes();
    let a = fed(priority, dependencies);
    let b = fed(other_priority, others);
    assert(a[0] == spec_u32_to_le_bytes(unsigned(priority)) && a[0].len() == 4);
    assert(b[0] == spec_u32_to_le_bytes(unsigned(other_priority)) && b[0].len() == 4);
    assert(spec_u32_to_le_bytes(unsigned(priority)).len() == 4);
    assert(spec_u32_to_le_bytes(unsigned(other_priority)).len() == 4);
    assert(a.len() == b.len());
    assert forall|i: int| 0 <= i < dependencies.len() implies dependencies[i] == others[i] by {
        assert(a[i + 2] == spec_u64_to_le_bytes(dependencies[i]));
        assert(b[i + 2] == spec_u64_to_le_bytes(others[i]));
        assert(vstd::bytes::spec_u64_from_le_bytes(a[i + 2]) == dependencies[i]);
    }
    assert(dependencies =~= others);
}

} // verus!
