//! Tasks.

use vstd::prelude::*;

verus! {

/// A task: its priority, the tasks that have to be completed before it may run, and what it
/// executes.
#[verifier::ext_equal]
pub struct TaskModel<K, P> {
    pub priority: i32,
    pub dependencies: Seq<K>,
    pub action: P,
}

/// A task as it is stored in a graph.
pub trait TaskNode<K> {
    /// What the task executes.
    type Payload;

    /// The task itself.
    spec fn model(&self) -> TaskModel<K, Self::Payload>;

    /// The priority of the task: the higher, the earlier it runs.
    fn priority(&self) -> (priority: i32)
        ensures
            priority == self.model().priority,
    ;

    /// The tasks that have to be completed before this one may run.
    fn dependencies(&self) -> (dependencies: &Vec<K>)
        ensures
            dependencies@ == self.model().dependencies,
    ;
}

/// The tasks of a table.
pub open spec fn models<K, N: TaskNode<K>>(nodes: Map<K, N>) -> Map<K, TaskModel<K, N::Payload>> {
    nodes.map_values(|node: N| node.model())
}

/// The tasks of a table are those of its nodes, under the same keys.
pub proof fn law_models_keep_keys<K, N: TaskNode<K>>(nodes: Map<K, N>, key: K)
    ensures
        models(nodes).contains_key(key) <==> nodes.contains_key(key),
        nodes.contains_key(key) ==> models(nodes)[key] == nodes[key].model(),
{
}

} // verus!
