//! Tasks that are identified by the order in which they were added.

use vstd::prelude::*;
use vstd::string::StringExecFns;

use crate::node::{TaskModel, TaskNode};
use crate::text::{bracketed, push_bracketed, push_signed, signed_decimal};

verus! {

/// A task: its priority, the indices of the tasks that it depends on, and what it executes.
#[derive(Clone)]
pub struct GraphNode<F> {
    pub priority: i32,
    pub dependencies: Vec<usize>,
    pub action: F,
}

impl<F> GraphNode<F> {
    /// A task with the given priority and dependencies.
    pub fn new(priority: i32, dependencies: Vec<usize>, action: F) -> (node: Self)
        ensures
            node.priority == priority,
            node.dependencies == dependencies,
            node.action == action,
    {
        GraphNode { priority, dependencies, action }
    }

    /// The task for a log, without what it executes.
    pub fn debug_text(&self) -> (text: String)
        ensures
            text@ == "HashableGraphNode { priority: "@ + signed_decimal(self.priority as int)
                + ", dependencies: "@ + bracketed(self.dependencies@) + ", .. }"@,
    {
        let mut text = String::new();
        text.append("HashableGraphNode { priority: ");
        push_signed(&mut text, self.priority);
        text.append(", dependencies: ");
        push_bracketed(&mut text, &self.dependencies);
        text.append(", .. }");
        assert(text@ =~= "HashableGraphNode { priority: "@ + signed_decimal(self.priority as int)
            + ", dependencies: "@ + bracketed(self.dependencies@) + ", .. }"@);
        text
    }
}

impl<F> TaskNode<usize> for GraphNode<F> {
    type Payload = F;

    open spec fn model(&self) -> TaskModel<usize, F> {
        TaskModel {
            priority: self.priority,
            dependencies: self.dependencies@,
            action: self.action,
        }
    }

    fn priority(&self) -> (priority: i32) {
        self.priority
    }

    fn dependencies(&self) -> (dependencies: &Vec<usize>) {
        &self.dependencies
    }
}

/// What a scheduler is told of a task is what the task holds: its priority, all its dependencies in
/// their order, and what it executes.
pub proof fn law_task_is_what_the_node_holds<F>(node: GraphNode<F>)
    ensures
        node.model().priority == node.priority,
        node.model().dependencies == node.dependencies@,
        node.model().action == node.action,
{
}

} // verus!
