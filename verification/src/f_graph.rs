//! A task graph in which a finished task can add further tasks.

use vstd::prelude::*;

use crate::deadlock::{explains, Deadlock};
use crate::graph_node::GraphNode;
use crate::node::{models, TaskModel, TaskNode};
use crate::schedule::{
    law_completion_keeps_sound, law_empty_is_sound, law_filling_up, law_requeue_is_idle,
    law_start_leaves_tasks_alone, law_starts_by_priority, law_with_limit_keeps_sound,
    law_with_task_keeps_sound, starts_all, Schedule,
};
use crate::scheduler::{
    decides, is_round, law_round, law_round_leaves_tasks_alone, Progress, Round, Scheduler,
};
use crate::task_graph::{all_known, AddError};

verus! {

/// Whether the tasks are numbered in the order in which they were added, so that each depends
/// on tasks with smaller numbers only.
pub open spec fn numbered<P>(s: Schedule<usize, P>) -> bool {
    &&& s.graph.tasks.dom().finite()
    &&& forall|k: usize| #[trigger] s.graph.tasks.contains_key(k) <==> k < s.graph.tasks.len()
    &&& forall|k: usize, i: int|
        s.graph.tasks.contains_key(k) && 0 <= i < s.graph.dependencies(k).len()
            ==> #[trigger] s.graph.dependencies(k)[i] < k
}

/// The number that the next task gets.
pub open spec fn next_index<P>(s: Schedule<usize, P>) -> usize {
    s.graph.tasks.len() as usize
}

/// Whether all dependencies of a task have been numbered.
pub open spec fn depends_backwards<P>(s: Schedule<usize, P>, task: TaskModel<usize, P>) -> bool {
    forall|i: int|
        0 <= i < task.dependencies.len() ==> #[trigger] task.dependencies[i] < s.graph.tasks.len()
}

/// The task as a child of `finished`: it also depends on `finished`.
pub open spec fn as_child<P>(task: TaskModel<usize, P>, finished: usize) -> TaskModel<usize, P> {
    if task.dependencies.contains(finished) {
        task
    } else {
        TaskModel { dependencies: task.dependencies.push(finished), ..task }
    }
}

/// The state after the children of `finished` were added; one with an unknown dependency is left
/// out.
pub open spec fn with_children<P>(
    s: Schedule<usize, P>,
    children: Seq<TaskModel<usize, P>>,
    finished: usize,
) -> Schedule<usize, P>
    decreases children.len(),
{
    if children.len() == 0 {
        s
    } else {
        let mid = with_children(s, children.drop_last(), finished);
        let child = as_child(children.last(), finished);
        if depends_backwards(mid, child) {
            mid.with_task(next_index(mid), child)
        } else {
            mid
        }
    }
}

/// The number of children of `finished` that are left out because of an unknown dependency.
pub open spec fn refused_children<P>(
    s: Schedule<usize, P>,
    children: Seq<TaskModel<usize, P>>,
    finished: usize,
) -> nat
    decreases children.len(),
{
    if children.len() == 0 {
        0
    } else {
        let mid = with_children(s, children.drop_last(), finished);
        let before = refused_children(s, children.drop_last(), finished);
        if depends_backwards(mid, as_child(children.last(), finished)) {
            before
        } else {
            before + 1
        }
    }
}

/// Whether the stored tasks `after` are those of the state `s`, and those of `before` are stored
/// as they were.
pub open spec fn keeps_nodes<F>(
    before: Map<usize, GraphNode<F>>,
    after: Map<usize, GraphNode<F>>,
    s: Schedule<usize, F>,
) -> bool {
    &&& forall|k: usize| #[trigger]
        before.contains_key(k) ==> after.contains_key(k) && after[k] == before[k]
    &&& models(after) == s.graph.tasks
}

/// The tasks of a sequence of nodes.
pub open spec fn tasks_of<F>(nodes: Seq<GraphNode<F>>) -> Seq<TaskModel<usize, F>> {
    nodes.map_values(|node: GraphNode<F>| node.model())
}

/// Adding a numbered task keeps the numbering.
pub proof fn lemma_with_task_keeps_numbers<P>(s: Schedule<usize, P>, task: TaskModel<usize, P>)
    requires
        numbered(s),
        s.graph.tasks.len() <= usize::MAX,
        depends_backwards(s, task),
    ensures
        s.graph.accepts(next_index(s), task),
        numbered(s.with_task(next_index(s), task)),
        s.with_task(next_index(s), task).graph.tasks.len() == s.graph.tasks.len() + 1,
{
    let next = s.with_task(next_index(s), task);
    assert forall|k: usize, i: int|
        next.graph.tasks.contains_key(k) && 0 <= i < next.graph.dependencies(
            k,
        ).len() implies #[trigger] next.graph.dependencies(k)[i] < k by {
        if k == next_index(s) {
            assert(task.dependencies[i] < s.graph.tasks.len());
        } else {
            assert(s.graph.dependencies(k)[i] < k);
        }
    }
}

/// A task graph. Tasks run when their dependencies are completed, those with the higher priority
/// first, and a finished task can add children.
pub struct FGraph<F> {
    scheduler: Scheduler<usize, GraphNode<F>>,
}

impl<F> View for FGraph<F> {
    type V = Schedule<usize, F>;

    closed spec fn view(&self) -> Schedule<usize, F> {
        self.scheduler@
    }
}

impl<F> FGraph<F> {
    /// The tasks are numbered, and what the scheduler keeps is in order.
    pub closed spec fn wf(&self) -> bool {
        self.scheduler.wf() && numbered(self.scheduler@)
    }

    /// The stored tasks.
    pub closed spec fn nodes(&self) -> Map<usize, GraphNode<F>> {
        self.scheduler.nodes()
    }

    /// What a graph that is in order offers to laws about its state.
    pub proof fn lemma_wf(&self)
        requires
            self.wf(),
        ensures
            numbered(self@),
            self@.graph.wf(),
            models(self.nodes()) == self@.graph.tasks,
    {
        self.scheduler.lemma_wf();
    }

    /// A graph without tasks that runs one task at a time.
    pub fn new() -> (graph: Self)
        ensures
            graph.wf(),
            graph@ == Schedule::<usize, F>::empty(),
            graph@.sound(),
            graph.nodes() == Map::<usize, GraphNode<F>>::empty(),
    {
        proof {
            law_empty_is_sound::<usize, F>();
        }
        FGraph { scheduler: Scheduler::new() }
    }

    /// Lets `n` tasks run at a time, but one at least.
    pub fn with_concurrency(self, n: usize) -> (graph: Self)
        requires
            self.wf(),
        ensures
            graph.wf(),
            graph@ == self@.with_limit(n as nat),
            graph.nodes() == self.nodes(),
            self@.sound() ==> graph@.sound(),
    {
        proof {
            if self@.sound() {
                law_with_limit_keeps_sound(self@, n as nat);
            }
        }
        let mut graph = self;
        graph.scheduler.set_concurrency(n);
        graph
    }

    /// Adds a task and returns its number: the number of tasks that were there before. A task
    /// that depends on one that is not in the graph is refused, and nothing changes.
    pub fn add_task(&mut self, node: GraphNode<F>) -> (added: Result<usize, AddError<usize>>)
        requires
            old(self).wf(),
        ensures
            final(self).wf(),
            match added {
                Ok(id) => {
                    &&& depends_backwards(old(self)@, node.model())
                    &&& id == old(self)@.graph.tasks.len()
                    &&& final(self)@ == old(self)@.with_task(id, node.model())
                    &&& final(self).nodes() == old(self).nodes().insert(id, node)
                },
                Err(error) => {
                    &&& !depends_backwards(old(self)@, node.model())
                    &&& error is DependencyNotFound
                    &&& final(self)@ == old(self)@
                    &&& final(self).nodes() == old(self).nodes()
                },
            },
            old(self)@.sound() ==> final(self)@.sound(),
    {
        let id: usize = self.scheduler.len();
        let ghost pre = self@;
        let ghost task = node.model();
        proof {
            assert(depends_backwards(pre, task) <==> all_known(pre.graph.tasks, task.dependencies))
                by {
                if all_known(pre.graph.tasks, task.dependencies) {
                    assert forall|i: int| 0 <= i < task.dependencies.len() implies
                        #[trigger] task.dependencies[i] < pre.graph.tasks.len() by {
                        assert(pre.graph.tasks.contains_key(task.dependencies[i]));
                    }
                }
            }
            assert(!pre.graph.tasks.contains_key(id));
            if depends_backwards(pre, task) {
                lemma_with_task_keeps_numbers(pre, task);
                if pre.sound() {
                    law_with_task_keeps_sound(pre, id, task);
                }
            }
        }
        self.scheduler.add(id, node)?;
        Ok(id)
    }

    /// The task with the given number.
    pub fn get(&self, index: usize) -> (node: Option<&GraphNode<F>>)
        ensures
            node == (if self.nodes().contains_key(index) {
                Some(&self.nodes()[index])
            } else {
                None
            }),
            node is Some <==> self@.graph.tasks.contains_key(index),
            node matches Some(node) ==> node.model() == self@.graph.tasks[index],
    {
        self.scheduler.get(&index)
    }

    /// Whether a task is in the graph and all its dependencies are completed.
    pub fn are_dependencies_met(&self, index: &usize) -> (met: bool)
        ensures
            met == self@.met(*index),
    {
        self.scheduler.are_dependencies_met(index)
    }

    /// Queues every waiting task whose dependencies are completed; a run starts with this.
    pub fn requeue_waiting_ready(&mut self)
        requires
            old(self).wf(),
        ensures
            final(self).wf(),
            final(self)@ == old(self)@.requeued(),
            final(self).nodes() == old(self).nodes(),
            old(self)@.sound() ==> final(self)@ == old(self)@,
    {
        proof {
            if self@.sound() {
                law_requeue_is_idle(self@);
            }
        }
        self.scheduler.requeue_waiting_ready();
    }

    /// Says whether the run is stuck: nothing runs, nothing is queued, and tasks wait.
    pub fn detect_deadlock(&self) -> (verdict: Result<(), Deadlock<usize>>)
        requires
            self.wf(),
        ensures
            verdict is Ok <==> !self@.idle() || self@.waiting == Set::<usize>::empty(),
            verdict matches Err(deadlock) ==> explains(
                self@.graph.tasks,
                self@.waiting,
                self@.completed,
                deadlock,
            ),
    {
        self.scheduler.detect_deadlock()
    }

    /// Starts tasks, the highest-ranked one first, until there is no room left or none is yet to
    /// run, and returns them in that order.
    pub fn start_ready(&mut self) -> (started: Vec<usize>)
        requires
            old(self).wf(),
        ensures
            final(self).wf(),
            starts_all(old(self)@, started@, final(self)@),
            final(self).nodes() == old(self).nodes(),
            old(self)@.sound() ==> final(self)@.sound(),
    {
        let started = self.scheduler.start_ready();
        proof {
            law_start_leaves_tasks_alone(old(self)@, started@, self@);
            if old(self)@.sound() {
                law_filling_up(old(self)@, started@, self@);
            }
        }
        started
    }

    /// Decides how the run goes on once no further task can be started.
    pub fn check_progress(&mut self) -> (progress: Progress<usize>)
        requires
            old(self).wf(),
        ensures
            final(self).wf(),
            decides(old(self)@, progress, final(self)@),
            final(self).nodes() == old(self).nodes(),
            old(self)@.sound() ==> final(self)@ == old(self)@,
    {
        let progress = self.scheduler.check_progress();
        proof {
            if old(self)@.sound() {
                law_requeue_is_idle(old(self)@);
            }
        }
        progress
    }

    /// Begins a run: queues the waiting tasks whose dependencies are completed, and goes through
    /// the first round.
    pub fn begin(&mut self) -> (round: Round<usize>)
        requires
            old(self).wf(),
        ensures
            final(self).wf(),
            is_round(old(self)@.requeued(), round, final(self)@),
            final(self).nodes() == old(self).nodes(),
            old(self)@.sound() ==> final(self)@.sound() && is_round(
                old(self)@,
                round,
                final(self)@,
            ),
    {
        self.requeue_waiting_ready();
        self.next_round()
    }

    /// Goes on with a run after a task was completed: records that, adds the children that it
    /// returned, and goes through the next round. One error is returned for each child that is
    /// left out.
    pub fn advance(&mut self, finished: usize, children: Vec<GraphNode<F>>) -> (next: (
        Round<usize>,
        Vec<AddError<usize>>,
    ))
        requires
            old(self).wf(),
        ensures
            final(self).wf(),
            is_round(
                with_children(old(self)@.with_completed(finished), tasks_of(children@), finished),
                next.0,
                final(self)@,
            ),
            next.1@.len() == refused_children(
                old(self)@.with_completed(finished),
                tasks_of(children@),
                finished,
            ),
            forall|i: int| 0 <= i < next.1@.len() ==> #[trigger] next.1@[i] is DependencyNotFound,
            keeps_nodes(old(self).nodes(), final(self).nodes(), final(self)@),
            old(self)@.sound() && old(self)@.running.contains(finished) ==> final(self)@.sound(),
    {
        let refused = self.complete(finished, children);
        let round = self.next_round();
        proof {
            self.lemma_wf();
        }
        (round, refused)
    }

    /// Goes through one round.
    fn next_round(&mut self) -> (round: Round<usize>)
        requires
            old(self).wf(),
        ensures
            final(self).wf(),
            is_round(old(self)@, round, final(self)@),
            final(self).nodes() == old(self).nodes(),
            old(self)@.sound() ==> final(self)@.sound(),
    {
        let round = self.scheduler.next_round();
        proof {
            law_round_leaves_tasks_alone(old(self)@, round, self@);
            if old(self)@.sound() {
                law_round(old(self)@, round, self@);
            }
        }
        round
    }

    /// Records that a task was completed, queues the tasks that waited for it alone, and adds the
    /// children that it returned, each depending on it. One error is returned for each child that
    /// depends on a task that is not in the graph; such a child is left out.
    pub fn complete(&mut self, finished: usize, children: Vec<GraphNode<F>>) -> (refused: Vec<
        AddError<usize>,
    >)
        requires
            old(self).wf(),
        ensures
            final(self).wf(),
            final(self)@ == with_children(
                old(self)@.with_completed(finished),
                tasks_of(children@),
                finished,
            ),
            refused@.len() == refused_children(
                old(self)@.with_completed(finished),
                tasks_of(children@),
                finished,
            ),
            forall|i: int| 0 <= i < refused@.len() ==> #[trigger] refused@[i] is DependencyNotFound,
            keeps_nodes(old(self).nodes(), final(self).nodes(), final(self)@),
            old(self)@.sound() && old(self)@.running.contains(finished) ==> final(self)@.sound(),
    {
        self.scheduler.complete(finished);
        let ghost base = self@;
        let ghost steady = old(self)@.sound() && old(self)@.running.contains(finished);
        let ghost tasks = tasks_of(children@);
        let ghost given = children@;
        proof {
            if steady {
                law_completion_keeps_sound(old(self)@, finished);
            }
        }
        let mut refused: Vec<AddError<usize>> = Vec::new();
        proof {
            self.lemma_wf();
        }
        assert(tasks.take(0) =~= Seq::<TaskModel<usize, F>>::empty());
        for child in it: children
            invariant
                self.wf(),
                keeps_nodes(old(self).nodes(), self.nodes(), self@),
                it.seq() == given,
                tasks == tasks_of(given),
                steady ==> self@.sound(),
                self@ == with_children(base, tasks.take(it.index() as int), finished),
                refused@.len() == refused_children(base, tasks.take(it.index() as int), finished),
                forall|i: int|
                    0 <= i < refused@.len() ==> #[trigger] refused@[i] is DependencyNotFound,
        {
            let ghost n = it.index() as int;
            proof {
                assert(child == given[n]);
                assert(tasks.take(n + 1).drop_last() =~= tasks.take(n));
                assert(tasks.take(n + 1).last() == child.model());
            }
            let node = child.under(finished);
            match self.add_task(node) {
                Ok(_) => {},
                Err(error) => {
                    refused.push(error);
                },
            }
            proof {
                self.lemma_wf();
            }
        }
        assert(tasks.take(tasks.len() as int) =~= tasks);
        refused
    }
}

impl<F> GraphNode<F> {
    /// The task as a child of `finished`: it also depends on `finished`.
    fn under(self, finished: usize) -> (node: GraphNode<F>)
        ensures
            node.model() == as_child(self.model(), finished),
    {
        let mut node = self;
        let mut i: usize = 0;
        while i < node.dependencies.len()
            invariant
                i <= node.dependencies@.len(),
                node == self,
                forall|j: int| 0 <= j < i ==> node.dependencies@[j] != finished,
            decreases node.dependencies.len() - i,
        {
            if node.dependencies[i] == finished {
                assert(self.model().dependencies.contains(finished));
                return node;
            }
            i = i + 1;
        }
        assert(!self.model().dependencies.contains(finished));
        node.dependencies.push(finished);
        node
    }
}

impl<F> Default for FGraph<F> {
    fn default() -> (graph: Self)
        ensures
            graph.wf(),
            graph@ == Schedule::<usize, F>::empty(),
            graph@.sound(),
            graph.nodes() == Map::<usize, GraphNode<F>>::empty(),
    {
        FGraph::new()
    }
}

/// Whatever a finished task adds to the graph runs after it: a task that is there afterwards and
/// was not there before depends on the finished one.
pub proof fn law_children_run_after_their_parent<P>(
    s: Schedule<usize, P>,
    children: Seq<TaskModel<usize, P>>,
    finished: usize,
    id: usize,
)
    requires
        !s.graph.tasks.contains_key(id),
        with_children(s, children, finished).graph.tasks.contains_key(id),
    ensures
        with_children(s, children, finished).graph.dependencies(id).contains(finished),
    decreases children.len(),
{
    if children.len() > 0 {
        let mid = with_children(s, children.drop_last(), finished);
        let last = children.last();
        let child = as_child(last, finished);
        assert(child.dependencies.contains(finished)) by {
            if !last.dependencies.contains(finished) {
                assert(child.dependencies[last.dependencies.len() as int] == finished);
            }
        }
        if !depends_backwards(mid, child) || id != next_index(mid) {
            law_children_run_after_their_parent(s, children.drop_last(), finished, id);
        }
    }
}

/// Adding children leaves the tasks that are there, and the completed ones, alone.
pub proof fn law_children_change_no_other_task<P>(
    s: Schedule<usize, P>,
    children: Seq<TaskModel<usize, P>>,
    finished: usize,
)
    requires
        numbered(s),
        s.graph.tasks.len() + children.len() <= usize::MAX,
    ensures
        ({
            let end = with_children(s, children, finished);
            &&& numbered(end)
            &&& end.completed == s.completed
            &&& end.running == s.running
            &&& end.graph.tasks.len() + refused_children(s, children, finished)
                == s.graph.tasks.len() + children.len()
            &&& forall|k: usize| #[trigger]
                s.graph.tasks.contains_key(k) ==> end.graph.tasks.contains_key(k)
                    && end.graph.tasks[k] == s.graph.tasks[k]
        }),
    decreases children.len(),
{
    if children.len() > 0 {
        law_children_change_no_other_task(s, children.drop_last(), finished);
        let mid = with_children(s, children.drop_last(), finished);
        let child = as_child(children.last(), finished);
        if depends_backwards(mid, child) {
            lemma_with_task_keeps_numbers(mid, child);
        }
    }
}

/// A task is added exactly if each of its dependencies has a number that is in use, whatever else
/// it holds.
pub proof fn law_known_numbers_are_accepted<P>(s: Schedule<usize, P>, task: TaskModel<usize, P>)
    ensures
        depends_backwards(s, task) <==> forall|i: int|
            0 <= i < task.dependencies.len() ==> (#[trigger] task.dependencies[i] as int)
                < s.graph.tasks.len(),
{
}

/// The tasks of a sequence of nodes are what the nodes hold, in their order.
pub proof fn law_tasks_are_what_the_nodes_hold<F>(nodes: Seq<GraphNode<F>>, i: int)
    requires
        0 <= i < nodes.len(),
    ensures
        tasks_of(nodes).len() == nodes.len(),
        tasks_of(nodes)[i].priority == nodes[i].priority,
        tasks_of(nodes)[i].dependencies == nodes[i].dependencies@,
        tasks_of(nodes)[i].action == nodes[i].action,
{
}

/// A child keeps its priority, what it executes, and all its dependencies in their order. The
/// finished task comes last if the child did not name it, and nothing else is added.
pub proof fn law_child_keeps_what_it_was_given<P>(task: TaskModel<usize, P>, finished: usize)
    ensures
        ({
            let child = as_child(task, finished);
            &&& child.priority == task.priority
            &&& child.action == task.action
            &&& child.dependencies.contains(finished)
            &&& task.dependencies.len() <= child.dependencies.len()
            &&& forall|i: int|
                0 <= i < task.dependencies.len() ==> #[trigger] child.dependencies[i]
                    == task.dependencies[i]
            &&& forall|i: int|
                task.dependencies.len() <= i < child.dependencies.len()
                    ==> #[trigger] child.dependencies[i] == finished
            &&& child.dependencies.len() == task.dependencies.len() + (
            if task.dependencies.contains(finished) {
                0int
            } else {
                1
            })
        }),
{
    let child = as_child(task, finished);
    if !task.dependencies.contains(finished) {
        assert(child.dependencies[task.dependencies.len() as int] == finished);
    }
}

/// Children are dealt with one after the other. If the finished task is in the graph, each child
/// that depends on tasks in the graph alone, earlier children among them, gets the next number. It
/// is stored with its own priority, what it executes, and its own dependencies, which are followed
/// by the finished task unless that is among them. One that names another task is refused, and
/// changes nothing.
pub proof fn law_each_child_is_added_or_refused<P>(
    s: Schedule<usize, P>,
    children: Seq<TaskModel<usize, P>>,
    child: TaskModel<usize, P>,
    finished: usize,
)
    requires
        numbered(s),
        s.graph.tasks.len() + children.len() < usize::MAX,
    ensures
        with_children(s, Seq::empty(), finished) == s,
        refused_children(s, Seq::empty(), finished) == 0,
        ({
            let pre = with_children(s, children, finished);
            let post = with_children(s, children.push(child), finished);
            let id = pre.graph.tasks.len() as usize;
            let refused = refused_children(s, children, finished);
            if pre.graph.tasks.contains_key(finished) && forall|i: int|
                0 <= i < child.dependencies.len() ==> pre.graph.tasks.contains_key(
                    #[trigger] child.dependencies[i],
                ) {
                &&& post.graph.tasks.dom() == pre.graph.tasks.dom().insert(id)
                &&& !pre.graph.tasks.contains_key(id)
                &&& post.graph.tasks == pre.graph.tasks.insert(id, post.graph.tasks[id])
                &&& post.graph.tasks[id].priority == child.priority
                &&& post.graph.tasks[id].action == child.action
                &&& post.graph.tasks[id].dependencies == (if child.dependencies.contains(finished) {
                    child.dependencies
                } else {
                    child.dependencies.push(finished)
                })
                &&& post == pre.with_task(id, post.graph.tasks[id])
                &&& refused_children(s, children.push(child), finished) == refused
            } else {
                &&& post == pre
                &&& refused_children(s, children.push(child), finished) == refused + 1
            }
        }),
{
    law_children_change_no_other_task(s, children, finished);
    let pre = with_children(s, children, finished);
    let stored = as_child(child, finished);
    assert(children.push(child).drop_last() =~= children);
    assert(depends_backwards(pre, stored) <==> pre.graph.tasks.contains_key(finished) && forall|
        i: int,
    |
        0 <= i < child.dependencies.len() ==> pre.graph.tasks.contains_key(
            #[trigger] child.dependencies[i],
        )) by {
        law_child_keeps_what_it_was_given(child, finished);
        if depends_backwards(pre, stored) {
            let last = stored.dependencies.index_of(finished);
            assert(stored.dependencies[last] < pre.graph.tasks.len());
            assert forall|i: int| 0 <= i < child.dependencies.len() implies
                pre.graph.tasks.contains_key(#[trigger] child.dependencies[i]) by {
                assert(stored.dependencies[i] == child.dependencies[i]);
                assert(stored.dependencies[i] < pre.graph.tasks.len());
            }
        }
        if pre.graph.tasks.contains_key(finished) && forall|i: int|
            0 <= i < child.dependencies.len() ==> pre.graph.tasks.contains_key(
                #[trigger] child.dependencies[i],
            ) {
            assert forall|i: int| 0 <= i < stored.dependencies.len() implies
                #[trigger] stored.dependencies[i] < pre.graph.tasks.len() by {
                if i < child.dependencies.len() {
                    assert(pre.graph.tasks.contains_key(child.dependencies[i]));
                }
            }
        }
    }
    if depends_backwards(pre, stored) {
        let post = with_children(s, children.push(child), finished);
        assert(post.graph.tasks[next_index(pre)] == stored);
        assert(post.graph.tasks.dom() =~= pre.graph.tasks.dom().insert(next_index(pre)));
        assert(post.graph.tasks =~= pre.graph.tasks.insert(next_index(pre), stored));
    }
}

/// A child that the graph holds afterwards starts only when all its own dependencies, and the task
/// that it comes from, are completed.
pub proof fn law_child_waits_for_its_own_dependencies<P>(
    s: Schedule<usize, P>,
    children: Seq<TaskModel<usize, P>>,
    child: TaskModel<usize, P>,
    finished: usize,
    started: Seq<usize>,
    post: Schedule<usize, P>,
    j: int,
    i: int,
)
    requires
        numbered(s),
        s.graph.tasks.contains_key(finished),
        s.graph.tasks.len() + children.len() < usize::MAX,
        forall|i: int|
            0 <= i < child.dependencies.len() ==> with_children(
                s,
                children,
                finished,
            ).graph.tasks.contains_key(#[trigger] child.dependencies[i]),
        with_children(s, children.push(child), finished).sound(),
        starts_all(with_children(s, children.push(child), finished), started, post),
        0 <= j < started.len(),
        started[j] == with_children(s, children, finished).graph.tasks.len(),
        0 <= i < child.dependencies.len(),
    ensures
        post.completed.contains(child.dependencies[i]),
        post.completed.contains(finished),
{
    let end = with_children(s, children.push(child), finished);
    law_children_change_no_other_task(s, children, finished);
    law_each_child_is_added_or_refused(s, children, child, finished);
    law_starts_by_priority(end, started, post);
    law_start_leaves_tasks_alone(end, started, post);
    let deps = end.graph.tasks[started[j]].dependencies;
    assert(deps[i] == child.dependencies[i]);
    if child.dependencies.contains(finished) {
        let k = child.dependencies.index_of(finished);
        assert(deps[k] == finished);
    } else {
        assert(deps[child.dependencies.len() as int] == finished);
    }
}

} // verus!
