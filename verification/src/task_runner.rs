//! A runner for tasks that are all known before the run, identified by the order in which they
//! were added.

use vstd::prelude::*;

use crate::deadlock::{explains, Deadlock};
use crate::f_graph::{depends_backwards, numbered, tasks_of, FGraph};
use crate::graph_node::GraphNode;
use crate::node::{models, TaskModel, TaskNode};
use crate::schedule::{starts_all, Schedule};
use crate::scheduler::{decides, is_round, law_round_leaves_tasks_alone, Progress, Round};
use crate::task_graph::AddError;

verus! {

/// A runner of tasks. Tasks run when their dependencies are completed, those with the higher
/// priority first.
pub struct TaskRunner<F> {
    tasks: FGraph<F>,
}

impl<F> View for TaskRunner<F> {
    type V = Schedule<usize, F>;

    closed spec fn view(&self) -> Schedule<usize, F> {
        self.tasks@
    }
}

impl<F> TaskRunner<F> {
    /// The tasks are numbered, and what the scheduler keeps is in order.
    pub closed spec fn wf(&self) -> bool {
        self.tasks.wf()
    }

    /// The stored tasks.
    pub closed spec fn nodes(&self) -> Map<usize, GraphNode<F>> {
        self.tasks.nodes()
    }

    /// What a runner that is in order offers to laws about its state.
    pub proof fn lemma_wf(&self)
        requires
            self.wf(),
        ensures
            numbered(self@),
            self@.graph.wf(),
            models(self.nodes()) == self@.graph.tasks,
    {
        self.tasks.lemma_wf();
    }

    /// A runner without tasks that runs one task at a time.
    pub fn new() -> (runner: Self)
        ensures
            runner.wf(),
            runner@ == Schedule::<usize, F>::empty(),
            runner@.sound(),
            runner.nodes() == Map::<usize, GraphNode<F>>::empty(),
    {
        TaskRunner { tasks: FGraph::new() }
    }

    /// Lets `n` tasks run at a time, but one at least.
    pub fn with_concurrency(self, n: usize) -> (runner: Self)
        requires
            self.wf(),
        ensures
            runner.wf(),
            runner@ == self@.with_limit(n as nat),
            runner.nodes() == self.nodes(),
            self@.sound() ==> runner@.sound(),
    {
        TaskRunner { tasks: self.tasks.with_concurrency(n) }
    }

    /// Adds a task and returns its number: the number of tasks that were there before. A task
    /// that depends on one that was not added is refused, and nothing changes.
    pub fn add_task(&mut self, node: GraphNode<F>) -> (added: Result<usize, AddError<usize>>)
        requires
            old(self).wf(),
        ensures
            final(self).wf(),
            match added {
                Ok(id) => {
                    &&& depends_backwards(old(self)@, node.model())
                    &&& id == old(self)@.graph.tasks.len()
                    &&& final(self)@ == old(self)@.with_task(id, node.model())
                    &&& final(self).nodes() == old(self).nodes().insert(id, node)
                },
                Err(error) => {
                    &&& !depends_backwards(old(self)@, node.model())
                    &&& error is DependencyNotFound
                    &&& final(self)@ == old(self)@
                    &&& final(self).nodes() == old(self).nodes()
                },
            },
            old(self)@.sound() ==> final(self)@.sound(),
    {
        self.tasks.add_task(node)
    }

    /// The task with the given number.
    pub fn get(&self, index: usize) -> (node: Option<&GraphNode<F>>)
        ensures
            node == (if self.nodes().contains_key(index) {
                Some(&self.nodes()[index])
            } else {
                None
            }),
            node is Some <==> self@.graph.tasks.contains_key(index),
            node matches Some(node) ==> node.model() == self@.graph.tasks[index],
    {
        self.tasks.get(index)
    }

    /// Whether a task was added and all its dependencies are completed.
    pub fn are_dependencies_met(&self, index: &usize) -> (met: bool)
        ensures
            met == self@.met(*index),
    {
        self.tasks.are_dependencies_met(index)
    }

    /// Queues every waiting task whose dependencies are completed; a run starts with this.
    pub fn requeue_waiting_ready(&mut self)
        requires
            old(self).wf(),
        ensures
            final(self).wf(),
            final(self)@ == old(self)@.requeued(),
            final(self).nodes() == old(self).nodes(),
            old(self)@.sound() ==> final(self)@ == old(self)@,
    {
        self.tasks.requeue_waiting_ready();
    }

    /// Says whether the run is stuck: nothing runs, nothing is queued, and tasks wait.
    pub fn detect_deadlock(&self) -> (verdict: Result<(), Deadlock<usize>>)
        requires
            self.wf(),
        ensures
            verdict is Ok <==> !self@.idle() || self@.waiting == Set::<usize>::empty(),
            verdict matches Err(deadlock) ==> explains(
                self@.graph.tasks,
                self@.waiting,
                self@.completed,
                deadlock,
            ),
    {
        self.tasks.detect_deadlock()
    }

    /// Starts tasks, the highest-ranked one first, until there is no room left or none is yet to
    /// run, and returns them in that order.
    pub fn start_ready(&mut self) -> (started: Vec<usize>)
        requires
            old(self).wf(),
        ensures
            final(self).wf(),
            starts_all(old(self)@, started@, final(self)@),
            final(self).nodes() == old(self).nodes(),
            old(self)@.sound() ==> final(self)@.sound(),
    {
        self.tasks.start_ready()
    }

    /// Decides how the run goes on once no further task can be started.
    pub fn check_progress(&mut self) -> (progress: Progress<usize>)
        requires
            old(self).wf(),
        ensures
            final(self).wf(),
            decides(old(self)@, progress, final(self)@),
            final(self).nodes() == old(self).nodes(),
            old(self)@.sound() ==> final(self)@ == old(self)@,
    {
        self.tasks.check_progress()
    }

    /// Begins a run: queues the waiting tasks whose dependencies are completed, and goes through
    /// the first round.
    pub fn begin(&mut self) -> (round: Round<usize>)
        requires
            old(self).wf(),
        ensures
            final(self).wf(),
            is_round(old(self)@.requeued(), round, final(self)@),
            final(self).nodes() == old(self).nodes(),
            old(self)@.sound() ==> final(self)@.sound() && is_round(
                old(self)@,
                round,
                final(self)@,
            ),
    {
        self.tasks.begin()
    }

    /// Goes on with a run after a task was completed: records that, and goes through the next
    /// round.
    pub fn advance(&mut self, finished: usize) -> (round: Round<usize>)
        requires
            old(self).wf(),
        ensures
            final(self).wf(),
            is_round(old(self)@.with_completed(finished), round, final(self)@),
            final(self).nodes() == old(self).nodes(),
            old(self)@.sound() && old(self)@.running.contains(finished) ==> final(self)@.sound(),
    {
        let children: Vec<GraphNode<F>> = Vec::new();
        assert(tasks_of(children@) =~= Seq::<TaskModel<usize, F>>::empty());
        proof {
            self.lemma_wf();
        }
        let (round, _) = self.tasks.advance(finished, children);
        proof {
            law_round_leaves_tasks_alone(old(self)@.with_completed(finished), round, self@);
            assert(models(self.nodes()).dom() == self.nodes().dom());
            assert(models(old(self).nodes()).dom() == old(self).nodes().dom());
            assert(self.nodes() =~= old(self).nodes());
        }
        round
    }

    /// Records that a task was completed, and queues the tasks that waited for it alone.
    pub fn complete(&mut self, finished: usize)
        requires
            old(self).wf(),
        ensures
            final(self).wf(),
            final(self)@ == old(self)@.with_completed(finished),
            final(self).nodes() == old(self).nodes(),
            old(self)@.sound() && old(self)@.running.contains(finished) ==> final(self)@.sound(),
    {
        let children: Vec<GraphNode<F>> = Vec::new();
        assert(tasks_of(children@) =~= Seq::<TaskModel<usize, F>>::empty());
        proof {
            self.lemma_wf();
        }
        let _ = self.tasks.complete(finished, children);
        proof {
            assert(models(self.nodes()).dom() == self.nodes().dom());
            assert(models(old(self).nodes()).dom() == old(self).nodes().dom());
            assert(self.nodes() =~= old(self).nodes());
        }
    }
}

impl<F> Default for TaskRunner<F> {
    fn default() -> (runner: Self)
        ensures
            runner.wf(),
            runner@ == Schedule::<usize, F>::empty(),
            runner@.sound(),
            runner.nodes() == Map::<usize, GraphNode<F>>::empty(),
    {
        TaskRunner::new()
    }
}

} // verus!
