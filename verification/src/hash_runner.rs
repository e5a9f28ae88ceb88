//! A runner for tasks that are identified by their hashes.

use vstd::prelude::*;

use crate::deadlock::{explains, Deadlock};
use crate::hash_graph::HashableGraphNode;
use crate::node::{models, TaskNode};
use crate::schedule::{
    law_completion_keeps_sound, law_empty_is_sound, law_filling_up, law_requeue_is_idle,
    law_with_limit_keeps_sound, law_with_task_keeps_sound, starts_all, Schedule,
};
use crate::scheduler::{decides, is_round, law_round, Progress, Round, Scheduler};
use crate::task_graph::{all_known, AddError};

verus! {

/// A runner of tasks. Tasks run when their dependencies are completed, those with the higher
/// priority first.
pub struct TaskRunner<F> {
    scheduler: Scheduler<u64, HashableGraphNode<F>>,
}

impl<F> View for TaskRunner<F> {
    type V = Schedule<u64, F>;

    closed spec fn view(&self) -> Schedule<u64, F> {
        self.scheduler@
    }
}

impl<F> TaskRunner<F> {
    /// What the scheduler keeps is in order, and every task is filed under its hash.
    pub closed spec fn wf(&self) -> bool {
        &&& self.scheduler.wf()
        &&& forall|k: u64| #[trigger]
            self.scheduler.nodes().contains_key(k) ==> self.scheduler.nodes()[k].hash == k
    }

    /// The stored tasks.
    pub closed spec fn nodes(&self) -> Map<u64, HashableGraphNode<F>> {
        self.scheduler.nodes()
    }

    /// What a runner that is in order offers to laws about its state.
    pub proof fn lemma_wf(&self)
        requires
            self.wf(),
        ensures
            self@.graph.wf(),
            models(self.nodes()) == self@.graph.tasks,
            forall|k: u64| #[trigger]
                self.nodes().contains_key(k) ==> self.nodes()[k].hash == k,
    {
        self.scheduler.lemma_wf();
    }

    /// A runner without tasks that runs one task at a time.
    pub fn new() -> (runner: Self)
        ensures
            runner.wf(),
            runner@ == Schedule::<u64, F>::empty(),
            runner@.sound(),
            runner.nodes() == Map::<u64, HashableGraphNode<F>>::empty(),
    {
        proof {
            law_empty_is_sound::<u64, F>();
        }
        TaskRunner { scheduler: Scheduler::new() }
    }

    /// Lets `n` tasks run at a time, but one at least.
    pub fn with_concurrency(self, n: usize) -> (runner: Self)
        requires
            self.wf(),
        ensures
            runner.wf(),
            runner@ == self@.with_limit(n as nat),
            runner.nodes() == self.nodes(),
            self@.sound() ==> runner@.sound(),
    {
        proof {
            if self@.sound() {
                law_with_limit_keeps_sound(self@, n as nat);
            }
        }
        let mut runner = self;
        runner.scheduler.set_concurrency(n);
        runner
    }

    /// Adds a task under its hash. It is refused where its hash is in use or a dependency was not
    /// added; nothing changes in that case.
    pub fn add_task(&mut self, node: HashableGraphNode<F>) -> (added: Result<(), AddError<u64>>)
        requires
            old(self).wf(),
        ensures
            final(self).wf(),
            match added {
                Ok(_) => {
                    &&& old(self)@.graph.accepts(node.hash, node.model())
                    &&& final(self)@ == old(self)@.with_task(node.hash, node.model())
                    &&& final(self).nodes() == old(self).nodes().insert(node.hash, node)
                },
                Err(AddError::AlreadyExists(hash)) => {
                    &&& old(self)@.graph.tasks.contains_key(node.hash)
                    &&& hash == node.hash
                    &&& final(self)@ == old(self)@
                    &&& final(self).nodes() == old(self).nodes()
                },
                Err(AddError::DependencyNotFound) => {
                    &&& !old(self)@.graph.tasks.contains_key(node.hash)
                    &&& !all_known(old(self)@.graph.tasks, node.dependencies@)
                    &&& final(self)@ == old(self)@
                    &&& final(self).nodes() == old(self).nodes()
                },
            },
            old(self)@.sound() ==> final(self)@.sound(),
    {
        let hash: u64 = node.hash;
        proof {
            if self@.sound() && self@.graph.accepts(hash, node.model()) {
                law_with_task_keeps_sound(self@, hash, node.model());
            }
        }
        self.scheduler.add(hash, node)
    }

    /// The task that is filed under a hash.
    pub fn get(&self, hash: u64) -> (node: Option<&HashableGraphNode<F>>)
        requires
            self.wf(),
        ensures
            node == (if self.nodes().contains_key(hash) {
                Some(&self.nodes()[hash])
            } else {
                None
            }),
            node is Some <==> self@.graph.tasks.contains_key(hash),
            node matches Some(node) ==> node.hash == hash && node.model()
                == self@.graph.tasks[hash],
    {
        self.scheduler.get(&hash)
    }

    /// Whether a task was added and all its dependencies are completed.
    pub fn are_dependencies_met(&self, node_hash: &u64) -> (met: bool)
        ensures
            met == self@.met(*node_hash),
    {
        self.scheduler.are_dependencies_met(node_hash)
    }

    /// Queues every waiting task whose dependencies are completed; a run starts with this.
    pub fn requeue_waiting_ready(&mut self)
        requires
            old(self).wf(),
        ensures
            final(self).wf(),
            final(self)@ == old(self)@.requeued(),
            final(self).nodes() == old(self).nodes(),
            old(self)@.sound() ==> final(self)@ == old(self)@,
    {
        proof {
            if self@.sound() {
                law_requeue_is_idle(self@);
            }
        }
        self.scheduler.requeue_waiting_ready();
    }

    /// Says whether the run is stuck: nothing runs, nothing is queued, and tasks wait.
    pub fn detect_deadlock(&self) -> (verdict: Result<(), Deadlock<u64>>)
        requires
            self.wf(),
        ensures
            verdict is Ok <==> !self@.idle() || self@.waiting == Set::<u64>::empty(),
            verdict matches Err(deadlock) ==> explains(
                self@.graph.tasks,
                self@.waiting,
                self@.completed,
                deadlock,
            ),
    {
        self.scheduler.detect_deadlock()
    }

    /// Starts tasks, the highest-ranked one first, until there is no room left or none is yet to
    /// run, and returns them in that order.
    pub fn start_ready(&mut self) -> (started: Vec<u64>)
        requires
            old(self).wf(),
        ensures
            final(self).wf(),
            starts_all(old(self)@, started@, final(self)@),
            final(self).nodes() == old(self).nodes(),
            old(self)@.sound() ==> final(self)@.sound(),
    {
        let started = self.scheduler.start_ready();
        proof {
            if old(self)@.sound() {
                law_filling_up(old(self)@, started@, self@);
            }
        }
        started
    }

    /// Decides how the run goes on once no further task can be started.
    pub fn check_progress(&mut self) -> (progress: Progress<u64>)
        requires
            old(self).wf(),
        ensures
            final(self).wf(),
            decides(old(self)@, progress, final(self)@),
            final(self).nodes() == old(self).nodes(),
            old(self)@.sound() ==> final(self)@ == old(self)@,
    {
        proof {
            if self@.sound() {
                law_requeue_is_idle(self@);
            }
        }
        self.scheduler.check_progress()
    }

    /// Begins a run: queues the waiting tasks whose dependencies are completed, and goes through
    /// the first round.
    pub fn begin(&mut self) -> (round: Round<u64>)
        requires
            old(self).wf(),
        ensures
            final(self).wf(),
            is_round(old(self)@.requeued(), round, final(self)@),
            final(self).nodes() == old(self).nodes(),
            old(self)@.sound() ==> final(self)@.sound() && is_round(
                old(self)@,
                round,
                final(self)@,
            ),
    {
        self.requeue_waiting_ready();
        self.next_round()
    }

    /// Goes on with a run after a task was completed: records that, and goes through the next
    /// round.
    pub fn advance(&mut self, finished: u64) -> (round: Round<u64>)
        requires
            old(self).wf(),
        ensures
            final(self).wf(),
            is_round(old(self)@.with_completed(finished), round, final(self)@),
            final(self).nodes() == old(self).nodes(),
            old(self)@.sound() && old(self)@.running.contains(finished) ==> final(self)@.sound(),
    {
        self.complete(finished);
        self.next_round()
    }

    /// Goes through one round.
    fn next_round(&mut self) -> (round: Round<u64>)
        requires
            old(self).wf(),
        ensures
            final(self).wf(),
            is_round(old(self)@, round, final(self)@),
            final(self).nodes() == old(self).nodes(),
            old(self)@.sound() ==> final(self)@.sound(),
    {
        let round = self.scheduler.next_round();
        proof {
            if old(self)@.sound() {
                law_round(old(self)@, round, self@);
            }
        }
        round
    }

    /// Records that a task was completed, and queues the tasks that waited for it alone.
    pub fn complete(&mut self, finished: u64)
        requires
            old(self).wf(),
        ensures
            final(self).wf(),
            final(self)@ == old(self)@.with_completed(finished),
            final(self).nodes() == old(self).nodes(),
            old(self)@.sound() && old(self)@.running.contains(finished) ==> final(self)@.sound(),
    {
        proof {
            if self@.sound() && self@.running.contains(finished) {
                law_completion_keeps_sound(self@, finished);
            }
        }
        self.scheduler.complete(finished);
    }
}

} // verus!
