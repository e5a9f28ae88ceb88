//! The decisions of a run: which task starts when, and when the run is over.

use std::collections::HashSet;
use vstd::multiset::Multiset;
use vstd::prelude::*;
use vstd::string::StringExecFns;

use crate::counting::{lemma_occurs, lemma_push_contains, members, occurrences};
use crate::deadlock::{explains, Deadlock};
use crate::heap_node::{law_outranks_is_total_order, HeapNode};
use crate::key::TaskKey;
use crate::node::{models, TaskNode};
use crate::schedule::{
    law_filling_up, law_filling_up_is_determined, law_no_deadlock, law_start_leaves_tasks_alone,
    lemma_queue_none, lemma_queue_one_more, starts_all, starts_in_turn, Schedule,
};
use crate::task_graph::{all_known, AddError, TaskGraph};
use crate::task_queue::TaskQueue;
use crate::text::{decimal, push_decimal};

verus! {

/// How a run goes on once all tasks that may start have been started.
#[derive(Debug)]
pub enum Progress<K> {
    /// A running task has to finish first.
    Wait,
    /// Every task is completed.
    Done,
    /// The waiting tasks can never run.
    Deadlocked(Deadlock<K>),
}

/// The tasks of a run and where each of them stands.
#[verifier::reject_recursive_types(K)]
pub struct Scheduler<K, N> {
    graph: TaskGraph<K, N>,
    task_queue: TaskQueue<K>,
    running_tasks: HashSet<K>,
    completed_tasks: HashSet<K>,
    waiting_tasks: HashSet<K>,
    concurrency_limit: usize,
}

impl<K: TaskKey, N: TaskNode<K>> View for Scheduler<K, N> {
    type V = Schedule<K, N::Payload>;

    closed spec fn view(&self) -> Schedule<K, N::Payload> {
        Schedule {
            graph: self.graph@,
            ready: self.task_queue@,
            running: self.running_tasks@,
            completed: self.completed_tasks@,
            waiting: self.waiting_tasks@,
            limit: self.concurrency_limit as nat,
        }
    }
}

/// One round of a run: the tasks that are to be started, in this order, and how the run goes on
/// from there.
#[derive(Debug)]
pub struct Round<K> {
    pub started: Vec<K>,
    pub progress: Progress<K>,
}

/// Whether the round `round` and the state `post` follow from the state `pre`.
pub open spec fn is_round<K: TaskKey, P>(
    pre: Schedule<K, P>,
    round: Round<K>,
    post: Schedule<K, P>,
) -> bool {
    exists|filled: Schedule<K, P>| #[trigger]
        starts_all(pre, round.started@, filled) && decides(filled, round.progress, post)
}

/// Whether the decision `progress` and the state `post` follow from the state `pre`.
///
/// Only an idle state calls for a decision: the run is over where nothing waits. Where something
/// does, the waiting tasks whose dependencies are completed are queued, and where there is none
/// the run is deadlocked.
pub open spec fn decides<K: TaskKey, P>(
    pre: Schedule<K, P>,
    progress: Progress<K>,
    post: Schedule<K, P>,
) -> bool {
    if !pre.idle() {
        progress is Wait && post == pre
    } else if pre.waiting == Set::<K>::empty() {
        progress is Done && post == pre
    } else {
        &&& post == pre.requeued()
        &&& if post.idle() && post.waiting != Set::<K>::empty() {
            progress matches Progress::Deadlocked(deadlock) && explains(
                post.graph.tasks,
                post.waiting,
                post.completed,
                deadlock,
            )
        } else {
            progress is Wait
        }
    }
}

impl<K: TaskKey, N: TaskNode<K>> Scheduler<K, N> {
    /// The graph is well formed and the queue in order.
    pub closed spec fn wf(&self) -> bool {
        self.graph@.wf() && self.task_queue.wf()
    }

    /// The stored tasks.
    pub closed spec fn nodes(&self) -> Map<K, N> {
        self.graph.nodes()
    }

    /// What a scheduler that is in order offers to laws about its state.
    pub proof fn lemma_wf(&self)
        requires
            self.wf(),
        ensures
            self@.graph.wf(),
            models(self.nodes()) == self@.graph.tasks,
    {
        self.graph.lemma_nodes();
    }

    /// A scheduler without tasks that runs one task at a time.
    pub fn new() -> (scheduler: Self)
        ensures
            scheduler.wf(),
            scheduler@ == Schedule::<K, N::Payload>::empty(),
            scheduler.nodes() == Map::<K, N>::empty(),
    {
        Scheduler {
            graph: TaskGraph::new(),
            task_queue: TaskQueue::new(),
            running_tasks: HashSet::new(),
            completed_tasks: HashSet::new(),
            waiting_tasks: HashSet::new(),
            concurrency_limit: 1,
        }
    }

    /// Lets `n` tasks run at a time, but one at least.
    pub fn set_concurrency(&mut self, n: usize)
        requires
            old(self).wf(),
        ensures
            final(self).wf(),
            final(self)@ == old(self)@.with_limit(n as nat),
            final(self).nodes() == old(self).nodes(),
    {
        if n < 1 {
            self.concurrency_limit = 1;
        } else {
            self.concurrency_limit = n;
        }
    }

    /// The number of tasks.
    pub fn len(&self) -> (n: usize)
        ensures
            n == self@.graph.tasks.len(),
    {
        self.graph.len()
    }

    /// The task that is filed under a key.
    pub fn get(&self, id: &K) -> (node: Option<&N>)
        ensures
            node == (if self.nodes().contains_key(*id) {
                Some(&self.nodes()[*id])
            } else {
                None
            }),
            node is Some <==> self@.graph.tasks.contains_key(*id),
            node matches Some(node) ==> node.model() == self@.graph.tasks[*id],
    {
        self.graph.get(id)
    }

    /// Adds a task: it is queued where all its dependencies are completed, and waits otherwise.
    /// A task that the graph refuses leaves everything as it was.
    pub fn add(&mut self, id: K, node: N) -> (added: Result<(), AddError<K>>)
        requires
            old(self).wf(),
        ensures
            final(self).wf(),
            match added {
                Ok(_) => {
                    &&& old(self)@.graph.accepts(id, node.model())
                    &&& final(self)@ == old(self)@.with_task(id, node.model())
                    &&& final(self).nodes() == old(self).nodes().insert(id, node)
                },
                Err(AddError::AlreadyExists(key)) => {
                    &&& old(self)@.graph.tasks.contains_key(id)
                    &&& key == id
                    &&& final(self)@ == old(self)@
                    &&& final(self).nodes() == old(self).nodes()
                },
                Err(AddError::DependencyNotFound) => {
                    &&& !old(self)@.graph.tasks.contains_key(id)
                    &&& !all_known(old(self)@.graph.tasks, node.model().dependencies)
                    &&& final(self)@ == old(self)@
                    &&& final(self).nodes() == old(self).nodes()
                },
            },
    {
        broadcast use vstd::std_specs::hash::group_hash_axioms;

        proof {
            K::lemma_hashable();
        }
        let priority: i32 = node.priority();
        self.graph.add(id, node)?;
        if self.are_dependencies_met(&id) {
            self.task_queue.push(HeapNode { priority, index: id });
        } else {
            self.waiting_tasks.insert(id);
        }
        Ok(())
    }

    /// Whether a task is known and all its dependencies are completed.
    pub fn are_dependencies_met(&self, index: &K) -> (met: bool)
        ensures
            met == self@.met(*index),
    {
        broadcast use vstd::std_specs::hash::group_hash_axioms;

        proof {
            K::lemma_hashable();
        }
        match self.graph.get(index) {
            None => false,
            Some(node) => {
                let dependencies = node.dependencies();
                let mut i: usize = 0;
                while i < dependencies.len()
                    invariant
                        i <= dependencies@.len(),
                        vstd::std_specs::hash::obeys_key_model::<K>(),
                        dependencies@ == self@.graph.dependencies(*index),
                        forall|j: int|
                            0 <= j < i ==> self@.completed.contains(#[trigger] dependencies@[j]),
                    decreases dependencies.len() - i,
                {
                    if !self.completed_tasks.contains(&dependencies[i]) {
                        assert(!self@.completed.contains(
                            self@.graph.dependencies(*index)[i as int],
                        ));
                        return false;
                    }
                    i = i + 1;
                }
                true
            },
        }
    }

    /// Moves one waiting task to the queue.
    fn queue_waiting(
        &mut self,
        id: K,
        Ghost(pre): Ghost<Schedule<K, N::Payload>>,
        Ghost(moved): Ghost<Set<K>>,
    )
        requires
            old(self).wf(),
            old(self)@ == pre.with_queued(moved),
            moved.finite(),
            !moved.contains(id),
            pre.graph.tasks.contains_key(id),
        ensures
            final(self).wf(),
            final(self)@ == pre.with_queued(moved.insert(id)),
            final(self).nodes() == old(self).nodes(),
    {
        broadcast use vstd::std_specs::hash::group_hash_axioms;

        proof {
            K::lemma_hashable();
            lemma_queue_one_more(pre, moved, id);
        }
        if let Some(node) = self.graph.get(&id) {
            let priority: i32 = node.priority();
            self.waiting_tasks.remove(&id);
            self.task_queue.push(HeapNode { priority, index: id });
        }
    }

    /// Queues every waiting task whose dependencies are completed.
    pub fn requeue_waiting_ready(&mut self)
        requires
            old(self).wf(),
        ensures
            final(self).wf(),
            final(self)@ == old(self)@.requeued(),
            final(self).nodes() == old(self).nodes(),
    {
        let ghost pre = self@;
        let ghost target = pre.waiting.filter(|id: K| pre.met(id));
        let ghost mut moved = Set::<K>::empty();
        let ids = members(&self.waiting_tasks);
        let mut n: usize = 0;
        proof {
            lemma_queue_none(pre);
        }
        while n < ids.len()
            invariant
                n <= ids@.len(),
                self.wf(),
                self.nodes() == old(self).nodes(),
                ids@.no_duplicates(),
                forall|id: K| #[trigger] ids@.contains(id) <==> pre.waiting.contains(id),
                moved.finite(),
                self@ == pre.with_queued(moved),
                forall|id: K| #[trigger]
                    moved.contains(id) <==> ids@.take(n as int).contains(id) && pre.met(id),
            decreases ids.len() - n,
        {
            let id = ids[n];
            assert(ids@.contains(id));
            proof {
                assert(ids@.take(n + 1) =~= ids@.take(n as int).push(id));
                assert(!ids@.take(n as int).contains(id));
                lemma_push_contains(ids@.take(n as int), id);
                assert(self@.met(id) == pre.met(id));
            }
            if self.are_dependencies_met(&id) {
                self.queue_waiting(id, Ghost(pre), Ghost(moved));
                proof {
                    moved = moved.insert(id);
                }
            }
            n = n + 1;
        }
        proof {
            assert(ids@.take(n as int) =~= ids@);
            assert(moved =~= target);
        }
    }

    /// Says whether the run is stuck: nothing runs, nothing is queued, and tasks wait.
    pub fn detect_deadlock(&self) -> (verdict: Result<(), Deadlock<K>>)
        requires
            self.wf(),
        ensures
            verdict is Ok <==> !self@.idle() || self@.waiting == Set::<K>::empty(),
            verdict matches Err(deadlock) ==> explains(
                self@.graph.tasks,
                self@.waiting,
                self@.completed,
                deadlock,
            ),
    {
        if !self.running_tasks.is_empty() || !self.task_queue.is_empty() {
            return Ok(());
        }
        if self.waiting_tasks.is_empty() {
            return Ok(());
        }
        Err(self.graph.diagnose(&self.waiting_tasks, &self.completed_tasks))
    }

    /// Starts the highest-ranked task that is yet to run, as long as there is room for one more.
    pub fn start_next(&mut self) -> (started: Option<K>)
        requires
            old(self).wf(),
        ensures
            final(self).wf(),
            old(self)@.starts(started, final(self)@),
            final(self).nodes() == old(self).nodes(),
    {
        broadcast use vstd::std_specs::hash::group_hash_axioms;
        broadcast use vstd::multiset::group_multiset_axioms;

        proof {
            K::lemma_hashable();
        }
        let ghost pre = self@;
        if self.running_tasks.len() >= self.concurrency_limit {
            return None;
        }
        loop
            invariant
                vstd::std_specs::hash::obeys_key_model::<K>(),
                self.wf(),
                self.nodes() == old(self).nodes(),
                pre == old(self)@,
                pre.running.len() < pre.limit,
                self@ == (Schedule { ready: self@.ready, ..pre }),
                taken_in_order(pre, self@.ready),
            decreases self@.ready.len(),
        {
            let ghost left = self@.ready;
            let node = match self.task_queue.pop() {
                None => {
                    proof {
                        assert forall|node: HeapNode<K>| !#[trigger] pre.fresh(node) by {
                            assert(left.count(node) == 0);
                        }
                    }
                    return None;
                },
                Some(node) => node,
            };
            assert(left.contains(node));
            let id = node.index;
            if self.running_tasks.contains(&id) || self.completed_tasks.contains(&id) {
                proof {
                    lemma_drop_highest(pre, left, node);
                }
                continue;
            }
            if self.graph.get(&id).is_none() {
                proof {
                    lemma_drop_highest(pre, left, node);
                }
                continue;
            }
            self.running_tasks.insert(id);
            proof {
                lemma_take_highest(pre, left, node);
                assert(pre.is_next(node));
                assert(self@ =~= pre.with_started(node));
            }
            return Some(id);
        }
    }

    /// Starts tasks, the highest-ranked one first, until there is no room left or none is yet to
    /// run.
    pub fn start_ready(&mut self) -> (started: Vec<K>)
        requires
            old(self).wf(),
        ensures
            final(self).wf(),
            starts_all(old(self)@, started@, final(self)@),
            final(self).nodes() == old(self).nodes(),
    {
        let mut started: Vec<K> = Vec::new();
        let ghost pre = self@;
        loop
            invariant
                self.wf(),
                self.nodes() == old(self).nodes(),
                pre == old(self)@,
                starts_in_turn(pre, started@, self@),
            decreases self@.ready.len(),
        {
            let ghost here = self@;
            match self.start_next() {
                None => {
                    assert(starts_all(pre, started@, self@)) by {
                        assert(starts_in_turn(pre, started@, here) && here.starts(None, self@));
                    }
                    return started;
                },
                Some(id) => {
                    let ghost before = started@;
                    started.push(id);
                    proof {
                        lemma_start_shrinks_queue(here, id, self@);
                        assert(started@.drop_last() =~= before);
                        assert(starts_in_turn(pre, started@.drop_last(), here) && here.starts(
                            Some(started@.last()),
                            self@,
                        ));
                    }
                },
            }
        }
    }

    /// Decides how the run goes on once no further task can be started.
    pub fn check_progress(&mut self) -> (progress: Progress<K>)
        requires
            old(self).wf(),
        ensures
            final(self).wf(),
            decides(old(self)@, progress, final(self)@),
            final(self).nodes() == old(self).nodes(),
    {
        if self.running_tasks.is_empty() && self.task_queue.is_empty() {
            assert(self@.running =~= Set::<K>::empty());
            if self.waiting_tasks.is_empty() {
                assert(self@.waiting =~= Set::<K>::empty());
                return Progress::Done;
            }
            self.requeue_waiting_ready();
            if let Err(deadlock) = self.detect_deadlock() {
                return Progress::Deadlocked(deadlock);
            }
        }
        Progress::Wait
    }

    /// Goes through one round: starts tasks, and decides how the run goes on.
    pub fn next_round(&mut self) -> (round: Round<K>)
        requires
            old(self).wf(),
        ensures
            final(self).wf(),
            is_round(old(self)@, round, final(self)@),
            final(self).nodes() == old(self).nodes(),
    {
        let started = self.start_ready();
        let ghost filled = self@;
        let progress = self.check_progress();
        let round = Round { started, progress };
        assert(starts_all(old(self)@, round.started@, filled) && decides(
            filled,
            round.progress,
            self@,
        ));
        round
    }

    /// Records that a task was completed, and queues the tasks that waited for it alone.
    pub fn complete(&mut self, finished: K)
        requires
            old(self).wf(),
        ensures
            final(self).wf(),
            final(self)@ == old(self)@.with_completed(finished),
            final(self).nodes() == old(self).nodes(),
    {
        broadcast use vstd::std_specs::hash::group_hash_axioms;

        proof {
            K::lemma_hashable();
        }
        self.running_tasks.remove(&finished);
        self.completed_tasks.insert(finished);
        let ghost next = self@;
        let ghost target = next.waiting.filter(
            |k: K| next.met(k) && next.graph.dependencies(k).contains(finished),
        );
        let to_check = self.dependents_to_check(&finished);
        let ghost mut moved = Set::<K>::empty();
        let mut n: usize = 0;
        proof {
            lemma_queue_none(next);
        }
        while n < to_check.len()
            invariant
                n <= to_check@.len(),
                vstd::std_specs::hash::obeys_key_model::<K>(),
                self.wf(),
                self.nodes() == old(self).nodes(),
                moved.finite(),
                self@ == next.with_queued(moved),
                forall|id: K| #[trigger]
                    moved.contains(id) <==> to_check@.take(n as int).contains(id)
                        && next.waiting.contains(id) && next.met(id),
            decreases to_check.len() - n,
        {
            let id = to_check[n];
            proof {
                assert(to_check@.take(n + 1) =~= to_check@.take(n as int).push(id));
                lemma_push_contains(to_check@.take(n as int), id);
                assert(self@.met(id) == next.met(id));
            }
            if self.waiting_tasks.contains(&id) && self.are_dependencies_met(&id) {
                assert(!moved.contains(id));
                self.queue_waiting(id, Ghost(next), Ghost(moved));
                proof {
                    moved = moved.insert(id);
                }
            }
            n = n + 1;
        }
        proof {
            assert(to_check@.take(n as int) =~= to_check@);
            assert(moved =~= target);
        }
    }

    /// The tasks that depend on a task, possibly several times.
    fn dependents_to_check(&self, id: &K) -> (list: Vec<K>)
        requires
            self.wf(),
        ensures
            forall|k: K| #[trigger]
                list@.contains(k) <==> self@.graph.tasks.contains_key(k) && self@.graph.dependencies(
                    k,
                ).contains(*id),
    {
        let mut list: Vec<K> = Vec::new();
        if let Some(dependents) = self.graph.dependents(id) {
            let mut i: usize = 0;
            while i < dependents.len()
                invariant
                    i <= dependents@.len(),
                    list@ == dependents@.take(i as int),
                decreases dependents.len() - i,
            {
                assert(dependents@.take(i + 1) =~= dependents@.take(i as int).push(
                    dependents@[i as int],
                ));
                list.push(dependents[i]);
                i = i + 1;
            }
            assert(list@ =~= dependents@);
        }
        proof {
            let graph = self@.graph;
            assert forall|k: K| #[trigger]
                list@.contains(k) <==> graph.tasks.contains_key(k) && graph.dependencies(
                    k,
                ).contains(*id) by {
                lemma_occurs(list@, k);
                if graph.tasks.contains_key(k) {
                    lemma_occurs(graph.dependencies(k), *id);
                }
                if graph.tasks.contains_key(*id) {
                    assert(graph.dependents.contains_key(*id));
                    assert(list@ == graph.dependents[*id]);
                    assert(occurrences(graph.dependents[*id], k) == (if graph.tasks.contains_key(
                        k,
                    ) {
                        occurrences(graph.dependencies(k), *id)
                    } else {
                        0
                    }));
                } else {
                    assert(!graph.dependents.contains_key(*id));
                    if graph.tasks.contains_key(k) && graph.dependencies(k).contains(*id) {
                        let i = choose|i: int|
                            0 <= i < graph.dependencies(k).len() && graph.dependencies(k)[i] == *id;
                        assert(all_known(graph.tasks, graph.dependencies(k)));
                        assert(graph.tasks.contains_key(graph.dependencies(k)[i]));
                    }
                }
            }
        }
        list
    }
}

/// A start takes at least one entry from the queue.
proof fn lemma_start_shrinks_queue<K: TaskKey, P>(pre: Schedule<K, P>, id: K, post: Schedule<K, P>)
    requires
        pre.starts(Some(id), post),
    ensures
        post.ready.len() < pre.ready.len(),
{
    broadcast use vstd::multiset::group_multiset_axioms;

    let node = choose|node: HeapNode<K>| #[trigger]
        pre.is_next(node) && node.index == id && post == pre.with_started(node);
    let kept = pre.ready.filter(|other: HeapNode<K>| !other.outranks(node));
    let dropped = pre.ready.filter(|other: HeapNode<K>| other.outranks(node));
    law_outranks_is_total_order(node, node, node);
    assert(kept.contains(node));
    assert(pre.ready =~= kept.add(dropped));
    assert(kept =~= kept.remove(node).insert(node));
}

/// Whether the entries that are gone from the queue were taken in order: each of them outranks
/// what is left, and none stood for a task that is yet to run.
spec fn taken_in_order<K: TaskKey, P>(
    pre: Schedule<K, P>,
    left: Multiset<HeapNode<K>>,
) -> bool {
    &&& forall|m: HeapNode<K>| #[trigger] left.count(m) <= pre.ready.count(m)
    &&& forall|m: HeapNode<K>| #[trigger] pre.fresh(m) ==> left.count(m) == pre.ready.count(m)
    &&& forall|m: HeapNode<K>, n: HeapNode<K>|
        #![trigger left.count(m), left.contains(n)]
        left.count(m) < pre.ready.count(m) && left.contains(n) ==> m == n || m.outranks(n)
}

/// Taking the highest entry keeps the order in which entries are taken, where that entry does
/// not stand for a task that is yet to run.
proof fn lemma_drop_highest<K: TaskKey, P>(
    pre: Schedule<K, P>,
    left: Multiset<HeapNode<K>>,
    node: HeapNode<K>,
)
    requires
        taken_in_order(pre, left),
        left.contains(node),
        !pre.fresh(node),
        forall|other: HeapNode<K>| #[trigger]
            left.contains(other) ==> other == node || node.outranks(other),
    ensures
        taken_in_order(pre, left.remove(node)),
{
    broadcast use vstd::multiset::group_multiset_axioms;

    let after = left.remove(node);
    assert forall|m: HeapNode<K>, n: HeapNode<K>|
        #![trigger after.count(m), after.contains(n)]
        after.count(m) < pre.ready.count(m) && after.contains(n) implies m == n || m.outranks(n) by {
        assert(left.contains(n));
        if m != node {
            assert(left.count(m) < pre.ready.count(m));
        }
    }
}

/// Where the highest entry stands for a task that is yet to run, it is the next to start.
proof fn lemma_take_highest<K: TaskKey, P>(
    pre: Schedule<K, P>,
    left: Multiset<HeapNode<K>>,
    node: HeapNode<K>,
)
    requires
        taken_in_order(pre, left),
        left.contains(node),
        !pre.running.contains(node.index),
        !pre.completed.contains(node.index),
        pre.graph.tasks.contains_key(node.index),
        forall|other: HeapNode<K>| #[trigger]
            left.contains(other) ==> other == node || node.outranks(other),
    ensures
        pre.is_next(node),
        left.remove(node) == pre.with_started(node).ready,
{
    broadcast use vstd::multiset::group_multiset_axioms;

    assert(left.count(node) <= pre.ready.count(node));
    assert(pre.fresh(node));
    assert forall|other: HeapNode<K>| #[trigger] pre.fresh(other) implies other == node
        || node.outranks(other) by {
        assert(left.contains(other));
    }
    let after = left.remove(node);
    let expected = pre.with_started(node).ready;
    assert forall|m: HeapNode<K>| after.count(m) == expected.count(m) by {
        law_outranks_is_total_order(node, m, m);
        assert(left.count(m) <= pre.ready.count(m));
        assert(left.contains(m) ==> !m.outranks(node));
    }
    assert(after =~= expected);
}

/// A run of a sound state is never found deadlocked: it is over exactly when nothing runs and
/// nothing is queued, and then every task is completed.
pub proof fn law_run_ends_with_all_completed<K: TaskKey, P>(
    pre: Schedule<K, P>,
    progress: Progress<K>,
    post: Schedule<K, P>,
)
    requires
        pre.sound(),
        decides(pre, progress, post),
    ensures
        post == pre,
        !(progress is Deadlocked),
        progress is Done <==> pre.idle(),
        progress is Done ==> pre.completed == pre.graph.tasks.dom() && pre.waiting == Set::<
            K,
        >::empty(),
{
    if pre.idle() {
        law_no_deadlock(pre);
    }
}

/// A run waits only while some task is running, so that a completion will come.
pub proof fn law_wait_is_for_a_running_task<K: TaskKey, P>(
    pre: Schedule<K, P>,
    started: Seq<K>,
    filled: Schedule<K, P>,
    progress: Progress<K>,
    post: Schedule<K, P>,
)
    requires
        pre.sound(),
        starts_all(pre, started, filled),
        decides(filled, progress, post),
        progress is Wait,
    ensures
        post == filled,
        filled.running != Set::<K>::empty(),
{
    law_filling_up(pre, started, filled);
    law_run_ends_with_all_completed(filled, progress, post);
}

/// A round of a sound state leads to a sound state and completes nothing. It starts tasks that were
/// not running, each once. The run is over exactly if all tasks are completed; it is never
/// deadlocked, and where it waits some task is running.
pub proof fn law_round<K: TaskKey, P>(s: Schedule<K, P>, round: Round<K>, post: Schedule<K, P>)
    requires
        s.sound(),
        is_round(s, round, post),
    ensures
        post.sound(),
        post.graph == s.graph,
        post.completed == s.completed,
        post.waiting == s.waiting,
        post.limit == s.limit,
        post.running == s.running.union(round.started@.to_set()),
        round.started@.no_duplicates(),
        forall|i: int|
            0 <= i < round.started@.len() ==> !s.running.contains(#[trigger] round.started@[i]),
        s.running.len() <= s.limit ==> post.running.len() <= s.limit,
        !(round.progress is Deadlocked),
        round.progress is Done <==> s.completed == s.graph.tasks.dom(),
        round.progress is Wait ==> post.running != Set::<K>::empty(),
{
    let filled = choose|filled: Schedule<K, P>| #[trigger]
        starts_all(s, round.started@, filled) && decides(filled, round.progress, post);
    law_filling_up(s, round.started@, filled);
    law_run_ends_with_all_completed(filled, round.progress, post);
    if s.completed == s.graph.tasks.dom() {
        lemma_all_completed_is_idle(filled);
    }
    if round.progress is Wait {
        law_wait_is_for_a_running_task(s, round.started@, filled, round.progress, post);
    }
}

/// Where every task is completed nothing runs and nothing is queued.
proof fn lemma_all_completed_is_idle<K: TaskKey, P>(s: Schedule<K, P>)
    requires
        s.sound(),
        s.completed == s.graph.tasks.dom(),
    ensures
        s.idle(),
{
    broadcast use vstd::multiset::group_multiset_axioms;

    assert forall|id: K| !s.running.contains(id) by {
        if s.running.contains(id) {
            assert(s.graph.tasks.contains_key(id));
            assert(s.placed(id));
        }
    }
    assert(s.running =~= Set::<K>::empty());
    assert forall|node: HeapNode<K>| s.ready.count(node) == 0 by {
        if s.ready.contains(node) {
            assert(s.graph.tasks.contains_key(node.index));
            assert(s.placed(node.index));
        }
    }
    assert(s.ready =~= Multiset::<HeapNode<K>>::empty());
}

/// The tasks that a round names are started until there is no more room, and then run.
pub proof fn law_round_starts_tasks<K: TaskKey, P>(
    s: Schedule<K, P>,
    round: Round<K>,
    post: Schedule<K, P>,
)
    requires
        is_round(s, round, post),
    ensures
        exists|filled: Schedule<K, P>| #[trigger]
            starts_all(s, round.started@, filled) && filled.running == post.running,
{
    let filled = choose|filled: Schedule<K, P>| #[trigger]
        starts_all(s, round.started@, filled) && decides(filled, round.progress, post);
    assert(filled.running == post.running);
}

/// A run that has come to a standstill with tasks that wait is deadlocked, unless one of them can
/// be queued; without any it is over, and as long as something runs or is queued it goes on.
pub proof fn law_standstill_is_decided<K: TaskKey, P>(
    pre: Schedule<K, P>,
    progress: Progress<K>,
    post: Schedule<K, P>,
)
    requires
        decides(pre, progress, post),
    ensures
        pre.running != Set::<K>::empty() || pre.ready != Multiset::<HeapNode<K>>::empty()
            ==> progress is Wait && post == pre,
        progress is Done <==> pre.running == Set::<K>::empty() && pre.ready == Multiset::<
            HeapNode<K>,
        >::empty() && pre.waiting == Set::<K>::empty(),
        progress is Deadlocked ==> post.running == Set::<K>::empty() && post.ready == Multiset::<
            HeapNode<K>,
        >::empty() && post.waiting != Set::<K>::empty(),
        pre.running == Set::<K>::empty() && pre.ready == Multiset::<HeapNode<K>>::empty()
            && pre.waiting != Set::<K>::empty() ==> post == pre.requeued() && (progress
            is Deadlocked <==> post.ready == Multiset::<HeapNode<K>>::empty() && post.waiting
            != Set::<K>::empty()),
        progress matches Progress::Deadlocked(deadlock) ==> explains(
            post.graph.tasks,
            post.waiting,
            post.completed,
            deadlock,
        ),
        post.running == pre.running,
        post.completed == pre.completed,
        post.graph == pre.graph,
{
}

/// A round changes neither the graph nor which tasks are completed.
pub proof fn law_round_leaves_tasks_alone<K: TaskKey, P>(
    s: Schedule<K, P>,
    round: Round<K>,
    post: Schedule<K, P>,
)
    requires
        is_round(s, round, post),
    ensures
        post.graph == s.graph,
        post.completed == s.completed,
{
    let filled = choose|filled: Schedule<K, P>| #[trigger]
        starts_all(s, round.started@, filled) && decides(filled, round.progress, post);
    law_start_leaves_tasks_alone(s, round.started@, filled);
}

/// Which tasks a round of a sound state starts, in which order, and what it leads to, is
/// determined by the state.
pub proof fn law_round_is_determined<K: TaskKey, P>(
    s: Schedule<K, P>,
    a: Round<K>,
    b: Round<K>,
    after_a: Schedule<K, P>,
    after_b: Schedule<K, P>,
)
    requires
        s.sound(),
        is_round(s, a, after_a),
        is_round(s, b, after_b),
    ensures
        a.started@ == b.started@,
        a.progress is Done <==> b.progress is Done,
        after_a == after_b,
{
    let filled_a = choose|filled: Schedule<K, P>| #[trigger]
        starts_all(s, a.started@, filled) && decides(filled, a.progress, after_a);
    let filled_b = choose|filled: Schedule<K, P>| #[trigger]
        starts_all(s, b.started@, filled) && decides(filled, b.progress, after_b);
    law_filling_up_is_determined(s, a.started@, b.started@, filled_a, filled_b);
    law_filling_up(s, a.started@, filled_a);
    law_run_ends_with_all_completed(filled_a, a.progress, after_a);
    law_run_ends_with_all_completed(filled_b, b.progress, after_b);
}

/// What a failed task is reported with.
pub fn failure_message<K: TaskKey>(finished: K) -> (text: String)
    ensures
        text@ == "task "@ + decimal(finished.rank()) + " failed"@,
{
    let mut text = String::new();
    text.append("task ");
    push_decimal(&mut text, finished.number());
    text.append(" failed");
    assert(text@ =~= "task "@ + decimal(finished.rank()) + " failed"@);
    text
}

} // verus!
