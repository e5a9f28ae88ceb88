//! The states of a run, the steps between them, and what holds of all of them.

use vstd::multiset::Multiset;
use vstd::prelude::*;

use crate::heap_node::{law_outranks_is_total_order, HeapNode};
use crate::key::TaskKey;
use crate::node::TaskModel;
use crate::task_graph::{all_known, law_with_task_keeps_wf, GraphModel};

verus! {

/// A state of a run: the graph, the queue of tasks that are ready, the tasks that run, those
/// that are completed, those that wait for a dependency, and the number of tasks that may run at
/// a time.
#[verifier::ext_equal]
#[verifier::reject_recursive_types(K)]
pub struct Schedule<K, P> {
    pub graph: GraphModel<K, P>,
    pub ready: Multiset<HeapNode<K>>,
    pub running: Set<K>,
    pub completed: Set<K>,
    pub waiting: Set<K>,
    pub limit: nat,
}

impl<K: TaskKey, P> Schedule<K, P> {
    /// The state without tasks, in which one task may run at a time.
    pub open spec fn empty() -> Self {
        Schedule {
            graph: GraphModel::empty(),
            ready: Multiset::empty(),
            running: Set::empty(),
            completed: Set::empty(),
            waiting: Set::empty(),
            limit: 1,
        }
    }

    /// The same state with room for `n` running tasks, but for one at least.
    pub open spec fn with_limit(self, n: nat) -> Self {
        Schedule { limit: if n < 1 {
            1
        } else {
            n
        }, ..self }
    }

    /// Whether a task is in the graph and all its dependencies are completed.
    pub open spec fn met(self, id: K) -> bool {
        &&& self.graph.tasks.contains_key(id)
        &&& forall|i: int|
            0 <= i < self.graph.dependencies(id).len() ==> self.completed.contains(
                #[trigger] self.graph.dependencies(id)[i],
            )
    }

    /// The entry under which a task is queued.
    pub open spec fn entry(self, id: K) -> HeapNode<K> {
        HeapNode { priority: self.graph.tasks[id].priority, index: id }
    }

    /// One queue entry for each of the given tasks.
    pub open spec fn entries(self, moved: Set<K>) -> Multiset<HeapNode<K>> {
        Multiset::from_set(moved.map(|id: K| self.entry(id)))
    }

    /// The state in which the given tasks have moved from waiting to the queue.
    pub open spec fn with_queued(self, moved: Set<K>) -> Self {
        Schedule {
            ready: self.ready.add(self.entries(moved)),
            waiting: self.waiting.difference(moved),
            ..self
        }
    }

    /// The state after a task was added: it is queued where its dependencies are completed, and
    /// waits otherwise.
    pub open spec fn with_task(self, id: K, task: TaskModel<K, P>) -> Self {
        let next = Schedule { graph: self.graph.with_task(id, task), ..self };
        if next.met(id) {
            Schedule { ready: next.ready.insert(next.entry(id)), ..next }
        } else {
            Schedule { waiting: next.waiting.insert(id), ..next }
        }
    }

    /// The state in which every waiting task whose dependencies are completed is queued.
    pub open spec fn requeued(self) -> Self {
        self.with_queued(self.waiting.filter(|id: K| self.met(id)))
    }

    /// The state after a task was completed: the tasks that waited for it, and for nothing else
    /// that is open, are queued.
    pub open spec fn with_completed(self, id: K) -> Self {
        let next = Schedule {
            running: self.running.remove(id),
            completed: self.completed.insert(id),
            ..self
        };
        next.with_queued(
            next.waiting.filter(
                |k: K| next.met(k) && next.graph.dependencies(k).contains(id),
            ),
        )
    }

    /// Whether a queue entry stands for a task that is yet to run.
    pub open spec fn fresh(self, node: HeapNode<K>) -> bool {
        &&& self.ready.contains(node)
        &&& !self.running.contains(node.index)
        &&& !self.completed.contains(node.index)
        &&& self.graph.tasks.contains_key(node.index)
    }

    /// Whether an entry is the highest-ranked one that is yet to run.
    pub open spec fn is_next(self, node: HeapNode<K>) -> bool {
        &&& self.fresh(node)
        &&& forall|other: HeapNode<K>| #[trigger]
            self.fresh(other) ==> other == node || node.outranks(other)
    }

    /// The state after the task of an entry was started; entries that outranked it are dropped.
    pub open spec fn with_started(self, node: HeapNode<K>) -> Self {
        Schedule {
            ready: self.ready.filter(|other: HeapNode<K>| !other.outranks(node)).remove(node),
            running: self.running.insert(node.index),
            ..self
        }
    }

    /// Whether the step from `self` to `post` starts the given task: the highest-ranked one that
    /// is yet to run, as long as there is room. Where none is yet to run the queue is emptied.
    pub open spec fn starts(self, started: Option<K>, post: Self) -> bool {
        if self.running.len() >= self.limit {
            started is None && post == self
        } else {
            match started {
                None => {
                    &&& forall|node: HeapNode<K>| !#[trigger] self.fresh(node)
                    &&& post == Schedule { ready: Multiset::empty(), ..self }
                },
                Some(id) => exists|node: HeapNode<K>| #[trigger]
                    self.is_next(node) && node.index == id && post == self.with_started(node),
            }
        }
    }

    /// Whether nothing runs and nothing is queued.
    pub open spec fn idle(self) -> bool {
        &&& self.running == Set::<K>::empty()
        &&& self.ready == Multiset::<HeapNode<K>>::empty()
    }

    /// Whether a task is queued.
    pub open spec fn queued(self, id: K) -> bool {
        self.ready.contains(self.entry(id))
    }

    /// Where each task stands: in exactly one of the four places; a task that is not waiting has
    /// all its dependencies completed, and a waiting task has not.
    pub open spec fn placed(self, id: K) -> bool {
        &&& self.waiting.contains(id) ==> !self.queued(id) && !self.running.contains(id)
            && !self.completed.contains(id) && !self.met(id)
        &&& !self.waiting.contains(id) ==> self.met(id)
        &&& self.running.contains(id) ==> !self.queued(id) && !self.completed.contains(id)
        &&& self.completed.contains(id) ==> !self.queued(id)
        &&& self.waiting.contains(id) || self.queued(id) || self.running.contains(id)
            || self.completed.contains(id)
    }

    /// What holds of every state that a run reaches.
    pub open spec fn sound(self) -> bool {
        &&& self.graph.wf()
        &&& self.limit >= 1
        &&& self.running.subset_of(self.graph.tasks.dom())
        &&& self.completed.subset_of(self.graph.tasks.dom())
        &&& self.waiting.subset_of(self.graph.tasks.dom())
        &&& forall|node: HeapNode<K>| #[trigger]
            self.ready.contains(node) ==> {
                &&& self.graph.tasks.contains_key(node.index)
                &&& node == self.entry(node.index)
                &&& self.ready.count(node) == 1
            }
        &&& forall|id: K| #[trigger] self.graph.tasks.contains_key(id) ==> self.placed(id)
    }
}

/// Whether the given tasks start one after the other on the way from `pre` to `post`.
pub open spec fn starts_in_turn<K: TaskKey, P>(
    pre: Schedule<K, P>,
    started: Seq<K>,
    post: Schedule<K, P>,
) -> bool
    decreases started.len(),
{
    if started.len() == 0 {
        post == pre
    } else {
        exists|mid: Schedule<K, P>|
            starts_in_turn(pre, started.drop_last(), mid) && #[trigger] mid.starts(
                Some(started.last()),
                post,
            )
    }
}

/// Whether the given tasks start one after the other on the way from `pre` to `post`, and no
/// further one can start.
pub open spec fn starts_all<K: TaskKey, P>(
    pre: Schedule<K, P>,
    started: Seq<K>,
    post: Schedule<K, P>,
) -> bool {
    exists|last: Schedule<K, P>| #[trigger]
        starts_in_turn(pre, started, last) && last.starts(None, post)
}

/// How often an entry occurs among those of the given tasks.
pub proof fn lemma_entries<K: TaskKey, P>(s: Schedule<K, P>, moved: Set<K>)
    requires
        moved.finite(),
    ensures
        forall|node: HeapNode<K>| #[trigger]
            s.entries(moved).count(node) == if moved.contains(node.index) && node == s.entry(
                node.index,
            ) {
                1nat
            } else {
                0nat
            },
{
    broadcast use vstd::multiset::group_multiset_axioms;

    let f = |id: K| s.entry(id);
    moved.lemma_map_finite(f);
    let image = moved.map(f);
    let ones = Map::new(|node: HeapNode<K>| image.contains(node), |node: HeapNode<K>| 1nat);
    assert(ones.dom() =~= image);
    assert(s.entries(moved) == Multiset::from_map(ones)) by {
        assert(ones =~= Map::new(|k| image.contains(k), |v| 1));
    }
    assert forall|node: HeapNode<K>| #[trigger] s.entries(moved).count(node) == if moved.contains(
        node.index,
    ) && node == s.entry(node.index) {
        1nat
    } else {
        0nat
    } by {
        if image.contains(node) {
            let id = choose|id: K| moved.contains(id) && node == f(id);
            assert(node.index == id);
            assert(ones[node] == 1);
        } else {
            if moved.contains(node.index) {
                assert(image.contains(f(node.index)));
            }
        }
    }
}

/// Queueing one task more.
pub proof fn lemma_queue_one_more<K: TaskKey, P>(
    s: Schedule<K, P>,
    moved: Set<K>,
    id: K,
)
    requires
        moved.finite(),
        !moved.contains(id),
    ensures
        s.with_queued(moved.insert(id)) == (Schedule {
            ready: s.with_queued(moved).ready.insert(s.entry(id)),
            waiting: s.with_queued(moved).waiting.remove(id),
            ..s
        }),
{
    broadcast use vstd::multiset::group_multiset_axioms;

    lemma_entries(s, moved);
    lemma_entries(s, moved.insert(id));
    let more = s.with_queued(moved.insert(id));
    let one = s.with_queued(moved).ready.insert(s.entry(id));
    assert forall|node: HeapNode<K>| more.ready.count(node) == one.count(node) by {
        assert(s.entries(moved.insert(id)).count(node) == s.entries(moved).count(node) + if node
            == s.entry(id) {
            1nat
        } else {
            0nat
        });
    }
    assert(more.ready =~= one);
    assert(more.waiting =~= s.with_queued(moved).waiting.remove(id));
}

/// Queueing no task leaves the state as it is.
pub proof fn lemma_queue_none<K: TaskKey, P>(s: Schedule<K, P>)
    ensures
        s.with_queued(Set::empty()) == s,
{
    broadcast use vstd::multiset::group_multiset_axioms;

    lemma_entries(s, Set::<K>::empty());
    assert(s.with_queued(Set::empty()).ready =~= s.ready);
    assert(s.with_queued(Set::empty()).waiting =~= s.waiting);
}

/// The state without tasks is sound.
pub proof fn law_empty_is_sound<K: TaskKey, P>()
    ensures
        Schedule::<K, P>::empty().sound(),
{
    broadcast use vstd::multiset::group_multiset_axioms;

    let s = Schedule::<K, P>::empty();
    assert(s.graph.dependents.dom() =~= s.graph.tasks.dom());
    assert(s.graph.levels.dom() =~= s.graph.tasks.dom());
}

/// Setting the limit keeps a state sound.
pub proof fn law_with_limit_keeps_sound<K: TaskKey, P>(s: Schedule<K, P>, n: nat)
    requires
        s.sound(),
    ensures
        s.with_limit(n).sound(),
{
    let next = s.with_limit(n);
    assert forall|id: K| #[trigger] next.graph.tasks.contains_key(id) implies next.placed(id) by {
        assert(s.placed(id));
        assert(next.met(id) == s.met(id));
    }
}

/// Adding an accepted task keeps a state sound.
pub proof fn law_with_task_keeps_sound<K: TaskKey, P>(
    s: Schedule<K, P>,
    id: K,
    task: TaskModel<K, P>,
)
    requires
        s.sound(),
        s.graph.accepts(id, task),
    ensures
        s.with_task(id, task).sound(),
{
    broadcast use vstd::multiset::group_multiset_axioms;

    law_with_task_keeps_wf(s.graph, id, task);
    let next = s.with_task(id, task);
    assert forall|n: HeapNode<K>| #[trigger] next.ready.contains(n) implies {
        &&& next.graph.tasks.contains_key(n.index)
        &&& n == next.entry(n.index)
        &&& next.ready.count(n) == 1
    } by {
        if s.ready.contains(n) {
            assert(n.index != id);
        }
    }
    assert forall|k: K| #[trigger] next.graph.tasks.contains_key(k) implies next.placed(k) by {
        if k != id {
            assert(s.placed(k));
            assert(next.graph.dependencies(k) == s.graph.dependencies(k));
            assert(next.met(k) == s.met(k));
            assert(next.entry(k) == s.entry(k));
            assert(next.queued(k) == s.queued(k));
        } else {
            assert(!s.ready.contains(next.entry(id)));
        }
    }
}

/// Queueing waiting tasks whose dependencies are completed keeps every task in its place, given
/// that each waiting task that is left has an open dependency.
proof fn lemma_with_queued_keeps_sound<K: TaskKey, P>(s: Schedule<K, P>, moved: Set<K>)
    requires
        s.graph.wf(),
        s.limit >= 1,
        s.running.subset_of(s.graph.tasks.dom()),
        s.completed.subset_of(s.graph.tasks.dom()),
        s.waiting.subset_of(s.graph.tasks.dom()),
        moved.subset_of(s.waiting),
        forall|node: HeapNode<K>| #[trigger]
            s.ready.contains(node) ==> {
                &&& s.graph.tasks.contains_key(node.index)
                &&& node == s.entry(node.index)
                &&& s.ready.count(node) == 1
            },
        forall|id: K| #[trigger]
            s.graph.tasks.contains_key(id) && !s.waiting.contains(id) ==> s.placed(id),
        forall|id: K| #[trigger]
            s.waiting.contains(id) ==> {
                &&& !s.queued(id) && !s.running.contains(id) && !s.completed.contains(id)
                &&& s.met(id) <==> moved.contains(id)
            },
    ensures
        s.with_queued(moved).sound(),
{
    broadcast use vstd::multiset::group_multiset_axioms;

    vstd::set_lib::lemma_set_subset_finite(s.graph.tasks.dom(), moved);
    lemma_entries(s, moved);
    let next = s.with_queued(moved);
    assert forall|n: HeapNode<K>| #[trigger] next.ready.contains(n) implies {
        &&& next.graph.tasks.contains_key(n.index)
        &&& n == next.entry(n.index)
        &&& next.ready.count(n) == 1
    } by {
        if s.ready.contains(n) {
            assert(s.queued(n.index));
            assert(!s.waiting.contains(n.index));
        }
    }
    assert forall|k: K| #[trigger] next.graph.tasks.contains_key(k) implies next.placed(k) by {
        assert(next.met(k) == s.met(k));
        assert(next.queued(k) <==> s.queued(k) || moved.contains(k));
        if s.waiting.contains(k) {
            assert(s.met(k) <==> moved.contains(k));
        } else {
            assert(s.placed(k));
        }
    }
}

/// Requeueing finds nothing to do in a sound state: each task is queued as soon as its last
/// dependency is completed.
pub proof fn law_requeue_is_idle<K: TaskKey, P>(s: Schedule<K, P>)
    requires
        s.sound(),
    ensures
        s.requeued() == s,
{
    let moved = s.waiting.filter(|id: K| s.met(id));
    assert forall|id: K| !#[trigger] moved.contains(id) by {
        if s.waiting.contains(id) {
            assert(s.graph.tasks.contains_key(id));
            assert(s.placed(id));
        }
    }
    assert(moved =~= Set::<K>::empty());
    lemma_queue_none(s);
}

/// In a sound state a step starts the highest-ranked task of the queue and leaves the rest of
/// the queue alone.
pub proof fn law_start_takes_highest<K: TaskKey, P>(
    s: Schedule<K, P>,
    node: HeapNode<K>,
)
    requires
        s.sound(),
        s.is_next(node),
    ensures
        s.with_started(node).ready == s.ready.remove(node),
        forall|other: HeapNode<K>| #[trigger]
            s.ready.contains(other) ==> other == node || node.outranks(other),
{
    broadcast use vstd::multiset::group_multiset_axioms;

    assert forall|other: HeapNode<K>| #[trigger] s.ready.contains(other) implies other == node
        || node.outranks(other) by {
        assert(s.placed(other.index));
        assert(s.fresh(other));
    }
    let kept = s.ready.filter(|other: HeapNode<K>| !other.outranks(node));
    assert forall|other: HeapNode<K>| #[trigger] kept.count(other) == s.ready.count(other) by {
        law_outranks_is_total_order(node, other, other);
        assert(s.ready.contains(other) ==> !other.outranks(node));
    }
    assert(kept =~= s.ready);
}

/// A task starts only when all its dependencies are completed, and it has neither run nor been
/// completed before.
pub proof fn law_dependencies_complete_before_start<K: TaskKey, P>(
    s: Schedule<K, P>,
    id: K,
    post: Schedule<K, P>,
)
    requires
        s.sound(),
        s.starts(Some(id), post),
    ensures
        s.graph.tasks.contains_key(id),
        forall|i: int|
            0 <= i < s.graph.dependencies(id).len() ==> s.completed.contains(
                #[trigger] s.graph.dependencies(id)[i],
            ),
        !s.running.contains(id),
        !s.completed.contains(id),
        post.running == s.running.insert(id),
{
    let node = choose|node: HeapNode<K>| #[trigger]
        s.is_next(node) && node.index == id && post == s.with_started(node);
    assert(s.placed(id));
    assert(s.met(id));
}

/// Starting a task keeps a state sound.
pub proof fn law_start_keeps_sound<K: TaskKey, P>(
    s: Schedule<K, P>,
    started: Option<K>,
    post: Schedule<K, P>,
)
    requires
        s.sound(),
        s.starts(started, post),
    ensures
        post.sound(),
{
    broadcast use vstd::multiset::group_multiset_axioms;

    if s.running.len() < s.limit {
        match started {
            None => {
                assert forall|k: K| #[trigger] post.graph.tasks.contains_key(k) implies post.placed(
                    k,
                ) by {
                    assert(s.placed(k));
                    assert(post.met(k) == s.met(k));
                    if s.queued(k) {
                        assert(s.fresh(s.entry(k)));
                    }
                }
            },
            Some(id) => {
                let node = choose|node: HeapNode<K>| #[trigger]
                    s.is_next(node) && node.index == id && post == s.with_started(node);
                law_start_takes_highest(s, node);
                assert(s.placed(id));
                assert(node == s.entry(id));
                assert forall|n: HeapNode<K>| #[trigger] post.ready.contains(n) implies {
                    &&& post.graph.tasks.contains_key(n.index)
                    &&& n == post.entry(n.index)
                    &&& post.ready.count(n) == 1
                } by {
                    assert(s.ready.contains(n));
                }
                assert forall|k: K| #[trigger] post.graph.tasks.contains_key(k) implies post.placed(
                    k,
                ) by {
                    assert(s.placed(k));
                    assert(post.met(k) == s.met(k));
                    assert(post.queued(k) <==> s.queued(k) && k != id);
                }
            },
        }
    }
}

/// Completing a running task keeps a state sound.
pub proof fn law_completion_keeps_sound<K: TaskKey, P>(s: Schedule<K, P>, id: K)
    requires
        s.sound(),
        s.running.contains(id),
    ensures
        s.with_completed(id).sound(),
{
    let next = Schedule {
        running: s.running.remove(id),
        completed: s.completed.insert(id),
        ..s
    };
    let moved = next.waiting.filter(|k: K| next.met(k) && next.graph.dependencies(k).contains(id));
    assert(s.placed(id));
    assert forall|k: K| #[trigger]
        next.graph.tasks.contains_key(k) && !next.waiting.contains(k) implies next.placed(k) by {
        assert(s.placed(k));
        assert(s.met(k));
        assert(next.met(k));
    }
    assert forall|k: K| #[trigger] next.waiting.contains(k) implies {
        &&& !next.queued(k) && !next.running.contains(k) && !next.completed.contains(k)
        &&& next.met(k) <==> moved.contains(k)
    } by {
        assert(s.graph.tasks.contains_key(k));
        assert(s.placed(k));
        if next.met(k) {
            // What was open before is the task that has just been completed.
            let i = choose|i: int|
                0 <= i < s.graph.dependencies(k).len() && !s.completed.contains(
                    #[trigger] s.graph.dependencies(k)[i],
                );
            assert(next.completed.contains(next.graph.dependencies(k)[i]));
            assert(s.graph.dependencies(k)[i] == id);
            assert(next.graph.dependencies(k).contains(id));
        }
    }
    lemma_with_queued_keeps_sound(next, moved);
}

/// In an idle sound state every task up to a level is completed.
proof fn lemma_idle_completes_level<K: TaskKey, P>(s: Schedule<K, P>, id: K)
    requires
        s.sound(),
        s.idle(),
        s.graph.tasks.contains_key(id),
    ensures
        s.completed.contains(id),
    decreases s.graph.levels[id],
{
    broadcast use vstd::multiset::group_multiset_axioms;

    let deps = s.graph.dependencies(id);
    assert(all_known(s.graph.tasks, deps));
    assert forall|i: int| 0 <= i < deps.len() implies s.completed.contains(#[trigger] deps[i]) by {
        lemma_idle_completes_level(s, deps[i]);
    }
    assert(s.met(id));
    assert(s.placed(id));
    assert(!s.queued(id));
}

/// A run does not deadlock: when nothing runs and nothing is queued, every task is completed
/// and none is left waiting.
pub proof fn law_no_deadlock<K: TaskKey, P>(s: Schedule<K, P>)
    requires
        s.sound(),
        s.idle(),
    ensures
        s.waiting == Set::<K>::empty(),
        s.completed == s.graph.tasks.dom(),
{
    assert forall|id: K| s.graph.tasks.contains_key(id) implies s.completed.contains(id) by {
        lemma_idle_completes_level(s, id);
    }
    assert forall|id: K| !s.waiting.contains(id) by {
        if s.waiting.contains(id) {
            assert(s.graph.tasks.contains_key(id));
            assert(s.placed(id));
        }
    }
    assert(s.waiting =~= Set::<K>::empty());
    assert(s.completed =~= s.graph.tasks.dom());
}

/// A run goes on: while a task is open, a start step leaves some task running.
pub proof fn law_open_tasks_make_progress<K: TaskKey, P>(
    s: Schedule<K, P>,
    started: Option<K>,
    post: Schedule<K, P>,
)
    requires
        s.sound(),
        s.starts(started, post),
        s.completed != s.graph.tasks.dom(),
    ensures
        post.running != Set::<K>::empty(),
{
    broadcast use vstd::multiset::group_multiset_axioms;

    if s.running == Set::<K>::empty() {
        if s.ready == Multiset::<HeapNode<K>>::empty() {
            law_no_deadlock(s);
        } else {
            vstd::multiset::lemma_multiset_empty_len(s.ready);
            let node = s.ready.choose();
            assert(s.ready.contains(node));
            assert(s.placed(node.index));
            assert(s.fresh(node));
            assert(s.running.len() == 0);
            match started {
                None => {},
                Some(id) => {
                    assert(post.running.contains(id));
                },
            }
        }
    } else {
        let id = choose|id: K| s.running.contains(id);
        assert(s.running.contains(id)) by {
            if forall|k: K| !s.running.contains(k) {
                assert(s.running =~= Set::<K>::empty());
            }
        }
        assert(post.running.contains(id));
    }
}

/// No more tasks run than the limit allows, as long as the limit is not lowered.
pub proof fn law_limit_is_kept<K: TaskKey, P>(
    s: Schedule<K, P>,
    started: Option<K>,
    post: Schedule<K, P>,
    id: K,
    task: TaskModel<K, P>,
)
    requires
        s.sound(),
        s.running.len() <= s.limit,
        s.starts(started, post),
    ensures
        post.running.len() <= post.limit,
        s.with_completed(id).running.len() <= s.with_completed(id).limit,
        s.with_task(id, task).running.len() <= s.with_task(id, task).limit,
        s.requeued().running.len() <= s.requeued().limit,
{
    vstd::set_lib::lemma_set_subset_finite(s.graph.tasks.dom(), s.running);
}

/// What is completed stays completed, and no step but a completion completes anything.
pub proof fn law_completed_only_grows<K: TaskKey, P>(
    s: Schedule<K, P>,
    started: Option<K>,
    post: Schedule<K, P>,
    id: K,
    task: TaskModel<K, P>,
)
    requires
        s.starts(started, post),
    ensures
        post.completed == s.completed,
        s.with_task(id, task).completed == s.completed,
        s.requeued().completed == s.completed,
        s.with_completed(id).completed == s.completed.insert(id),
{
}

/// The task that starts is determined by the state.
pub proof fn law_start_is_determined<K: TaskKey, P>(
    s: Schedule<K, P>,
    a: Option<K>,
    b: Option<K>,
    after_a: Schedule<K, P>,
    after_b: Schedule<K, P>,
)
    requires
        s.starts(a, after_a),
        s.starts(b, after_b),
    ensures
        a == b,
        after_a == after_b,
{
    if s.running.len() < s.limit {
        match (a, b) {
            (Some(x), Some(y)) => {
                let m = choose|node: HeapNode<K>| #[trigger]
                    s.is_next(node) && node.index == x && after_a == s.with_started(node);
                let n = choose|node: HeapNode<K>| #[trigger]
                    s.is_next(node) && node.index == y && after_b == s.with_started(node);
                law_outranks_is_total_order(m, n, n);
                assert(s.fresh(m) && s.fresh(n));
            },
            (Some(x), None) => {
                let m = choose|node: HeapNode<K>| #[trigger]
                    s.is_next(node) && node.index == x && after_a == s.with_started(node);
                assert(s.fresh(m));
            },
            (None, Some(y)) => {
                let n = choose|node: HeapNode<K>| #[trigger]
                    s.is_next(node) && node.index == y && after_b == s.with_started(node);
                assert(s.fresh(n));
            },
            (None, None) => {},
        }
    }
}

/// Starting tasks one after the other keeps a state sound, adds them to the running tasks and
/// changes nothing else but the queue.
proof fn lemma_starts_in_turn<K: TaskKey, P>(
    s: Schedule<K, P>,
    started: Seq<K>,
    post: Schedule<K, P>,
)
    requires
        s.sound(),
        starts_in_turn(s, started, post),
    ensures
        post.sound(),
        post.running == s.running.union(started.to_set()),
        post == (Schedule { ready: post.ready, running: post.running, ..s }),
        started.no_duplicates(),
        forall|i: int| 0 <= i < started.len() ==> !s.running.contains(#[trigger] started[i]),
        s.running.len() <= s.limit ==> post.running.len() <= s.limit,
    decreases started.len(),
{
    if started.len() == 0 {
        assert(s.running.union(started.to_set()) =~= s.running);
    } else {
        let rest = started.drop_last();
        let id = started.last();
        let mid = choose|mid: Schedule<K, P>|
            starts_in_turn(s, rest, mid) && #[trigger] mid.starts(Some(id), post);
        lemma_starts_in_turn(s, rest, mid);
        law_start_keeps_sound(mid, Some(id), post);
        law_dependencies_complete_before_start(mid, id, post);
        assert(started =~= rest.push(id));
        assert(post.running =~= s.running.union(started.to_set())) by {
            crate::counting::lemma_push_contains(rest, id);
            assert forall|k: K| #[trigger] post.running.contains(k) <==> s.running.union(
                started.to_set(),
            ).contains(k) by {
                assert(started.contains(k) <==> rest.contains(k) || k == id);
                assert(rest.to_set().contains(k) <==> rest.contains(k));
            }
        }
        assert(!rest.contains(id)) by {
            assert(rest.to_set().contains(id) <==> rest.contains(id));
        }
        assert forall|i: int| 0 <= i < started.len() implies !s.running.contains(
            #[trigger] started[i],
        ) by {
            if i < rest.len() {
                assert(!s.running.contains(rest[i]));
            }
        }
        vstd::set_lib::lemma_set_subset_finite(mid.graph.tasks.dom(), mid.running);
        assert(mid.starts(Some(id), post));
        assert(mid.running.len() < mid.limit);
    }
}

/// Filling up a sound state starts tasks that were not running, each once, keeps to the limit,
/// and goes on until the limit is reached or the queue is empty.
pub proof fn law_filling_up<K: TaskKey, P>(s: Schedule<K, P>, started: Seq<K>, post: Schedule<K, P>)
    requires
        s.sound(),
        starts_all(s, started, post),
    ensures
        post.sound(),
        post.running == s.running.union(started.to_set()),
        started.no_duplicates(),
        forall|i: int| 0 <= i < started.len() ==> !s.running.contains(#[trigger] started[i]),
        s.running.len() <= s.limit ==> post.running.len() <= s.limit,
        post.running.len() >= s.limit || post.ready == Multiset::<HeapNode<K>>::empty(),
        post.graph == s.graph,
        post.completed == s.completed,
        post.waiting == s.waiting,
        post.limit == s.limit,
{
    let last = choose|last: Schedule<K, P>| #[trigger]
        starts_in_turn(s, started, last) && last.starts(None, post);
    lemma_starts_in_turn(s, started, last);
    law_start_keeps_sound(last, None, post);
}

/// Each completion leaves one task fewer open; a run of `n` tasks is over after `n` completions.
pub proof fn law_completion_counts<K: TaskKey, P>(s: Schedule<K, P>, id: K)
    requires
        s.sound(),
        s.running.contains(id),
    ensures
        s.with_completed(id).completed.len() == s.completed.len() + 1,
        s.with_completed(id).completed.len() <= s.graph.tasks.len(),
{
    law_completion_keeps_sound(s, id);
    assert(s.placed(id));
    let after = s.with_completed(id);
    vstd::set_lib::lemma_set_subset_finite(s.graph.tasks.dom(), s.completed);
    vstd::set_lib::lemma_len_subset(after.completed, after.graph.tasks.dom());
}

/// Starting tasks changes neither the graph nor which tasks are completed.
pub proof fn law_start_leaves_tasks_alone<K: TaskKey, P>(
    s: Schedule<K, P>,
    started: Seq<K>,
    post: Schedule<K, P>,
)
    requires
        starts_all(s, started, post),
    ensures
        post.graph == s.graph,
        post.completed == s.completed,
        post.waiting == s.waiting,
        post.limit == s.limit,
{
    let last = choose|last: Schedule<K, P>| #[trigger]
        starts_in_turn(s, started, last) && last.starts(None, post);
    lemma_starts_in_turn_leaves_tasks_alone(s, started, last);
}

proof fn lemma_starts_in_turn_leaves_tasks_alone<K: TaskKey, P>(
    s: Schedule<K, P>,
    started: Seq<K>,
    post: Schedule<K, P>,
)
    requires
        starts_in_turn(s, started, post),
    ensures
        post.graph == s.graph,
        post.completed == s.completed,
        post.waiting == s.waiting,
        post.limit == s.limit,
    decreases started.len(),
{
    if started.len() > 0 {
        let mid = choose|mid: Schedule<K, P>|
            starts_in_turn(s, started.drop_last(), mid) && #[trigger] mid.starts(
                Some(started.last()),
                post,
            );
        lemma_starts_in_turn_leaves_tasks_alone(s, started.drop_last(), mid);
    }
}

/// Which tasks fill up a state, and in which order, is determined by the state.
pub proof fn law_filling_up_is_determined<K: TaskKey, P>(
    s: Schedule<K, P>,
    a: Seq<K>,
    b: Seq<K>,
    after_a: Schedule<K, P>,
    after_b: Schedule<K, P>,
)
    requires
        starts_all(s, a, after_a),
        starts_all(s, b, after_b),
    ensures
        a == b,
        after_a == after_b,
{
    let last_a = choose|last: Schedule<K, P>| #[trigger]
        starts_in_turn(s, a, last) && last.starts(None, after_a);
    let last_b = choose|last: Schedule<K, P>| #[trigger]
        starts_in_turn(s, b, last) && last.starts(None, after_b);
    if a.len() <= b.len() {
        lemma_turns_agree(s, a, last_a, b, last_b);
        if a.len() < b.len() {
            let next = choose|next: Schedule<K, P>| #[trigger]
                last_a.starts(Some(b[a.len() as int]), next);
            law_start_is_determined(last_a, None, Some(b[a.len() as int]), after_a, next);
        }
    } else {
        lemma_turns_agree(s, b, last_b, a, last_a);
        let next = choose|next: Schedule<K, P>| #[trigger]
            last_b.starts(Some(a[b.len() as int]), next);
        law_start_is_determined(last_b, None, Some(a[b.len() as int]), after_b, next);
    }
    law_start_is_determined(last_a, None, None, after_a, after_b);
    assert(b.take(b.len() as int) =~= b);
}

/// Of two runs of starts from the same state, the shorter one is the beginning of the longer one.
proof fn lemma_turns_agree<K: TaskKey, P>(
    s: Schedule<K, P>,
    a: Seq<K>,
    after_a: Schedule<K, P>,
    b: Seq<K>,
    after_b: Schedule<K, P>,
)
    requires
        starts_in_turn(s, a, after_a),
        starts_in_turn(s, b, after_b),
        a.len() <= b.len(),
    ensures
        a == b.take(a.len() as int),
        a.len() == b.len() ==> after_a == after_b,
        a.len() < b.len() ==> exists|next: Schedule<K, P>| #[trigger]
            after_a.starts(Some(b[a.len() as int]), next),
    decreases b.len(),
{
    if b.len() > 0 {
        let mid_b = choose|mid: Schedule<K, P>|
            starts_in_turn(s, b.drop_last(), mid) && #[trigger] mid.starts(
                Some(b.last()),
                after_b,
            );
        if a.len() == b.len() {
            let mid_a = choose|mid: Schedule<K, P>|
                starts_in_turn(s, a.drop_last(), mid) && #[trigger] mid.starts(
                    Some(a.last()),
                    after_a,
                );
            lemma_turns_agree(s, a.drop_last(), mid_a, b.drop_last(), mid_b);
            law_start_is_determined(mid_a, Some(a.last()), Some(b.last()), after_a, after_b);
            assert(b.drop_last().take(a.drop_last().len() as int) =~= b.drop_last());
            assert(a =~= a.drop_last().push(a.last()));
            assert(b =~= b.drop_last().push(b.last()));
            assert(b.take(a.len() as int) =~= b);
        } else {
            lemma_turns_agree(s, a, after_a, b.drop_last(), mid_b);
            assert(b.drop_last().take(a.len() as int) =~= b.take(a.len() as int));
            if a.len() + 1 == b.len() {
                assert(after_a.starts(Some(b[a.len() as int]), after_b));
            }
        }
    } else {
        assert(a =~= b.take(a.len() as int));
    }
}

/// At the beginning there is no task anywhere, and one may run at a time.
pub proof fn law_beginning<K: TaskKey, P>()
    ensures
        ({
            let s = Schedule::<K, P>::empty();
            &&& s.graph.tasks == Map::<K, TaskModel<K, P>>::empty()
            &&& s.ready == Multiset::<HeapNode<K>>::empty()
            &&& s.running == Set::<K>::empty()
            &&& s.completed == Set::<K>::empty()
            &&& s.waiting == Set::<K>::empty()
            &&& s.limit == 1
        }),
{
}

/// As many tasks may run as was asked for, but one at least, and nothing else changes.
pub proof fn law_limit_is_what_was_asked_for<K: TaskKey, P>(s: Schedule<K, P>, n: nat)
    ensures
        n >= 1 ==> s.with_limit(n).limit == n,
        n == 0 ==> s.with_limit(n).limit == 1,
        s.with_limit(n).graph == s.graph,
        s.with_limit(n).ready == s.ready,
        s.with_limit(n).running == s.running,
        s.with_limit(n).completed == s.completed,
        s.with_limit(n).waiting == s.waiting,
{
}

/// A new task is queued with its priority if each of its dependencies is completed, and waits if
/// one is not. Nothing else changes.
pub proof fn law_new_task_is_queued_or_waits<K: TaskKey, P>(
    s: Schedule<K, P>,
    id: K,
    task: TaskModel<K, P>,
)
    ensures
        ({
            let next = s.with_task(id, task);
            &&& next.graph.tasks == s.graph.tasks.insert(id, task)
            &&& next.running == s.running
            &&& next.completed == s.completed
            &&& next.limit == s.limit
            &&& (forall|i: int|
                0 <= i < task.dependencies.len() ==> s.completed.contains(
                    #[trigger] task.dependencies[i],
                )) ==> next.waiting == s.waiting && next.ready == s.ready.insert(
                HeapNode { priority: task.priority, index: id },
            )
            &&& (exists|i: int|
                0 <= i < task.dependencies.len() && !s.completed.contains(
                    #[trigger] task.dependencies[i],
                )) ==> next.waiting == s.waiting.insert(id) && next.ready == s.ready
        }),
{
    let next = s.with_task(id, task);
    let mid = Schedule { graph: s.graph.with_task(id, task), ..s };
    assert(mid.graph.dependencies(id) == task.dependencies);
    if exists|i: int|
        0 <= i < task.dependencies.len() && !s.completed.contains(#[trigger] task.dependencies[i]) {
        let i = choose|i: int|
            0 <= i < task.dependencies.len() && !s.completed.contains(
                #[trigger] task.dependencies[i],
            );
        assert(!mid.completed.contains(mid.graph.dependencies(id)[i]));
        assert(!mid.met(id));
    }
}

/// When a task is completed it no longer runs. A waiting task is queued with its priority if it
/// depends on the completed one and each of its dependencies is completed now; any other goes on
/// waiting. Nothing else changes.
pub proof fn law_completion_releases_dependents<K: TaskKey, P>(s: Schedule<K, P>, id: K, k: K)
    requires
        s.sound(),
    ensures
        ({
            let next = s.with_completed(id);
            let task = s.graph.tasks[k];
            let entry = HeapNode { priority: task.priority, index: k };
            &&& next.graph == s.graph
            &&& next.limit == s.limit
            &&& next.running == s.running.remove(id)
            &&& next.completed == s.completed.insert(id)
            &&& !s.waiting.contains(k) ==> !next.waiting.contains(k) && next.ready.count(entry)
                == s.ready.count(entry)
            &&& s.waiting.contains(k) && task.dependencies.contains(id) && (forall|i: int|
                0 <= i < task.dependencies.len() ==> s.completed.contains(
                    #[trigger] task.dependencies[i],
                ) || task.dependencies[i] == id) ==> !next.waiting.contains(k)
                && next.ready.count(entry) == s.ready.count(entry) + 1
            &&& s.waiting.contains(k) && (!task.dependencies.contains(id) || exists|i: int|
                0 <= i < task.dependencies.len() && !s.completed.contains(
                    #[trigger] task.dependencies[i],
                ) && task.dependencies[i] != id) ==> next.waiting.contains(k) && next.ready.count(
                entry,
            ) == s.ready.count(entry)
        }),
{
    broadcast use vstd::multiset::group_multiset_axioms;

    let mid = Schedule {
        running: s.running.remove(id),
        completed: s.completed.insert(id),
        ..s
    };
    let moved = mid.waiting.filter(|k: K| mid.met(k) && mid.graph.dependencies(k).contains(id));
    let task = s.graph.tasks[k];
    vstd::set_lib::lemma_set_subset_finite(s.graph.tasks.dom(), s.waiting);
    lemma_entries(mid, moved);
    assert(mid.graph.dependencies(k) == task.dependencies);
    if s.waiting.contains(k) {
        assert(s.graph.tasks.contains_key(k));
        if exists|i: int|
            0 <= i < task.dependencies.len() && !s.completed.contains(
                #[trigger] task.dependencies[i],
            ) && task.dependencies[i] != id {
            let i = choose|i: int|
                0 <= i < task.dependencies.len() && !s.completed.contains(
                    #[trigger] task.dependencies[i],
                ) && task.dependencies[i] != id;
            assert(!mid.completed.contains(mid.graph.dependencies(k)[i]));
            assert(!mid.met(k));
        }
        assert(moved.contains(k) <==> mid.met(k) && task.dependencies.contains(id));
    }
    assert(mid.entry(k) == HeapNode { priority: task.priority, index: k });
}

/// In a sound state every task stands in one place. It waits exactly if one of its dependencies is
/// not completed. If all are, it is queued once, with its own priority, unless it runs or is
/// completed.
pub proof fn law_every_task_stands_somewhere<K: TaskKey, P>(s: Schedule<K, P>, id: K)
    requires
        s.sound(),
        s.graph.tasks.contains_key(id),
    ensures
        ({
            let task = s.graph.tasks[id];
            let entry = HeapNode { priority: task.priority, index: id };
            &&& s.waiting.contains(id) <==> exists|i: int|
                0 <= i < task.dependencies.len() && !s.completed.contains(
                    #[trigger] task.dependencies[i],
                )
            &&& !(s.running.contains(id) && s.completed.contains(id))
            &&& s.ready.count(entry) == (if s.waiting.contains(id) || s.running.contains(id)
                || s.completed.contains(id) {
                0nat
            } else {
                1
            })
            &&& forall|other: HeapNode<K>|
                other.index == id && #[trigger] s.ready.contains(other) ==> other == entry
        }),
{
    let task = s.graph.tasks[id];
    assert(s.placed(id));
    assert(s.graph.dependencies(id) == task.dependencies);
    assert(s.entry(id) == HeapNode { priority: task.priority, index: id });
    if s.waiting.contains(id) {
        assert(!s.met(id));
        let i = choose|i: int|
            0 <= i < s.graph.dependencies(id).len() && !s.completed.contains(
                #[trigger] s.graph.dependencies(id)[i],
            );
        assert(!s.completed.contains(task.dependencies[i]));
    } else {
        assert forall|i: int| 0 <= i < task.dependencies.len() implies s.completed.contains(
            #[trigger] task.dependencies[i],
        ) by {
            assert(s.completed.contains(s.graph.dependencies(id)[i]));
        }
    }
}

/// Tasks that start one after the other outrank each other in this order, and all of them outrank
/// what is still queued.
proof fn lemma_starts_outrank<K: TaskKey, P>(
    s: Schedule<K, P>,
    started: Seq<K>,
    post: Schedule<K, P>,
)
    requires
        s.sound(),
        starts_in_turn(s, started, post),
    ensures
        forall|i: int, j: int|
            0 <= i < j < started.len() ==> #[trigger] s.entry(started[i]).outranks(
                #[trigger] s.entry(started[j]),
            ),
        forall|i: int, node: HeapNode<K>|
            0 <= i < started.len() && #[trigger] post.ready.contains(node) ==> #[trigger] s.entry(
                started[i],
            ).outranks(node),
        forall|node: HeapNode<K>| #[trigger] post.ready.contains(node) ==> s.ready.contains(node),
        forall|node: HeapNode<K>| #[trigger]
            s.ready.contains(node) ==> post.ready.contains(node) || started.contains(node.index),
    decreases started.len(),
{
    broadcast use vstd::multiset::group_multiset_axioms;

    if started.len() > 0 {
        let rest = started.drop_last();
        let id = started.last();
        let mid = choose|mid: Schedule<K, P>|
            starts_in_turn(s, rest, mid) && #[trigger] mid.starts(Some(id), post);
        lemma_starts_in_turn(s, rest, mid);
        lemma_starts_outrank(s, rest, mid);
        let node = choose|node: HeapNode<K>| #[trigger]
            mid.is_next(node) && node.index == id && post == mid.with_started(node);
        law_start_takes_highest(mid, node);
        assert(mid.ready.contains(node));
        assert(node == mid.entry(id));
        assert(mid.graph == s.graph);
        assert(s.entry(id) == node);
        assert(started =~= rest.push(id));
        crate::counting::lemma_push_contains(rest, id);
        assert forall|i: int, j: int| 0 <= i < j < started.len() implies #[trigger] s.entry(
            started[i],
        ).outranks(#[trigger] s.entry(started[j])) by {
            if j < rest.len() {
                assert(s.entry(rest[i]).outranks(s.entry(rest[j])));
            } else {
                assert(s.entry(rest[i]).outranks(node));
            }
        }
        assert forall|i: int, other: HeapNode<K>|
            0 <= i < started.len() && #[trigger] post.ready.contains(other) implies #[trigger]
            s.entry(started[i]).outranks(other) by {
            assert(mid.ready.contains(other));
            if i < rest.len() {
                assert(s.entry(rest[i]).outranks(other));
            } else {
                assert(mid.ready.count(node) == 1);
                assert(other != node);
                assert(node.outranks(other));
            }
        }
        assert forall|other: HeapNode<K>| #[trigger] post.ready.contains(other) implies
            s.ready.contains(other) by {
            assert(mid.ready.contains(other));
        }
        assert forall|other: HeapNode<K>| #[trigger] s.ready.contains(other) implies
            post.ready.contains(other) || started.contains(other.index) by {
            if mid.ready.contains(other) {
                if other != node {
                    assert(post.ready.contains(other));
                }
            } else {
                assert(rest.contains(other.index));
            }
        }
    }
}

/// Which tasks start, and in which order, by what the tasks themselves say.
///
/// A task that starts was added, was neither running nor completed, and each of its dependencies
/// is completed. A task that starts before another one has a higher priority, or the same one and
/// the smaller number. There is room for all that start. A task that could have started as well
/// and does not, is left out only because there is no more room, and comes after all that start.
pub proof fn law_starts_by_priority<K: TaskKey, P>(
    s: Schedule<K, P>,
    started: Seq<K>,
    post: Schedule<K, P>,
)
    requires
        s.sound(),
        starts_all(s, started, post),
    ensures
        forall|i: int|
            #![trigger started[i]]
            0 <= i < started.len() ==> {
                &&& s.graph.tasks.contains_key(started[i])
                &&& !s.running.contains(started[i])
                &&& !s.completed.contains(started[i])
                &&& post.running.contains(started[i])
                &&& forall|d: int|
                    0 <= d < s.graph.tasks[started[i]].dependencies.len() ==> s.completed.contains(
                        #[trigger] s.graph.tasks[started[i]].dependencies[d],
                    )
            },
        forall|i: int, j: int|
            #![trigger started[i], started[j]]
            0 <= i < j < started.len() ==> {
                let a = s.graph.tasks[started[i]].priority;
                let b = s.graph.tasks[started[j]].priority;
                a > b || (a == b && started[i].rank() < started[j].rank())
            },
        started.len() > 0 ==> s.running.len() + started.len() <= s.limit,
        post.running.len() == s.running.len() + started.len(),
        forall|k: K|
            s.graph.tasks.contains_key(k) && !s.running.contains(k) && !s.completed.contains(k)
                && !(#[trigger] started.contains(k)) && (forall|d: int|
                0 <= d < s.graph.tasks[k].dependencies.len() ==> s.completed.contains(
                    #[trigger] s.graph.tasks[k].dependencies[d],
                )) ==> s.running.len() + started.len() >= s.limit && forall|i: int|
                #![trigger started[i]]
                0 <= i < started.len() ==> {
                    let a = s.graph.tasks[started[i]].priority;
                    let b = s.graph.tasks[k].priority;
                    a > b || (a == b && started[i].rank() < k.rank())
                },
{
    broadcast use vstd::multiset::group_multiset_axioms;

    let last = choose|last: Schedule<K, P>| #[trigger]
        starts_in_turn(s, started, last) && last.starts(None, post);
    lemma_starts_in_turn(s, started, last);
    lemma_starts_outrank(s, started, last);
    law_filling_up(s, started, post);
    vstd::set_lib::lemma_set_subset_finite(s.graph.tasks.dom(), s.running);
    lemma_starts_fit(s, started, last);
    assert forall|i: int|
        #![trigger started[i]]
        0 <= i < started.len() implies {
        &&& s.graph.tasks.contains_key(started[i])
        &&& !s.running.contains(started[i])
        &&& !s.completed.contains(started[i])
        &&& post.running.contains(started[i])
        &&& forall|d: int|
            0 <= d < s.graph.tasks[started[i]].dependencies.len() ==> s.completed.contains(
                #[trigger] s.graph.tasks[started[i]].dependencies[d],
            )
    } by {
        let id = started[i];
        assert(started.to_set().contains(id));
        assert(post.running.contains(id));
        assert(post.graph.tasks.contains_key(id));
        law_every_task_stands_somewhere(post, id);
        assert(post.placed(id));
    }
    assert forall|i: int, j: int|
        #![trigger started[i], started[j]]
        0 <= i < j < started.len() implies {
        let a = s.graph.tasks[started[i]].priority;
        let b = s.graph.tasks[started[j]].priority;
        a > b || (a == b && started[i].rank() < started[j].rank())
    } by {
        assert(s.entry(started[i]).outranks(s.entry(started[j])));
    }
    assert forall|k: K|
        s.graph.tasks.contains_key(k) && !s.running.contains(k) && !s.completed.contains(k) && !(
        #[trigger] started.contains(k)) && (forall|d: int|
            0 <= d < s.graph.tasks[k].dependencies.len() ==> s.completed.contains(
                #[trigger] s.graph.tasks[k].dependencies[d],
            )) implies s.running.len() + started.len() >= s.limit && forall|i: int|
        #![trigger started[i]]
        0 <= i < started.len() ==> {
            let a = s.graph.tasks[started[i]].priority;
            let b = s.graph.tasks[k].priority;
            a > b || (a == b && started[i].rank() < k.rank())
        } by {
        law_every_task_stands_somewhere(s, k);
        let entry = HeapNode { priority: s.graph.tasks[k].priority, index: k };
        assert(s.ready.contains(entry));
        assert(last.ready.contains(entry));
        assert(last.graph == s.graph && last.completed == s.completed);
        assert(last.placed(k));
        assert(!last.running.contains(k)) by {
            assert(started.to_set().contains(k) <==> started.contains(k));
        }
        assert(last.fresh(entry));
        assert forall|i: int|
            #![trigger started[i]]
            0 <= i < started.len() implies {
            let a = s.graph.tasks[started[i]].priority;
            let b = s.graph.tasks[k].priority;
            a > b || (a == b && started[i].rank() < k.rank())
        } by {
            assert(s.entry(started[i]).outranks(entry));
        }
    }
}

/// Each start takes up room that was there.
proof fn lemma_starts_fit<K: TaskKey, P>(s: Schedule<K, P>, started: Seq<K>, post: Schedule<K, P>)
    requires
        s.sound(),
        starts_in_turn(s, started, post),
    ensures
        post.running.len() == s.running.len() + started.len(),
        started.len() > 0 ==> post.running.len() <= s.limit,
    decreases started.len(),
{
    if started.len() > 0 {
        let rest = started.drop_last();
        let id = started.last();
        let mid = choose|mid: Schedule<K, P>|
            starts_in_turn(s, rest, mid) && #[trigger] mid.starts(Some(id), post);
        lemma_starts_in_turn(s, rest, mid);
        lemma_starts_fit(s, rest, mid);
        law_dependencies_complete_before_start(mid, id, post);
        vstd::set_lib::lemma_set_subset_finite(mid.graph.tasks.dom(), mid.running);
        assert(mid.running.len() < mid.limit);
    }
}

/// Requeueing moves a waiting task to the queue, with its priority, exactly if each of its
/// dependencies is completed. Nothing else changes.
pub proof fn law_requeue_moves_what_is_ready<K: TaskKey, P>(s: Schedule<K, P>, k: K)
    requires
        s.waiting.subset_of(s.graph.tasks.dom()),
        s.graph.tasks.dom().finite(),
    ensures
        ({
            let next = s.requeued();
            let task = s.graph.tasks[k];
            let entry = HeapNode { priority: task.priority, index: k };
            &&& next.graph == s.graph
            &&& next.limit == s.limit
            &&& next.running == s.running
            &&& next.completed == s.completed
            &&& !s.waiting.contains(k) ==> !next.waiting.contains(k) && next.ready.count(entry)
                == s.ready.count(entry)
            &&& s.waiting.contains(k) && (forall|i: int|
                0 <= i < task.dependencies.len() ==> s.completed.contains(
                    #[trigger] task.dependencies[i],
                )) ==> !next.waiting.contains(k) && next.ready.count(entry) == s.ready.count(entry)
                + 1
            &&& s.waiting.contains(k) && (exists|i: int|
                0 <= i < task.dependencies.len() && !s.completed.contains(
                    #[trigger] task.dependencies[i],
                )) ==> next.waiting.contains(k) && next.ready.count(entry) == s.ready.count(entry)
        }),
{
    broadcast use vstd::multiset::group_multiset_axioms;

    let moved = s.waiting.filter(|id: K| s.met(id));
    let task = s.graph.tasks[k];
    vstd::set_lib::lemma_set_subset_finite(s.graph.tasks.dom(), s.waiting);
    lemma_entries(s, moved);
    assert(s.graph.dependencies(k) == task.dependencies);
    if s.waiting.contains(k) {
        assert(s.graph.tasks.contains_key(k));
        if exists|i: int|
            0 <= i < task.dependencies.len() && !s.completed.contains(
                #[trigger] task.dependencies[i],
            ) {
            let i = choose|i: int|
                0 <= i < task.dependencies.len() && !s.completed.contains(
                    #[trigger] task.dependencies[i],
                );
            assert(!s.completed.contains(s.graph.dependencies(k)[i]));
            assert(!s.met(k));
        }
        assert(moved.contains(k) <==> s.met(k));
    }
    assert(s.entry(k) == HeapNode { priority: task.priority, index: k });
}

/// The dependencies of a task are met exactly if the task was added and each of them is completed.
pub proof fn law_met_means_all_completed<K: TaskKey, P>(s: Schedule<K, P>, id: K)
    ensures
        s.met(id) <==> s.graph.tasks.contains_key(id) && forall|i: int|
            0 <= i < s.graph.tasks[id].dependencies.len() ==> s.completed.contains(
                #[trigger] s.graph.tasks[id].dependencies[i],
            ),
        s.idle() <==> s.running == Set::<K>::empty() && s.ready == Multiset::<
            HeapNode<K>,
        >::empty(),
{
    assert(s.graph.dependencies(id) == s.graph.tasks[id].dependencies);
    if s.met(id) {
        assert forall|i: int| 0 <= i < s.graph.tasks[id].dependencies.len() implies
            s.completed.contains(#[trigger] s.graph.tasks[id].dependencies[i]) by {
            assert(s.completed.contains(s.graph.dependencies(id)[i]));
        }
    }
}

} // verus!
