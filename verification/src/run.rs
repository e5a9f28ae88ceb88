//! What holds of a whole run, in whatever order the tasks are completed.

use vstd::prelude::*;

use crate::f_graph::{
    as_child, depends_backwards, lemma_with_task_keeps_numbers, next_index, numbered,
    with_children,
};
use crate::key::TaskKey;
use crate::node::TaskModel;
use crate::schedule::{
    law_completion_keeps_sound, law_starts_by_priority, law_with_task_keeps_sound, starts_all,
    Schedule,
};
use crate::scheduler::{is_round, law_round, law_round_starts_tasks, Round};

verus! {

/// What happens between two rounds of a run: a task is completed, and tasks are added.
pub struct Event<K, P> {
    pub finished: K,
    pub added: Seq<(K, TaskModel<K, P>)>,
}

/// The state after some tasks were added.
pub open spec fn with_tasks<K: TaskKey, P>(
    s: Schedule<K, P>,
    added: Seq<(K, TaskModel<K, P>)>,
) -> Schedule<K, P>
    decreases added.len(),
{
    if added.len() == 0 {
        s
    } else {
        with_tasks(s, added.drop_last()).with_task(added.last().0, added.last().1)
    }
}

/// Whether some tasks are all accepted.
pub open spec fn accepts_all<K: TaskKey, P>(
    s: Schedule<K, P>,
    added: Seq<(K, TaskModel<K, P>)>,
) -> bool
    decreases added.len(),
{
    added.len() == 0 || {
        &&& accepts_all(s, added.drop_last())
        &&& with_tasks(s, added.drop_last()).graph.accepts(added.last().0, added.last().1)
    }
}

/// A run: the state in which it begins, its rounds, the state after each of them, and what happens
/// between them.
#[verifier::reject_recursive_types(K)]
pub struct Run<K, P> {
    pub start: Schedule<K, P>,
    pub rounds: Seq<Round<K>>,
    pub states: Seq<Schedule<K, P>>,
    pub events: Seq<Event<K, P>>,
}

impl<K: TaskKey, P> Run<K, P> {
    /// The state that a round begins in.
    pub open spec fn before(self, i: int) -> Schedule<K, P> {
        if i == 0 {
            self.start
        } else {
            with_tasks(
                self.states[i - 1].with_completed(self.events[i - 1].finished),
                self.events[i - 1].added,
            )
        }
    }

    /// Whether a sound state is taken through these rounds, and between them running tasks are
    /// completed and accepted tasks are added.
    pub open spec fn is_valid(self) -> bool {
        &&& self.start.sound()
        &&& self.rounds.len() == self.events.len() + 1
        &&& self.states.len() == self.rounds.len()
        &&& forall|i: int|
            0 <= i < self.rounds.len() ==> is_round(
                self.before(i),
                #[trigger] self.rounds[i],
                self.states[i],
            )
        &&& forall|i: int|
            0 <= i < self.events.len() ==> {
                &&& self.states[i].running.contains((#[trigger] self.events[i]).finished)
                &&& accepts_all(
                    self.states[i].with_completed(self.events[i].finished),
                    self.events[i].added,
                )
            }
    }

    /// The tasks that the first `n` rounds start, in order.
    pub open spec fn started(self, n: nat) -> Seq<K>
        decreases n,
    {
        if n == 0 {
            Seq::empty()
        } else {
            self.started((n - 1) as nat) + self.rounds[n - 1].started@
        }
    }

    /// Whether a task is among the first `n` that are completed.
    pub open spec fn has_finished(self, n: int, id: K) -> bool {
        exists|i: int| 0 <= i < n && (#[trigger] self.events[i]).finished == id
    }

    /// Whether all tasks are completed in the end.
    pub open spec fn is_over(self) -> bool {
        self.rounds.last().progress is Done
    }
}

/// Adding accepted tasks keeps a state sound and leaves the tasks that are there alone.
proof fn lemma_with_tasks<K: TaskKey, P>(s: Schedule<K, P>, added: Seq<(K, TaskModel<K, P>)>)
    requires
        s.sound(),
        accepts_all(s, added),
    ensures
        ({
            let next = with_tasks(s, added);
            &&& next.sound()
            &&& next.running == s.running
            &&& next.completed == s.completed
            &&& next.limit == s.limit
            &&& forall|k: K| #[trigger]
                s.graph.tasks.contains_key(k) ==> next.graph.tasks.contains_key(k)
                    && next.graph.tasks[k] == s.graph.tasks[k]
        }),
    decreases added.len(),
{
    if added.len() > 0 {
        lemma_with_tasks(s, added.drop_last());
        law_with_task_keeps_sound(
            with_tasks(s, added.drop_last()),
            added.last().0,
            added.last().1,
        );
    }
}

/// One completion more.
proof fn lemma_has_finished<K: TaskKey, P>(run: Run<K, P>, n: int, id: K)
    requires
        n > 0,
    ensures
        run.has_finished(n, id) <==> run.has_finished(n - 1, id) || run.events[n - 1].finished
            == id,
{
    if run.has_finished(n, id) {
        let i = choose|i: int| 0 <= i < n && (#[trigger] run.events[i]).finished == id;
        if i < n - 1 {
            assert(run.has_finished(n - 1, id));
        }
    }
}

/// What holds after round `n`.
proof fn lemma_run<K: TaskKey, P>(run: Run<K, P>, n: int)
    requires
        run.is_valid(),
        0 <= n < run.rounds.len(),
    ensures
        run.before(n).sound(),
        run.states[n].sound(),
        run.states[n].limit == run.start.limit,
        run.start.running.len() <= run.start.limit ==> run.states[n].running.len()
            <= run.start.limit,
        forall|k: K| #[trigger]
            run.start.graph.tasks.contains_key(k) ==> run.states[n].graph.tasks.contains_key(k)
                && run.states[n].graph.tasks[k] == run.start.graph.tasks[k],
        forall|id: K| #[trigger]
            run.states[n].completed.contains(id) <==> run.start.completed.contains(id)
                || run.has_finished(n, id),
        forall|id: K| #[trigger]
            run.started((n + 1) as nat).contains(id) || run.start.running.contains(id)
                || run.start.completed.contains(id) <==> run.states[n].running.contains(id)
                || run.states[n].completed.contains(id),
        run.started((n + 1) as nat).no_duplicates(),
        forall|id: K| #[trigger]
            run.started((n + 1) as nat).contains(id) ==> !run.start.running.contains(id)
                && !run.start.completed.contains(id),
        run.states[n].completed.len() == run.start.completed.len() + n,
    decreases n,
{
    let base = run.before(n);
    let post = run.states[n];
    let fresh = run.rounds[n].started@;
    let earlier = run.started(n as nat);
    let all = run.started((n + 1) as nat);
    assert(is_round(run.before(n), run.rounds[n], run.states[n]));
    if n == 0 {
        assert(earlier =~= Seq::<K>::empty());
    } else {
        lemma_run(run, n - 1);
        let last = run.states[n - 1];
        let event = run.events[n - 1];
        assert(last.running.contains(event.finished));
        law_completion_keeps_sound(last, event.finished);
        lemma_with_tasks(last.with_completed(event.finished), event.added);
        assert(base.running == last.running.remove(event.finished));
        assert(base.completed == last.completed.insert(event.finished));
        vstd::set_lib::lemma_set_subset_finite(last.graph.tasks.dom(), last.running);
        vstd::set_lib::lemma_set_subset_finite(last.graph.tasks.dom(), last.completed);
        assert(last.graph.tasks.contains_key(event.finished));
        assert(last.placed(event.finished));
        assert forall|id: K| #[trigger]
            base.completed.contains(id) <==> run.start.completed.contains(id) || run.has_finished(
                n,
                id,
            ) by {
            assert(last.completed.contains(id) <==> run.start.completed.contains(id)
                || run.has_finished(n - 1, id));
            lemma_has_finished(run, n, id);
        }
    }
    law_round(base, run.rounds[n], post);
    assert forall|id: K| #[trigger] fresh.contains(id) implies !base.running.contains(id)
        && !base.completed.contains(id) && post.running.contains(id) by {
        let i = fresh.index_of(id);
        assert(fresh[i] == id);
        assert(fresh.to_set().contains(id));
        assert(post.graph.tasks.contains_key(id));
        assert(post.placed(id));
    }
    assert forall|id: K| #[trigger] all.contains(id) <==> earlier.contains(id) || fresh.contains(
        id,
    ) by {
        if all.contains(id) {
            let i = all.index_of(id);
            if i < earlier.len() {
                assert(earlier[i] == id);
            } else {
                assert(fresh[i - earlier.len()] == id);
            }
        }
        if earlier.contains(id) {
            assert(all[earlier.index_of(id)] == id);
        }
        if fresh.contains(id) {
            assert(all[earlier.len() + fresh.index_of(id)] == id);
        }
    }
    assert forall|id: K| #[trigger]
        all.contains(id) || run.start.running.contains(id) || run.start.completed.contains(id)
            <==> post.running.contains(id) || post.completed.contains(id) by {
        assert(post.running.contains(id) <==> base.running.contains(id) || fresh.to_set().contains(
            id,
        ));
        assert(fresh.to_set().contains(id) <==> fresh.contains(id));
        assert(all.contains(id) <==> earlier.contains(id) || fresh.contains(id));
    }
    assert forall|i: int, j: int| 0 <= i < j < all.len() implies all[i] != all[j] by {
        if j < earlier.len() {
            assert(earlier[i] != earlier[j]);
        } else if i >= earlier.len() {
            assert(fresh[i - earlier.len()] != fresh[j - earlier.len()]);
        } else {
            assert(earlier.contains(earlier[i]));
            assert(fresh.contains(fresh[j - earlier.len()]));
        }
    }
}

/// In a run, whatever the order in which tasks are completed:
/// no task starts twice, and none starts that was running or completed when the run began;
/// the limit is kept;
/// the run is never found deadlocked, and while something is completed it was not over;
/// the tasks that are there stay as they are.
pub proof fn law_run_starts_each_task_once<K: TaskKey, P>(run: Run<K, P>)
    requires
        run.is_valid(),
    ensures
        run.started(run.rounds.len()).no_duplicates(),
        forall|id: K| #[trigger]
            run.started(run.rounds.len()).contains(id) ==> !run.start.running.contains(id)
                && !run.start.completed.contains(id),
        forall|i: int|
            0 <= i < run.states.len() && run.start.running.len() <= run.start.limit ==> (
            #[trigger] run.states[i]).running.len() <= run.start.limit,
        forall|i: int|
            0 <= i < run.rounds.len() ==> !((#[trigger] run.rounds[i]).progress is Deadlocked),
        forall|i: int| 0 <= i < run.events.len() ==> (#[trigger] run.rounds[i]).progress is Wait,
        forall|k: K| #[trigger]
            run.start.graph.tasks.contains_key(k) ==> run.states.last().graph.tasks.contains_key(k)
                && run.states.last().graph.tasks[k] == run.start.graph.tasks[k],
{
    lemma_run(run, run.rounds.len() - 1);
    assert forall|i: int| 0 <= i < run.states.len() && run.start.running.len() <= run.start.limit
        implies (#[trigger] run.states[i]).running.len() <= run.start.limit by {
        lemma_run(run, i);
    }
    assert forall|i: int| 0 <= i < run.rounds.len() implies !((#[trigger] run.rounds[i]).progress
        is Deadlocked) by {
        lemma_run(run, i);
        law_round(run.before(i), run.rounds[i], run.states[i]);
    }
    assert forall|i: int| 0 <= i < run.events.len() implies (#[trigger] run.rounds[i]).progress
        is Wait by {
        lemma_run(run, i);
        law_round(run.before(i), run.rounds[i], run.states[i]);
        let id = run.events[i].finished;
        assert(run.states[i].graph.tasks.contains_key(id));
        assert(run.states[i].placed(id));
    }
}

/// In a run, a task starts only after each of its dependencies was completed, in this run or
/// before it.
pub proof fn law_run_respects_dependencies<K: TaskKey, P>(run: Run<K, P>, i: int, j: int, d: int)
    requires
        run.is_valid(),
        0 <= i < run.rounds.len(),
        0 <= j < run.rounds[i].started@.len(),
        0 <= d < run.states[i].graph.tasks[run.rounds[i].started@[j]].dependencies.len(),
    ensures
        run.states[i].graph.tasks.contains_key(run.rounds[i].started@[j]),
        ({
            let needed = run.states[i].graph.tasks[run.rounds[i].started@[j]].dependencies[d];
            run.start.completed.contains(needed) || run.has_finished(i, needed)
        }),
{
    lemma_run(run, i);
    let post = run.states[i];
    let id = run.rounds[i].started@[j];
    law_round(run.before(i), run.rounds[i], post);
    assert(run.rounds[i].started@.to_set().contains(id));
    assert(post.running.contains(id));
    assert(post.placed(id));
    assert(post.met(id));
    let needed = post.graph.tasks[id].dependencies[d];
    assert(post.completed.contains(post.graph.dependencies(id)[d]));
    assert(run.has_finished(i, needed) || run.start.completed.contains(needed));
}

/// A run that is over has completed every task, and has started every one that was neither
/// running nor completed when it began.
pub proof fn law_finished_run_has_run_everything<K: TaskKey, P>(run: Run<K, P>, id: K)
    requires
        run.is_valid(),
        run.is_over(),
        run.states.last().graph.tasks.contains_key(id),
    ensures
        run.states.last().completed.contains(id),
        run.start.completed.contains(id) || run.has_finished(run.events.len() as int, id),
        run.start.completed.contains(id) || run.start.running.contains(id) || run.started(
            run.rounds.len(),
        ).contains(id),
{
    let n = run.rounds.len() - 1;
    lemma_run(run, n);
    law_round(run.before(n), run.rounds[n], run.states[n]);
    assert(run.states[n].completed.contains(id));
    assert(run.has_finished(n, id) || run.start.completed.contains(id));
    assert(run.started((n + 1) as nat).contains(id) || run.start.running.contains(id)
        || run.start.completed.contains(id));
}

/// A run of tasks comes to an end: it is over exactly if there were as many completions as there
/// are tasks that were not completed when it began, and there are never more.
pub proof fn law_run_comes_to_an_end<K: TaskKey, P>(run: Run<K, P>)
    requires
        run.is_valid(),
    ensures
        run.start.completed.len() + run.events.len() <= run.states.last().graph.tasks.len(),
        run.is_over() <==> run.start.completed.len() + run.events.len()
            == run.states.last().graph.tasks.len(),
{
    let n = run.rounds.len() - 1;
    lemma_run(run, n);
    let last = run.states[n];
    law_round(run.before(n), run.rounds[n], last);
    vstd::set_lib::lemma_len_subset(last.completed, last.graph.tasks.dom());
    if last.completed.len() == last.graph.tasks.len() {
        vstd::set_lib::lemma_subset_equality(last.completed, last.graph.tasks.dom());
    }
}

/// After a run that is over tasks can be added and run: the second run starts only tasks that the
/// first did not have.
pub proof fn law_second_run_starts_only_new_tasks<K: TaskKey, P>(
    first: Run<K, P>,
    added: Seq<(K, TaskModel<K, P>)>,
    second: Run<K, P>,
    id: K,
)
    requires
        first.is_valid(),
        first.is_over(),
        accepts_all(first.states.last(), added),
        second.start == with_tasks(first.states.last(), added),
        second.is_valid(),
        second.started(second.rounds.len()).contains(id),
    ensures
        !first.states.last().graph.tasks.contains_key(id),
{
    lemma_run(first, first.rounds.len() - 1);
    lemma_with_tasks(first.states.last(), added);
    law_run_starts_each_task_once(second);
    if first.states.last().graph.tasks.contains_key(id) {
        law_finished_run_has_run_everything(first, id);
    }
}

/// The children of a finished task are added like any other tasks: a graph that grows in this way
/// goes through a run.
pub proof fn law_children_are_added_tasks<P>(
    s: Schedule<usize, P>,
    children: Seq<TaskModel<usize, P>>,
    finished: usize,
) -> (added: Seq<(usize, TaskModel<usize, P>)>)
    requires
        numbered(s),
        s.graph.tasks.len() + children.len() <= usize::MAX,
    ensures
        accepts_all(s, added),
        with_tasks(s, added) == with_children(s, children, finished),
        numbered(with_tasks(s, added)),
        with_tasks(s, added).graph.tasks.len() <= s.graph.tasks.len() + children.len(),
    decreases children.len(),
{
    if children.len() == 0 {
        Seq::empty()
    } else {
        let earlier = law_children_are_added_tasks(s, children.drop_last(), finished);
        let mid = with_tasks(s, earlier);
        let child = as_child(children.last(), finished);
        if depends_backwards(mid, child) {
            lemma_with_task_keeps_numbers(mid, child);
            let added = earlier.push((next_index(mid), child));
            assert(added.drop_last() =~= earlier);
            added
        } else {
            earlier
        }
    }
}

/// In a run, a task that starts earlier in a round than another one has a higher priority, or the
/// same one and the smaller number; and a task that could have started in that round, and does
/// not, comes after all that do.
pub proof fn law_run_goes_by_priority<K: TaskKey, P>(run: Run<K, P>, i: int, j: int, k: K)
    requires
        run.is_valid(),
        0 <= i < run.rounds.len(),
        0 <= j < run.rounds[i].started@.len(),
        run.states[i].graph.tasks.contains_key(k),
        !run.before(i).running.contains(k),
        !run.states[i].completed.contains(k),
        forall|d: int|
            0 <= d < run.states[i].graph.tasks[k].dependencies.len()
                ==> run.states[i].completed.contains(
                #[trigger] run.states[i].graph.tasks[k].dependencies[d],
            ),
        forall|l: int| 0 <= l <= j ==> #[trigger] run.rounds[i].started@[l] != k,
    ensures
        ({
            let first = run.rounds[i].started@[j];
            let a = run.states[i].graph.tasks[first].priority;
            let b = run.states[i].graph.tasks[k].priority;
            a > b || (a == b && first.rank() < k.rank())
        }),
{
    lemma_run(run, i);
    let base = run.before(i);
    let post = run.states[i];
    let started = run.rounds[i].started@;
    law_round(base, run.rounds[i], post);
    law_round_starts_tasks(base, run.rounds[i], post);
    let filled = choose|filled: Schedule<K, P>| #[trigger]
        starts_all(base, started, filled) && filled.running == post.running;
    law_starts_by_priority(base, started, filled);
    if started.contains(k) {
        let l = started.index_of(k);
        assert(started[l] == k && started[j] == started[j]);
        assert(j < l);
    } else {
        assert(started[j] == started[j]);
    }
}

} // verus!
