//! Why tasks wait although nothing runs.

use std::collections::{HashMap, HashSet};
use vstd::prelude::*;
use vstd::string::StringExecFns;

use crate::counting::{
    lemma_push_contains, lemma_tally_positive, lemma_tally_push, lemma_tally_remove,
    lemma_tally_take, members, occurrences, tally,
};
use crate::key::TaskKey;
use crate::node::{models, TaskModel, TaskNode};
use crate::text::{bracketed, decimal, push_bracketed, push_decimal};

verus! {

/// The reason why waiting tasks can never run.
#[derive(Debug)]
pub enum Deadlock<K> {
    /// Each listed task is unknown, or depends on the listed tasks, which are neither completed
    /// nor waiting.
    Missing(Vec<(K, Vec<K>)>),
    /// The listed tasks depend on each other in a cycle, or on tasks that do.
    Cycle(Vec<K>),
    /// The waiting tasks could run one after another, but none of them was queued.
    Stalled,
}

/// The dependencies that are neither completed nor waiting.
pub open spec fn unreachable_dependencies<K>(
    dependencies: Seq<K>,
    waiting: Set<K>,
    completed: Set<K>,
) -> Seq<K> {
    dependencies.filter(|d: K| !completed.contains(d) && !waiting.contains(d))
}

/// The dependencies that are missing for a waiting task; none are named for an unknown task.
pub open spec fn missing_for<K, P>(
    tasks: Map<K, TaskModel<K, P>>,
    waiting: Set<K>,
    completed: Set<K>,
    id: K,
) -> Seq<K> {
    if tasks.contains_key(id) {
        unreachable_dependencies(tasks[id].dependencies, waiting, completed)
    } else {
        Seq::empty()
    }
}

/// Whether a waiting task is unknown or has a missing dependency.
pub open spec fn is_unsatisfiable<K, P>(
    tasks: Map<K, TaskModel<K, P>>,
    waiting: Set<K>,
    completed: Set<K>,
    id: K,
) -> bool {
    !tasks.contains_key(id) || missing_for(tasks, waiting, completed, id).len() > 0
}

/// Whether every waiting task is known and none has a missing dependency.
pub open spec fn all_satisfiable<K, P>(
    tasks: Map<K, TaskModel<K, P>>,
    waiting: Set<K>,
    completed: Set<K>,
) -> bool {
    forall|id: K| #[trigger]
        waiting.contains(id) ==> !is_unsatisfiable(tasks, waiting, completed, id)
}

/// Whether the task depends on a member of `keys`.
pub open spec fn depends_on_any<K, P>(task: TaskModel<K, P>, keys: Set<K>) -> bool {
    exists|i: int| 0 <= i < task.dependencies.len() && keys.contains(#[trigger] task.dependencies[i])
}

/// Whether the members of `keys` are waiting tasks that hold each other up: each of them depends
/// on one of them.
pub open spec fn hold_each_other_up<K, P>(
    tasks: Map<K, TaskModel<K, P>>,
    waiting: Set<K>,
    keys: Set<K>,
) -> bool {
    &&& keys.subset_of(waiting)
    &&& forall|k: K| #[trigger] keys.contains(k) ==> depends_on_any(tasks[k], keys)
}

/// Whether `keys` is the largest set of waiting tasks that hold each other up.
pub open spec fn is_largest_held_up<K, P>(
    tasks: Map<K, TaskModel<K, P>>,
    waiting: Set<K>,
    keys: Set<K>,
) -> bool {
    &&& hold_each_other_up(tasks, waiting, keys)
    &&& forall|other: Set<K>| #[trigger]
        hold_each_other_up(tasks, waiting, other) ==> other.subset_of(keys)
}

/// Whether `list` names each unsatisfiable waiting task once, with what it misses.
pub open spec fn lists_missing<K, P>(
    tasks: Map<K, TaskModel<K, P>>,
    waiting: Set<K>,
    completed: Set<K>,
    list: Seq<(K, Vec<K>)>,
) -> bool {
    &&& forall|i: int|
        0 <= i < list.len() ==> {
            &&& waiting.contains((#[trigger] list[i]).0)
            &&& is_unsatisfiable(tasks, waiting, completed, list[i].0)
            &&& list[i].1@ == missing_for(tasks, waiting, completed, list[i].0)
        }
    &&& forall|i: int, j: int|
        0 <= i < j < list.len() ==> (#[trigger] list[i]).0 != (#[trigger] list[j]).0
    &&& forall|id: K| #[trigger]
        waiting.contains(id) && is_unsatisfiable(tasks, waiting, completed, id) ==> exists|i: int|
            0 <= i < list.len() && (#[trigger] list[i]).0 == id
}

/// Whether `deadlock` says why the waiting tasks cannot run: a missing dependency is reported
/// before a cycle, and a cycle before a stall.
pub open spec fn explains<K, P>(
    tasks: Map<K, TaskModel<K, P>>,
    waiting: Set<K>,
    completed: Set<K>,
    deadlock: Deadlock<K>,
) -> bool {
    match deadlock {
        Deadlock::Missing(list) => {
            &&& !all_satisfiable(tasks, waiting, completed)
            &&& lists_missing(tasks, waiting, completed, list@)
        },
        Deadlock::Cycle(ids) => {
            &&& all_satisfiable(tasks, waiting, completed)
            &&& ids@.len() > 0
            &&& ids@.no_duplicates()
            &&& is_largest_held_up(tasks, waiting, ids@.to_set())
        },
        Deadlock::Stalled => {
            &&& all_satisfiable(tasks, waiting, completed)
            &&& is_largest_held_up(tasks, waiting, Set::<K>::empty())
        },
    }
}

/// The dependents that are filed under a task, none where it is not filed.
pub open spec fn dependents_of<K>(dependents: Map<K, Vec<K>>, id: K) -> Seq<K> {
    if dependents.contains_key(id) {
        dependents[id]@
    } else {
        Seq::empty()
    }
}

/// Whether each known waiting task is filed as a dependent of another one as often as it names
/// that one as a dependency.
pub open spec fn is_linked<K, P>(
    tasks: Map<K, TaskModel<K, P>>,
    dependents: Map<K, Vec<K>>,
    waiting: Set<K>,
) -> bool {
    forall|u: K, v: K|
        waiting.contains(u) && waiting.contains(v) && tasks.contains_key(u) && tasks.contains_key(v)
            ==> #[trigger] occurrences(dependents_of(dependents, u), v) == occurrences(
            tasks[v].dependencies,
            u,
        )
}

/// The members of `dependencies` that are neither completed nor waiting, in their order.
fn unreachable_of<K: TaskKey>(
    dependencies: &Vec<K>,
    waiting: &HashSet<K>,
    completed: &HashSet<K>,
) -> (missing: Vec<K>)
    ensures
        missing@ == unreachable_dependencies(dependencies@, waiting@, completed@),
{
    broadcast use vstd::std_specs::hash::group_hash_axioms;

    proof {
        K::lemma_hashable();
    }
    let ghost pred = |d: K| !completed@.contains(d) && !waiting@.contains(d);
    let mut missing: Vec<K> = Vec::new();
    let mut i: usize = 0;
    assert(dependencies@.take(0).filter(pred) =~= Seq::<K>::empty()) by {
        reveal(Seq::filter);
    }
    while i < dependencies.len()
        invariant
            i <= dependencies@.len(),
            vstd::std_specs::hash::obeys_key_model::<K>(),
            pred == (|d: K| !completed@.contains(d) && !waiting@.contains(d)),
            missing@ == dependencies@.take(i as int).filter(pred),
        decreases dependencies.len() - i,
    {
        let d = dependencies[i];
        proof {
            reveal(Seq::filter);
            assert(dependencies@.take(i + 1).drop_last() =~= dependencies@.take(i as int));
        }
        if !completed.contains(&d) && !waiting.contains(&d) {
            missing.push(d);
        }
        i = i + 1;
    }
    assert(dependencies@.take(i as int) =~= dependencies@);
    missing
}

/// The waiting tasks that are unknown or miss a dependency, with what they miss.
fn unsatisfiable_tasks<K: TaskKey, N: TaskNode<K>>(
    nodes: &HashMap<K, N>,
    waiting: &HashSet<K>,
    completed: &HashSet<K>,
) -> (list: Vec<(K, Vec<K>)>)
    ensures
        lists_missing(models(nodes@), waiting@, completed@, list@),
{
    broadcast use vstd::std_specs::hash::group_hash_axioms;

    proof {
        K::lemma_hashable();
    }
    let ghost tasks = models(nodes@);
    let ids = members(waiting);
    let mut list: Vec<(K, Vec<K>)> = Vec::new();
    let mut n: usize = 0;
    while n < ids.len()
        invariant
            n <= ids@.len(),
            vstd::std_specs::hash::obeys_key_model::<K>(),
            ids@.no_duplicates(),
            forall|id: K| #[trigger] ids@.contains(id) <==> waiting@.contains(id),
            tasks == models(nodes@),
            forall|i: int|
                0 <= i < list@.len() ==> {
                    &&& ids@.take(n as int).contains((#[trigger] list@[i]).0)
                    &&& waiting@.contains(list@[i].0)
                    &&& is_unsatisfiable(tasks, waiting@, completed@, list@[i].0)
                    &&& list@[i].1@ == missing_for(tasks, waiting@, completed@, list@[i].0)
                },
            forall|i: int, j: int|
                0 <= i < j < list@.len() ==> (#[trigger] list@[i]).0 != (#[trigger] list@[j]).0,
            forall|m: int|
                0 <= m < n && is_unsatisfiable(tasks, waiting@, completed@, #[trigger] ids@[m])
                    ==> exists|i: int| 0 <= i < list@.len() && (#[trigger] list@[i]).0 == ids@[m],
        decreases ids.len() - n,
    {
        let id = ids[n];
        let ghost before = list@;
        assert(ids@.contains(id));
        assert forall|k: K| ids@.take(n as int).contains(k) implies #[trigger] ids@.take(
            n + 1,
        ).contains(k) by {
            let p = choose|p: int| 0 <= p < n && ids@.take(n as int)[p] == k;
            assert(ids@.take(n + 1)[p] == k);
        }
        assert(ids@.take(n + 1)[n as int] == id);
        assert(!ids@.take(n as int).contains(id));
        match nodes.get(&id) {
            None => {
                let nothing: Vec<K> = Vec::new();
                assert(nothing@ =~= missing_for(tasks, waiting@, completed@, id));
                list.push((id, nothing));
                assert(list@[before.len() as int].0 == id);
            },
            Some(node) => {
                let missing = unreachable_of(node.dependencies(), waiting, completed);
                if missing.len() > 0 {
                    list.push((id, missing));
                    assert(list@[before.len() as int].0 == id);
                }
            },
        }
        proof {
            assert forall|m: int|
                0 <= m < n + 1 && is_unsatisfiable(
                    tasks,
                    waiting@,
                    completed@,
                    #[trigger] ids@[m],
                ) implies exists|i: int|
                0 <= i < list@.len() && (#[trigger] list@[i]).0 == ids@[m] by {
                if m < n {
                    let i = choose|i: int|
                        0 <= i < before.len() && (#[trigger] before[i]).0 == ids@[m];
                    assert(list@[i] == before[i]);
                }
            }
        }
        n = n + 1;
    }
    proof {
        assert forall|id: K| #[trigger]
            waiting@.contains(id) && is_unsatisfiable(
                tasks,
                waiting@,
                completed@,
                id,
            ) implies exists|i: int| 0 <= i < list@.len() && (#[trigger] list@[i]).0 == id by {
            assert(ids@.contains(id));
            let m = choose|m: int| 0 <= m < ids@.len() && ids@[m] == id;
            assert(is_unsatisfiable(tasks, waiting@, completed@, ids@[m]));
        }
    }
    list
}

/// The number of positions of `dependencies` that hold a waiting task.
fn count_waiting<K: TaskKey>(dependencies: &Vec<K>, waiting: &HashSet<K>) -> (count: usize)
    ensures
        count == tally(dependencies@, waiting@),
{
    broadcast use vstd::std_specs::hash::group_hash_axioms;

    proof {
        K::lemma_hashable();
    }
    let mut count: usize = 0;
    let mut i: usize = 0;
    while i < dependencies.len()
        invariant
            i <= dependencies@.len(),
            vstd::std_specs::hash::obeys_key_model::<K>(),
            count == tally(dependencies@.take(i as int), waiting@),
            count <= i,
        decreases dependencies.len() - i,
    {
        assert(dependencies@.take(i + 1) =~= dependencies@.take(i as int).push(
            dependencies@[i as int],
        ));
        proof {
            lemma_tally_push(dependencies@.take(i as int), dependencies@[i as int], waiting@);
        }
        if waiting.contains(&dependencies[i]) {
            count = count + 1;
        }
        i = i + 1;
    }
    assert(dependencies@.take(i as int) =~= dependencies@);
    count
}

/// Whether `degree` holds for each waiting task how many of its dependencies are waiting and not
/// yet peeled off.
spec fn counts_open<K, P>(
    tasks: Map<K, TaskModel<K, P>>,
    waiting: Set<K>,
    peeled: Set<K>,
    degree: Map<K, usize>,
) -> bool {
    &&& degree.dom() == waiting
    &&& forall|v: K| #[trigger]
        waiting.contains(v) ==> degree[v] == tally(
            tasks[v].dependencies,
            waiting.difference(peeled),
        )
}

/// Whether `queue` holds, each once, the waiting tasks that can be peeled off next.
spec fn queues_free<K>(
    waiting: Set<K>,
    peeled: Set<K>,
    degree: Map<K, usize>,
    queue: Seq<K>,
) -> bool {
    &&& queue.no_duplicates()
    &&& forall|v: K| #[trigger]
        queue.contains(v) <==> waiting.contains(v) && !peeled.contains(v) && degree[v] == 0
}

/// Whether no peeled task belongs to a set of tasks that hold each other up.
spec fn peeled_are_free<K, P>(
    tasks: Map<K, TaskModel<K, P>>,
    waiting: Set<K>,
    peeled: Set<K>,
) -> bool {
    forall|keys: Set<K>, k: K| #[trigger]
        hold_each_other_up(tasks, waiting, keys) && #[trigger] peeled.contains(k)
            ==> !keys.contains(k)
}

/// Peels off one task: takes it out of the counts of its dependents and queues those that
/// become free.
fn peel<K: TaskKey, P>(
    u: K,
    dependents: &HashMap<K, Vec<K>>,
    degree: &mut HashMap<K, usize>,
    queue: &mut Vec<K>,
    Ghost(tasks): Ghost<Map<K, TaskModel<K, P>>>,
    Ghost(waiting): Ghost<Set<K>>,
    Ghost(peeled): Ghost<Set<K>>,
)
    requires
        is_linked(tasks, dependents@, waiting),
        forall|id: K| #[trigger] waiting.contains(id) ==> tasks.contains_key(id),
        counts_open(tasks, waiting, peeled, old(degree)@),
        waiting.contains(u),
        !peeled.contains(u),
        old(degree)@[u] == 0,
        queues_free(waiting, peeled.insert(u), old(degree)@, old(queue)@),
        forall|v: K| #[trigger] peeled.contains(v) && waiting.contains(v) ==> old(degree)@[v] == 0,
    ensures
        counts_open(tasks, waiting, peeled.insert(u), final(degree)@),
        queues_free(waiting, peeled.insert(u), final(degree)@, final(queue)@),
        forall|v: K| #[trigger]
            peeled.insert(u).contains(v) && waiting.contains(v) ==> final(degree)@[v] == 0,
{
    broadcast use vstd::std_specs::hash::group_hash_axioms;

    proof {
        K::lemma_hashable();
        assert forall|v: K| #[trigger] waiting.contains(v) implies tally(
            tasks[v].dependencies,
            waiting.difference(peeled),
        ) == tally(tasks[v].dependencies, waiting.difference(peeled.insert(u))) + occurrences(
            dependents_of(dependents@, u),
            v,
        ) by {
            lemma_tally_remove(tasks[v].dependencies, waiting.difference(peeled), u);
            assert(waiting.difference(peeled).remove(u) =~= waiting.difference(peeled.insert(u)));
        }
    }
    match dependents.get(&u) {
        None => {},
        Some(list) => {
            let mut j: usize = 0;
            assert(list@.take(0) =~= Seq::<K>::empty());
            while j < list.len()
                invariant
                    j <= list@.len(),
                    vstd::std_specs::hash::obeys_key_model::<K>(),
                    list@ == dependents_of(dependents@, u),
                    waiting.contains(u),
                    degree@.dom() == waiting,
                    forall|v: K| #[trigger]
                        waiting.contains(v) ==> degree@[v] + occurrences(list@.take(j as int), v)
                            == tally(tasks[v].dependencies, waiting.difference(peeled)),
                    forall|v: K| #[trigger]
                        waiting.contains(v) ==> tally(
                            tasks[v].dependencies,
                            waiting.difference(peeled),
                        ) == tally(
                            tasks[v].dependencies,
                            waiting.difference(peeled.insert(u)),
                        ) + occurrences(list@, v),
                    queues_free(waiting, peeled.insert(u), degree@, queue@),
                    forall|v: K| #[trigger]
                        peeled.insert(u).contains(v) && waiting.contains(v) ==> degree@[v] == 0,
                decreases list.len() - j,
            {
                let v = list[j];
                let ghost before = degree@;
                let ghost queued = queue@;
                proof {
                    assert(list@.take(j + 1) =~= list@.take(j as int).push(v));
                    assert forall|w: K| true implies #[trigger] occurrences(list@.take(j + 1), w)
                        == occurrences(list@.take(j as int), w) + if w == v {
                        1nat
                    } else {
                        0nat
                    } by {
                        lemma_tally_push(list@.take(j as int), v, Set::empty().insert(w));
                    }
                    lemma_tally_take(list@, j + 1, Set::empty().insert(v));
                    assert(occurrences(list@.take(j + 1), v) <= occurrences(list@, v));
                }
                if let Some(found) = degree.get(&v) {
                    let left: usize = *found - 1;
                    degree.insert(v, left);
                    assert(degree@.dom() =~= waiting);
                    assert(!queued.contains(v));
                    proof {
                        lemma_push_contains(queued, v);
                    }
                    if left == 0 {
                        queue.push(v);
                    }
                    assert forall|w: K| #[trigger]
                        queue@.contains(w) <==> waiting.contains(w) && !peeled.insert(u).contains(w)
                            && degree@[w] == 0 by {
                        assert(queued.contains(w) <==> waiting.contains(w) && !peeled.insert(
                            u,
                        ).contains(w) && before[w] == 0);
                    }
                }
                j = j + 1;
            }
            assert(list@.take(j as int) =~= list@);
        },
    }
}

/// The waiting tasks that hold each other up: those that are left when again and again a task
/// with no dependency among the remaining ones is peeled off.
fn held_up_tasks<K: TaskKey, N: TaskNode<K>>(
    nodes: &HashMap<K, N>,
    dependents: &HashMap<K, Vec<K>>,
    waiting: &HashSet<K>,
) -> (held: Vec<K>)
    requires
        forall|id: K| #[trigger] waiting@.contains(id) ==> nodes@.contains_key(id),
        is_linked(models(nodes@), dependents@, waiting@),
    ensures
        held@.no_duplicates(),
        is_largest_held_up(models(nodes@), waiting@, held@.to_set()),
{
    broadcast use vstd::std_specs::hash::group_hash_axioms;

    proof {
        K::lemma_hashable();
    }
    let ghost tasks = models(nodes@);
    let ids = members(waiting);
    let mut degree: HashMap<K, usize> = HashMap::new();
    let mut queue: Vec<K> = Vec::new();
    let mut n: usize = 0;
    while n < ids.len()
        invariant
            n <= ids@.len(),
            vstd::std_specs::hash::obeys_key_model::<K>(),
            ids@.no_duplicates(),
            forall|id: K| #[trigger] ids@.contains(id) <==> waiting@.contains(id),
            forall|id: K| #[trigger] waiting@.contains(id) ==> nodes@.contains_key(id),
            tasks == models(nodes@),
            forall|v: K| #[trigger] degree@.contains_key(v) <==> ids@.take(n as int).contains(v),
            forall|v: K| #[trigger]
                degree@.contains_key(v) ==> degree@[v] == tally(tasks[v].dependencies, waiting@),
            queue@.no_duplicates(),
            forall|v: K| #[trigger]
                queue@.contains(v) <==> degree@.contains_key(v) && degree@[v] == 0,
        decreases ids.len() - n,
    {
        let id = ids[n];
        assert(ids@.contains(id));
        proof {
            assert(ids@.take(n + 1) =~= ids@.take(n as int).push(id));
            assert(!ids@.take(n as int).contains(id));
            lemma_push_contains(ids@.take(n as int), id);
            lemma_push_contains(queue@, id);
        }
        if let Some(node) = nodes.get(&id) {
            let open: usize = count_waiting(node.dependencies(), waiting);
            assert(!queue@.contains(id));
            degree.insert(id, open);
            if open == 0 {
                queue.push(id);
            }
        }
        n = n + 1;
    }
    let ghost mut peeled = Set::<K>::empty();
    proof {
        assert(ids@.take(n as int) =~= ids@);
        assert(degree@.dom() =~= waiting@);
        assert(waiting@.difference(peeled) =~= waiting@);
        assert(waiting@.finite());
    }
    loop
        invariant
            vstd::std_specs::hash::obeys_key_model::<K>(),
            waiting@.finite(),
            peeled.subset_of(waiting@),
            is_linked(tasks, dependents@, waiting@),
            forall|id: K| #[trigger] waiting@.contains(id) ==> tasks.contains_key(id),
            counts_open(tasks, waiting@, peeled, degree@),
            queues_free(waiting@, peeled, degree@, queue@),
            forall|v: K| #[trigger] peeled.contains(v) && waiting@.contains(v) ==> degree@[v] == 0,
            peeled_are_free(tasks, waiting@, peeled),
        ensures
            queue@.len() == 0,
        decreases waiting@.difference(peeled).len(),
    {
        let ghost queued = queue@;
        let u = match queue.pop() {
            Some(u) => u,
            None => {
                break;
            },
        };
        proof {
            assert(queued[queued.len() - 1] == u);
            assert(queued.contains(u));
            assert(queued =~= queue@.push(u));
            lemma_push_contains(queue@, u);
            assert(!queue@.contains(u));
            assert forall|v: K| #[trigger]
                queue@.contains(v) <==> waiting@.contains(v) && !peeled.insert(u).contains(v)
                    && degree@[v] == 0 by {
                assert(queued.contains(v) <==> waiting@.contains(v) && !peeled.contains(v)
                    && degree@[v] == 0);
            }
            lemma_tally_positive(tasks[u].dependencies, waiting@.difference(peeled));
            assert forall|keys: Set<K>, k: K| #[trigger]
                hold_each_other_up(tasks, waiting@, keys) && #[trigger] peeled.insert(u).contains(
                    k,
                ) implies !keys.contains(k) by {
                if keys.contains(u) {
                    assert(depends_on_any(tasks[u], keys));
                    let deps = tasks[u].dependencies;
                    let i = choose|i: int| 0 <= i < deps.len() && keys.contains(#[trigger] deps[i]);
                    assert(waiting@.difference(peeled).contains(deps[i]));
                }
                if k != u {
                    assert(peeled.contains(k));
                }
            }
            assert(waiting@.difference(peeled).remove(u) =~= waiting@.difference(peeled.insert(u)));
        }
        peel::<K, N::Payload>(
            u,
            dependents,
            &mut degree,
            &mut queue,
            Ghost(tasks),
            Ghost(waiting@),
            Ghost(peeled),
        );
        proof {
            peeled = peeled.insert(u);
        }
    }
    let mut held: Vec<K> = Vec::new();
    n = 0;
    assert(ids@.take(0) =~= Seq::<K>::empty());
    while n < ids.len()
        invariant
            n <= ids@.len(),
            vstd::std_specs::hash::obeys_key_model::<K>(),
            ids@.no_duplicates(),
            degree@.dom() == waiting@,
            forall|id: K| #[trigger] ids@.contains(id) <==> waiting@.contains(id),
            held@.no_duplicates(),
            forall|v: K| #[trigger]
                held@.contains(v) <==> ids@.take(n as int).contains(v) && degree@[v] > 0,
        decreases ids.len() - n,
    {
        let id = ids[n];
        assert(ids@.contains(id));
        proof {
            assert(ids@.take(n + 1) =~= ids@.take(n as int).push(id));
            assert(!ids@.take(n as int).contains(id));
            lemma_push_contains(ids@.take(n as int), id);
            lemma_push_contains(held@, id);
        }
        if let Some(open) = degree.get(&id) {
            if *open > 0 {
                assert(!held@.contains(id));
                held.push(id);
            }
        }
        n = n + 1;
    }
    proof {
        let left = held@.to_set();
        assert(ids@.take(n as int) =~= ids@);
        assert forall|v: K| left.contains(v) <==> waiting@.difference(peeled).contains(v) by {
            assert(held@.contains(v) <==> waiting@.contains(v) && degree@[v] > 0);
            assert(!queue@.contains(v));
        }
        assert(left =~= waiting@.difference(peeled));
        assert forall|k: K| #[trigger] left.contains(k) implies depends_on_any(tasks[k], left) by {
            lemma_tally_positive(tasks[k].dependencies, left);
        }
        assert forall|other: Set<K>| #[trigger]
            hold_each_other_up(tasks, waiting@, other) implies other.subset_of(left) by {
            assert forall|k: K| other.contains(k) implies left.contains(k) by {
                if peeled.contains(k) {
                    assert(false);
                }
            }
        }
    }
    held
}

/// Says why the waiting tasks cannot run, given that nothing runs and nothing is ready.
///
/// Tasks that are unknown or miss a dependency are reported first, then tasks that depend on
/// each other in a cycle; what is left is a stall.
pub fn diagnose<K: TaskKey, N: TaskNode<K>>(
    nodes: &HashMap<K, N>,
    dependents: &HashMap<K, Vec<K>>,
    waiting: &HashSet<K>,
    completed: &HashSet<K>,
) -> (deadlock: Deadlock<K>)
    requires
        is_linked(models(nodes@), dependents@, waiting@),
    ensures
        explains(models(nodes@), waiting@, completed@, deadlock),
{
    let ghost tasks = models(nodes@);
    let missing = unsatisfiable_tasks(nodes, waiting, completed);
    if missing.len() > 0 {
        assert(waiting@.contains(missing@[0].0));
        return Deadlock::Missing(missing);
    }
    proof {
        assert forall|id: K| #[trigger] waiting@.contains(id) implies !is_unsatisfiable(
            tasks,
            waiting@,
            completed@,
            id,
        ) by {
            if is_unsatisfiable(tasks, waiting@, completed@, id) {
                let i = choose|i: int| 0 <= i < missing@.len() && (#[trigger] missing@[i]).0 == id;
                assert(false);
            }
        }
        assert forall|id: K| #[trigger] waiting@.contains(id) implies nodes@.contains_key(id) by {
            assert(!is_unsatisfiable(tasks, waiting@, completed@, id));
        }
    }
    let held = held_up_tasks(nodes, dependents, waiting);
    if held.len() > 0 {
        return Deadlock::Cycle(held);
    }
    assert(held@.to_set() =~= Set::<K>::empty());
    Deadlock::Stalled
}

/// One entry of the list of missing dependencies in a message.
pub open spec fn missing_entry<K: TaskKey>(entry: (K, Vec<K>)) -> Seq<char> {
    decimal(entry.0.rank()) + " -> missing "@ + bracketed(entry.1@)
}

/// The list of missing dependencies in a message.
pub open spec fn missing_entries<K: TaskKey>(list: Seq<(K, Vec<K>)>) -> Seq<char>
    decreases list.len(),
{
    if list.len() == 0 {
        Seq::empty()
    } else if list.len() == 1 {
        missing_entry(list[0])
    } else {
        missing_entries(list.drop_last()) + "; "@ + missing_entry(list.last())
    }
}

impl<K: TaskKey> Deadlock<K> {
    /// The message that reports the deadlock.
    pub open spec fn text(self) -> Seq<char> {
        match self {
            Deadlock::Missing(list) => "Deadlock: unsatisfied/missing dependencies: "@
                + missing_entries(list@),
            Deadlock::Cycle(ids) => "Deadlock: dependency cycle detected among tasks: "@
                + bracketed(ids@),
            Deadlock::Stalled =>
                "Deadlock: waiting exists but nothing ready/running. Re-queue waiting-ready before diagnosing."@,
        }
    }

    /// The message that reports the deadlock.
    pub fn message(&self) -> (message: String)
        ensures
            message@ == self.text(),
    {
        let mut message = String::new();
        match self {
            Deadlock::Missing(list) => {
                message.append("Deadlock: unsatisfied/missing dependencies: ");
                let ghost start = message@;
                let mut i: usize = 0;
                assert(message@ =~= start + missing_entries(list@.take(0)));
                while i < list.len()
                    invariant
                        i <= list@.len(),
                        message@ == start + missing_entries(list@.take(i as int)),
                    decreases list.len() - i,
                {
                    if i > 0 {
                        message.append("; ");
                    }
                    push_decimal(&mut message, list[i].0.number());
                    message.append(" -> missing ");
                    push_bracketed(&mut message, &list[i].1);
                    proof {
                        assert(list@.take(i + 1).drop_last() =~= list@.take(i as int));
                        assert(message@ =~= start + missing_entries(list@.take(i + 1)));
                    }
                    i = i + 1;
                }
                assert(list@.take(i as int) =~= list@);
            },
            Deadlock::Cycle(ids) => {
                message.append("Deadlock: dependency cycle detected among tasks: ");
                push_bracketed(&mut message, ids);
            },
            Deadlock::Stalled => {
                message.append(
                    "Deadlock: waiting exists but nothing ready/running. Re-queue waiting-ready before diagnosing.",
                );
            },
        }
        assert(message@ =~= self.text());
        message
    }
}

/// The task that follows position `i` of a closed path; the first one follows the last one.
pub open spec fn successor<K>(path: Seq<K>, i: int) -> K {
    if i + 1 < path.len() {
        path[i + 1]
    } else {
        path[0]
    }
}

/// Whether `path` is a dependency cycle among waiting tasks: each task on it depends on the next
/// one, and the last one on the first.
pub open spec fn is_cycle<K, P>(
    tasks: Map<K, TaskModel<K, P>>,
    waiting: Set<K>,
    path: Seq<K>,
) -> bool {
    &&& path.len() > 0
    &&& forall|i: int|
        0 <= i < path.len() ==> {
            &&& waiting.contains(#[trigger] path[i])
            &&& tasks[path[i]].dependencies.contains(successor(path, i))
        }
}

/// One of the members of `keys` on which a member depends.
spec fn next_held_up<K, P>(tasks: Map<K, TaskModel<K, P>>, keys: Set<K>, k: K) -> K {
    let deps = tasks[k].dependencies;
    deps[choose|i: int| 0 <= i < deps.len() && keys.contains(#[trigger] deps[i])]
}

/// A walk from `start` that follows dependencies inside `keys`.
spec fn walk<K, P>(tasks: Map<K, TaskModel<K, P>>, keys: Set<K>, start: K, steps: nat) -> K
    decreases steps,
{
    if steps == 0 {
        start
    } else {
        next_held_up(tasks, keys, walk(tasks, keys, start, (steps - 1) as nat))
    }
}

proof fn lemma_walk_stays<K, P>(
    tasks: Map<K, TaskModel<K, P>>,
    waiting: Set<K>,
    keys: Set<K>,
    start: K,
    steps: nat,
)
    requires
        hold_each_other_up(tasks, waiting, keys),
        keys.contains(start),
    ensures
        keys.contains(walk(tasks, keys, start, steps)),
        tasks[walk(tasks, keys, start, steps)].dependencies.contains(
            walk(tasks, keys, start, steps + 1),
        ),
    decreases steps,
{
    if steps > 0 {
        lemma_walk_stays(tasks, waiting, keys, start, (steps - 1) as nat);
        let last = walk(tasks, keys, start, (steps - 1) as nat);
        assert(depends_on_any(tasks[last], keys));
    }
    let here = walk(tasks, keys, start, steps);
    assert(depends_on_any(tasks[here], keys));
    assert(walk(tasks, keys, start, steps + 1) == next_held_up(tasks, keys, here));
}

/// A sequence that is longer than the set it draws from repeats a member.
proof fn lemma_repeats<K>(s: Seq<K>, keys: Set<K>)
    requires
        keys.finite(),
        s.len() > keys.len(),
        forall|i: int| 0 <= i < s.len() ==> keys.contains(#[trigger] s[i]),
    ensures
        !s.no_duplicates(),
{
    if s.no_duplicates() {
        s.unique_seq_to_set();
        assert(s.to_set().subset_of(keys));
        vstd::set_lib::lemma_len_subset(s.to_set(), keys);
    }
}

/// Tasks that hold each other up contain a dependency cycle.
pub proof fn law_held_up_tasks_contain_a_cycle<K, P>(
    tasks: Map<K, TaskModel<K, P>>,
    waiting: Set<K>,
    keys: Set<K>,
    start: K,
) -> (path: Seq<K>)
    requires
        hold_each_other_up(tasks, waiting, keys),
        keys.finite(),
        keys.contains(start),
    ensures
        is_cycle(tasks, waiting, path),
        path.to_set().subset_of(keys),
{
    let steps = Seq::new(keys.len() + 1, |i: int| walk(tasks, keys, start, i as nat));
    assert forall|i: int| 0 <= i < steps.len() implies keys.contains(#[trigger] steps[i]) by {
        lemma_walk_stays(tasks, waiting, keys, start, i as nat);
    }
    lemma_repeats(steps, keys);
    let (a, b) = choose|a: int, b: int|
        0 <= a < steps.len() && 0 <= b < steps.len() && a != b && steps[a] == steps[b];
    let (i, j) = if a < b {
        (a, b)
    } else {
        (b, a)
    };
    let path = steps.subrange(i, j);
    assert forall|n: int| 0 <= n < path.len() implies {
        &&& waiting.contains(#[trigger] path[n])
        &&& tasks[path[n]].dependencies.contains(successor(path, n))
    } by {
        lemma_walk_stays(tasks, waiting, keys, start, (i + n) as nat);
        assert(path[n] == steps[i + n]);
        assert(successor(path, n) == steps[i + n + 1]);
    }
    path
}

/// The tasks on a dependency cycle hold each other up.
pub proof fn law_cycle_is_held_up<K, P>(
    tasks: Map<K, TaskModel<K, P>>,
    waiting: Set<K>,
    path: Seq<K>,
)
    requires
        is_cycle(tasks, waiting, path),
    ensures
        hold_each_other_up(tasks, waiting, path.to_set()),
{
    let keys = path.to_set();
    assert forall|k: K| #[trigger] keys.contains(k) implies depends_on_any(tasks[k], keys) by {
        let i = choose|i: int| 0 <= i < path.len() && path[i] == k;
        let next = successor(path, i);
        let deps = tasks[k].dependencies;
        assert(keys.contains(next));
        let d = choose|d: int| 0 <= d < deps.len() && deps[d] == next;
        assert(keys.contains(deps[d]));
    }
}

/// Where no dependency is missing, a cycle is reported exactly where the waiting tasks contain a
/// dependency cycle, and each task on such a cycle is listed.
pub proof fn law_reported_cycle_exists<K, P>(
    tasks: Map<K, TaskModel<K, P>>,
    waiting: Set<K>,
    completed: Set<K>,
    deadlock: Deadlock<K>,
)
    requires
        explains(tasks, waiting, completed, deadlock),
        all_satisfiable(tasks, waiting, completed),
    ensures
        deadlock is Cycle <==> exists|path: Seq<K>| is_cycle(tasks, waiting, path),
        deadlock matches Deadlock::Cycle(ids) ==> forall|path: Seq<K>, i: int|
            is_cycle(tasks, waiting, path) && 0 <= i < path.len() ==> ids@.contains(
                #[trigger] path[i],
            ),
{
    match deadlock {
        Deadlock::Missing(list) => {},
        Deadlock::Cycle(ids) => {
            vstd::seq_lib::seq_to_set_is_finite(ids@);
            assert(ids@.to_set().contains(ids@[0]));
            let path = law_held_up_tasks_contain_a_cycle(tasks, waiting, ids@.to_set(), ids@[0]);
            assert(is_cycle(tasks, waiting, path));
            assert forall|path: Seq<K>, i: int|
                is_cycle(tasks, waiting, path) && 0 <= i < path.len() implies ids@.contains(
                #[trigger] path[i],
            ) by {
                law_cycle_is_held_up(tasks, waiting, path);
                assert(path.to_set().contains(path[i]));
                assert(ids@.to_set().contains(path[i]));
            }
        },
        Deadlock::Stalled => {
            assert forall|path: Seq<K>| !is_cycle(tasks, waiting, path) by {
                if is_cycle(tasks, waiting, path) {
                    law_cycle_is_held_up(tasks, waiting, path);
                    assert(path.to_set().contains(path[0]));
                    assert(Set::<K>::empty().contains(path[0]));
                }
            }
        },
    }
}

/// The reason is determined by the state: two explanations are of the same kind and list the
/// same tasks.
pub proof fn law_reason_is_determined<K, P>(
    tasks: Map<K, TaskModel<K, P>>,
    waiting: Set<K>,
    completed: Set<K>,
    a: Deadlock<K>,
    b: Deadlock<K>,
)
    requires
        explains(tasks, waiting, completed, a),
        explains(tasks, waiting, completed, b),
    ensures
        match (a, b) {
            (Deadlock::Missing(p), Deadlock::Missing(q)) => forall|i: int|
                0 <= i < p@.len() ==> exists|j: int|
                    0 <= j < q@.len() && (#[trigger] q@[j]).0 == (#[trigger] p@[i]).0 && q@[j].1@
                        == p@[i].1@,
            (Deadlock::Cycle(p), Deadlock::Cycle(q)) => p@.to_set() == q@.to_set() && p@.len()
                == q@.len(),
            (Deadlock::Stalled, Deadlock::Stalled) => true,
            _ => false,
        },
{
    match (a, b) {
        (Deadlock::Missing(p), Deadlock::Missing(q)) => {
            assert forall|i: int| 0 <= i < p@.len() implies exists|j: int|
                0 <= j < q@.len() && (#[trigger] q@[j]).0 == (#[trigger] p@[i]).0 && q@[j].1@
                    == p@[i].1@ by {
                let id = p@[i].0;
                assert(waiting.contains(id) && is_unsatisfiable(tasks, waiting, completed, id));
                let j = choose|j: int| 0 <= j < q@.len() && (#[trigger] q@[j]).0 == id;
                assert(q@[j].1@ == p@[i].1@);
            }
        },
        (Deadlock::Cycle(p), Deadlock::Cycle(q)) => {
            assert(p@.to_set() =~= q@.to_set());
            p@.unique_seq_to_set();
            q@.unique_seq_to_set();
        },
        (Deadlock::Cycle(p), Deadlock::Stalled) => {
            assert(p@.to_set().contains(p@[0]));
            assert(Set::<K>::empty().contains(p@[0]));
        },
        (Deadlock::Stalled, Deadlock::Cycle(q)) => {
            assert(q@.to_set().contains(q@[0]));
            assert(Set::<K>::empty().contains(q@[0]));
        },
        _ => {},
    }
}

/// A reported missing dependency is one that a waiting task names and that is neither completed nor
/// waiting. Each such dependency of each waiting task is reported, in the order in which the task
/// names them. A waiting task that is not known is reported without dependencies.
pub proof fn law_missing_dependencies_are_reported<K, P>(
    tasks: Map<K, TaskModel<K, P>>,
    waiting: Set<K>,
    completed: Set<K>,
    list: Vec<(K, Vec<K>)>,
    id: K,
)
    requires
        explains(tasks, waiting, completed, Deadlock::Missing(list)),
    ensures
        list@.len() > 0,
        forall|i: int|
            #![trigger list@[i]]
            0 <= i < list@.len() && tasks.contains_key(list@[i].0) ==> {
                &&& list@[i].1@.len() > 0
                &&& list@[i].1@ == tasks[list@[i].0].dependencies.filter(
                    |d: K| !completed.contains(d) && !waiting.contains(d),
                )
            },
        forall|i: int|
            #![trigger list@[i]]
            0 <= i < list@.len() && !tasks.contains_key(list@[i].0) ==> list@[i].1@ == Seq::<
                K,
            >::empty(),
        forall|i: int| 0 <= i < list@.len() ==> waiting.contains((#[trigger] list@[i]).0),
        forall|i: int, j: int|
            0 <= i < j < list@.len() ==> (#[trigger] list@[i]).0 != (#[trigger] list@[j]).0,
        waiting.contains(id) && (!tasks.contains_key(id) || exists|i: int|
            0 <= i < tasks[id].dependencies.len() && !completed.contains(
                #[trigger] tasks[id].dependencies[i],
            ) && !waiting.contains(tasks[id].dependencies[i])) ==> exists|i: int|
            0 <= i < list@.len() && (#[trigger] list@[i]).0 == id,
{
    let pred = |d: K| !completed.contains(d) && !waiting.contains(d);
    assert(list@.len() > 0) by {
        let witness = choose|k: K| #[trigger]
            waiting.contains(k) && is_unsatisfiable(tasks, waiting, completed, k);
        assert(waiting.contains(witness) && is_unsatisfiable(tasks, waiting, completed, witness));
    }
    if waiting.contains(id) && tasks.contains_key(id) && exists|i: int|
        0 <= i < tasks[id].dependencies.len() && !completed.contains(
            #[trigger] tasks[id].dependencies[i],
        ) && !waiting.contains(tasks[id].dependencies[i]) {
        let deps = tasks[id].dependencies;
        let i = choose|i: int|
            0 <= i < deps.len() && !completed.contains(#[trigger] deps[i]) && !waiting.contains(
                deps[i],
            );
        deps.lemma_filter_contains(pred, i);
        assert(missing_for(tasks, waiting, completed, id).len() > 0);
        assert(is_unsatisfiable(tasks, waiting, completed, id));
    }
}

/// A cycle or a stall is reported only where every waiting task is known and depends on completed
/// and waiting tasks alone.
pub proof fn law_nothing_is_missing_otherwise<K, P>(
    tasks: Map<K, TaskModel<K, P>>,
    waiting: Set<K>,
    completed: Set<K>,
    deadlock: Deadlock<K>,
    id: K,
    i: int,
)
    requires
        explains(tasks, waiting, completed, deadlock),
        !(deadlock is Missing),
        waiting.contains(id),
    ensures
        tasks.contains_key(id),
        0 <= i < tasks[id].dependencies.len() ==> completed.contains(tasks[id].dependencies[i])
            || waiting.contains(tasks[id].dependencies[i]),
{
    assert(!is_unsatisfiable(tasks, waiting, completed, id));
    let deps = tasks[id].dependencies;
    let pred = |d: K| !completed.contains(d) && !waiting.contains(d);
    if 0 <= i < deps.len() && !completed.contains(deps[i]) && !waiting.contains(deps[i]) {
        deps.lemma_filter_contains(pred, i);
    }
}

/// The tasks that are reported as a cycle wait, and each of them depends on one of them.
pub proof fn law_reported_tasks_hold_each_other_up<K, P>(
    tasks: Map<K, TaskModel<K, P>>,
    waiting: Set<K>,
    completed: Set<K>,
    ids: Vec<K>,
    n: int,
)
    requires
        explains(tasks, waiting, completed, Deadlock::Cycle(ids)),
        0 <= n < ids@.len(),
    ensures
        waiting.contains(ids@[n]),
        exists|m: int|
            0 <= m < ids@.len() && tasks[ids@[n]].dependencies.contains(#[trigger] ids@[m]),
        forall|m: int| 0 <= m < ids@.len() && m != n ==> #[trigger] ids@[m] != ids@[n],
{
    let id = ids@[n];
    assert(ids@.to_set().contains(id));
    assert(depends_on_any(tasks[id], ids@.to_set()));
    let deps = tasks[id].dependencies;
    let i = choose|i: int| 0 <= i < deps.len() && ids@.to_set().contains(#[trigger] deps[i]);
    assert(ids@.contains(deps[i]));
    let m = ids@.index_of(deps[i]);
    assert(ids@[m] == deps[i]);
    assert(deps.contains(ids@[m]));
}

/// Waiting tasks of which each depends on another one of them, or on itself, are all reported, and
/// nothing but a missing dependency is reported before them.
pub proof fn law_held_up_tasks_are_reported<K, P>(
    tasks: Map<K, TaskModel<K, P>>,
    waiting: Set<K>,
    completed: Set<K>,
    deadlock: Deadlock<K>,
    keys: Set<K>,
    next: spec_fn(K) -> K,
    id: K,
)
    requires
        explains(tasks, waiting, completed, deadlock),
        !(deadlock is Missing),
        keys.contains(id),
        forall|k: K|
            #![trigger next(k)]
            keys.contains(k) ==> {
                &&& waiting.contains(k)
                &&& keys.contains(next(k))
                &&& tasks[k].dependencies.contains(next(k))
            },
    ensures
        deadlock matches Deadlock::Cycle(ids) && ids@.contains(id),
{
    assert(hold_each_other_up(tasks, waiting, keys)) by {
        assert forall|k: K| keys.contains(k) implies waiting.contains(k) by {
            let to = next(k);
        }
        assert forall|k: K| #[trigger] keys.contains(k) implies depends_on_any(tasks[k], keys) by {
            let to = next(k);
            let i = tasks[k].dependencies.index_of(to);
            assert(keys.contains(tasks[k].dependencies[i]));
        }
    }
    match deadlock {
        Deadlock::Cycle(ids) => {
            assert(ids@.to_set().contains(id));
        },
        Deadlock::Stalled => {
            assert(Set::<K>::empty().contains(id));
        },
        _ => {},
    }
}

/// What the messages say: the tasks with what they miss, one after another, the tasks that hold
/// each other up, or that none was queued.
pub proof fn law_deadlocks_are_told_apart<K: TaskKey>(
    list: Vec<(K, Vec<K>)>,
    ids: Vec<K>,
    entries: Seq<(K, Vec<K>)>,
    entry: (K, Vec<K>),
)
    ensures
        Deadlock::Missing(list).text() == "Deadlock: unsatisfied/missing dependencies: "@
            + missing_entries(list@),
        missing_entries(seq![entry]) == decimal(entry.0.rank()) + " -> missing "@ + bracketed(
            entry.1@,
        ),
        entries.len() > 0 ==> missing_entries(entries.push(entry)) == missing_entries(entries)
            + "; "@ + missing_entries(seq![entry]),
        Deadlock::Cycle(ids).text() == "Deadlock: dependency cycle detected among tasks: "@
            + bracketed(ids@),
        Deadlock::<K>::Stalled.text()
            == "Deadlock: waiting exists but nothing ready/running. Re-queue waiting-ready before diagnosing."@,
{
    assert(entries.push(entry).drop_last() =~= entries);
}

} // verus!
