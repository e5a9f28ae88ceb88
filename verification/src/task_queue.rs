//! The queue of tasks that are ready to run: a binary max-heap.

use vstd::multiset::Multiset;
use vstd::prelude::*;
use vstd::seq_lib::group_to_multiset_ensures;

use crate::heap_node::{law_outranks_is_total_order, HeapNode};
use crate::key::TaskKey;

verus! {

/// A priority queue: the entry that outranks all others leaves first.
///
/// The entries lie in a vector in heap order, so that the parent of position `i` is at
/// `(i - 1) / 2` and no entry outranks its parent.
pub struct TaskQueue<K> {
    heap: Vec<HeapNode<K>>,
}

/// The position of the parent of position `i`.
pub open spec fn parent(i: int) -> int {
    (i - 1) / 2
}

/// Whether the entry at position `i` respects heap order towards its parent.
pub open spec fn below_parent<K: TaskKey>(s: Seq<HeapNode<K>>, i: int) -> bool {
    !s[i].outranks(s[parent(i)])
}

impl<K: TaskKey> View for TaskQueue<K> {
    type V = Multiset<HeapNode<K>>;

    /// The entries that the queue holds.
    closed spec fn view(&self) -> Multiset<HeapNode<K>> {
        self.heap@.to_multiset()
    }
}

impl<K: TaskKey> TaskQueue<K> {
    /// The entries are in heap order.
    pub closed spec fn wf(&self) -> bool {
        forall|i: int| 1 <= i < self.heap@.len() ==> #[trigger] below_parent(self.heap@, i)
    }

    /// An empty queue.
    pub fn new() -> (queue: Self)
        ensures
            queue.wf(),
            queue@ == Multiset::<HeapNode<K>>::empty(),
    {
        broadcast use group_to_multiset_ensures;
        broadcast use vstd::multiset::group_multiset_axioms;

        let queue = TaskQueue { heap: Vec::new() };
        assert(queue@.len() == 0);
        assert(queue@ =~= Multiset::<HeapNode<K>>::empty());
        queue
    }

    /// The number of entries.
    pub fn len(&self) -> (n: usize)
        ensures
            n == self@.len(),
    {
        broadcast use group_to_multiset_ensures;

        self.heap.len()
    }

    /// Whether the queue holds no entry.
    pub fn is_empty(&self) -> (empty: bool)
        ensures
            empty == (self@.len() == 0),
            empty == (self@ == Multiset::<HeapNode<K>>::empty()),
    {
        broadcast use group_to_multiset_ensures;
        broadcast use vstd::multiset::group_multiset_axioms;

        proof {
            if self@.len() == 0 {
                assert forall|n: HeapNode<K>| self@.count(n) == 0 by {
                    assert(!self.heap@.contains(n));
                }
                assert(self@ =~= Multiset::<HeapNode<K>>::empty());
            }
        }
        self.heap.len() == 0
    }

    /// Adds an entry.
    pub fn push(&mut self, node: HeapNode<K>)
        requires
            old(self).wf(),
        ensures
            final(self).wf(),
            final(self)@ == old(self)@.insert(node),
    {
        broadcast use group_to_multiset_ensures;

        let mut i: usize = self.heap.len();
        self.heap.push(node);
        assert forall|j: int| 1 <= j < self.heap@.len() && j != i implies #[trigger] below_parent(
            self.heap@,
            j,
        ) by {
            assert(below_parent(old(self).heap@, j));
        }
        while i > 0
            invariant
                i < self.heap@.len(),
                self.heap@.to_multiset() == old(self).heap@.to_multiset().insert(node),
                forall|j: int|
                    1 <= j < self.heap@.len() && j != i ==> #[trigger] below_parent(self.heap@, j),
                forall|j: int|
                    1 <= j < self.heap@.len() && i > 0 && parent(j) == i ==> !(
                    #[trigger] self.heap@[j]).outranks(self.heap@[parent(i as int)]),
            ensures
                forall|j: int| 1 <= j < self.heap@.len() ==> #[trigger] below_parent(self.heap@, j),
            decreases i,
        {
            let p: usize = (i - 1) / 2;
            let child = self.heap[i];
            let above = self.heap[p];
            if !(child > above) {
                break;
            }
            let ghost before = self.heap@;
            self.heap.set(i, above);
            self.heap.set(p, child);
            proof {
                lemma_swap(before, i as int, p as int);
                assert forall|j: int| 1 <= j < self.heap@.len() && j != p implies
                    #[trigger] below_parent(self.heap@, j) by {
                    if j != i {
                        assert(below_parent(before, j));
                    }
                }
                assert forall|j: int| 1 <= j < self.heap@.len() && p > 0 && parent(j) == p implies !(
                #[trigger] self.heap@[j]).outranks(self.heap@[parent(p as int)]) by {
                    assert(below_parent(before, p as int));
                    if j != i {
                        assert(below_parent(before, j));
                    }
                }
            }
            i = p;
        }
    }

    /// Takes out the entry that outranks all others.
    pub fn pop(&mut self) -> (top: Option<HeapNode<K>>)
        requires
            old(self).wf(),
        ensures
            final(self).wf(),
            match top {
                None => {
                    &&& old(self)@ == Multiset::<HeapNode<K>>::empty()
                    &&& final(self)@ == old(self)@
                },
                Some(node) => {
                    &&& old(self)@.contains(node)
                    &&& final(self)@ == old(self)@.remove(node)
                    &&& forall|other: HeapNode<K>| #[trigger]
                        old(self)@.contains(other) ==> other == node || node.outranks(other)
                },
            },
    {
        broadcast use group_to_multiset_ensures;

        if self.is_empty() {
            return None;
        }
        let ghost before = self.heap@;
        let top = self.heap.swap_remove(0);
        proof {
            lemma_swap_remove(before);
            assert forall|other: HeapNode<K>| #[trigger] old(self)@.contains(other) implies other
                == top || top.outranks(other) by {
                assert(before.contains(other));
                let i = choose|i: int| 0 <= i < before.len() && before[i] == other;
                lemma_first_is_highest(before, i);
                law_outranks_is_total_order(top, other, other);
            }
            assert(before.contains(before[0]));
            assert forall|j: int|
                1 <= j < self.heap@.len() && parent(j) != 0 implies #[trigger] below_parent(
                self.heap@,
                j,
            ) by {
                assert(below_parent(before, j));
            }
        }
        self.sift_down();
        Some(top)
    }

    /// Restores heap order when only the first entry may stand above entries that outrank it.
    fn sift_down(&mut self)
        requires
            forall|j: int|
                1 <= j < old(self).heap@.len() && parent(j) != 0 ==> #[trigger] below_parent(
                    old(self).heap@,
                    j,
                ),
        ensures
            final(self).wf(),
            final(self)@ == old(self)@,
    {
        broadcast use group_to_multiset_ensures;

        let len: usize = self.heap.len();
        let mut i: usize = 0;
        loop
            invariant_except_break
                len > 0 ==> i < len,
            invariant
                len == self.heap@.len(),
                self.heap@.to_multiset() == old(self).heap@.to_multiset(),
                forall|j: int|
                    1 <= j < len && parent(j) != i ==> #[trigger] below_parent(self.heap@, j),
                forall|j: int|
                    1 <= j < len && i > 0 && parent(j) == i ==> !(
                    #[trigger] self.heap@[j]).outranks(self.heap@[parent(i as int)]),
            ensures
                forall|j: int| 1 <= j < len ==> #[trigger] below_parent(self.heap@, j),
            decreases len - i,
        {
            if len < 2 || i > (len - 2) / 2 {
                break;
            }
            let left: usize = 2 * i + 1;
            let mut child: usize = left;
            if left + 1 < len && self.heap[left + 1] > self.heap[left] {
                child = left + 1;
            }
            let below = self.heap[child];
            let here = self.heap[i];
            if !(below > here) {
                break;
            }
            let ghost before = self.heap@;
            self.heap.set(child, here);
            self.heap.set(i, below);
            proof {
                lemma_swap(before, child as int, i as int);
                assert forall|j: int| 1 <= j < len && parent(j) != child implies
                    #[trigger] below_parent(self.heap@, j) by {
                    if parent(j) == i {
                        assert(j == left || j == left + 1);
                    } else if j == i {
                        assert(!before[child as int].outranks(before[parent(i as int)]));
                    } else {
                        assert(below_parent(before, j));
                    }
                }
                assert forall|j: int| 1 <= j < len && child > 0 && parent(j) == child implies !(
                #[trigger] self.heap@[j]).outranks(self.heap@[parent(child as int)]) by {
                    assert(below_parent(before, j));
                }
            }
            i = child;
        }
    }
}

/// Exchanging two entries leaves the collection of entries as it is.
proof fn lemma_swap<T>(s: Seq<T>, i: int, j: int)
    requires
        0 <= i < s.len(),
        0 <= j < s.len(),
    ensures
        s.update(i, s[j]).update(j, s[i]).to_multiset() == s.to_multiset(),
{
    broadcast use group_to_multiset_ensures;
    broadcast use vstd::multiset::group_multiset_axioms;

    vstd::seq_lib::to_multiset_update(s, i, s[j]);
    vstd::seq_lib::to_multiset_update(s.update(i, s[j]), j, s[i]);
    assert(s.contains(s[i]));
    assert(s.contains(s[j]));
    assert(s.update(i, s[j]).update(j, s[i]).to_multiset() =~= s.to_multiset());
}

/// Moving the last entry to the front drops the first entry from the collection.
proof fn lemma_swap_remove<T>(s: Seq<T>)
    requires
        s.len() > 0,
    ensures
        s.update(0, s.last()).drop_last().to_multiset() == s.to_multiset().remove(s[0]),
{
    broadcast use group_to_multiset_ensures;
    broadcast use vstd::multiset::group_multiset_axioms;

    let moved = s.update(0, s.last());
    vstd::seq_lib::to_multiset_update(s, 0, s.last());
    vstd::seq_lib::to_multiset_remove(moved, moved.len() - 1);
    assert(moved.drop_last() =~= moved.remove(moved.len() - 1));
    assert(s.contains(s[0]));
    assert(moved.drop_last().to_multiset() =~= s.to_multiset().remove(s[0]));
}

/// In heap order no entry outranks the first one.
proof fn lemma_first_is_highest<K: TaskKey>(s: Seq<HeapNode<K>>, i: int)
    requires
        forall|j: int| 1 <= j < s.len() ==> #[trigger] below_parent(s, j),
        0 <= i < s.len(),
    ensures
        !s[i].outranks(s[0]),
    decreases i,
{
    if i > 0 {
        assert(below_parent(s, i));
        lemma_first_is_highest(s, parent(i));
    }
}

} // verus!
