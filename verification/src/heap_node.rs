//! Entries of the ready queue and the order in which they leave it.

use std::cmp::Ordering;
use vstd::prelude::*;
use vstd::std_specs::cmp::PartialOrdSpec;

use crate::key::TaskKey;

verus! {

/// A task that is ready to run: its priority and its identifier.
#[derive(Debug, Clone, Copy, PartialEq, Eq)]
pub struct HeapNode<K> {
    pub priority: i32,
    pub index: K,
}

impl<K: TaskKey> HeapNode<K> {
    /// Whether this entry leaves the queue before `other`: the higher priority goes first, and
    /// of two equal priorities the smaller index.
    pub open spec fn outranks(self, other: Self) -> bool {
        ||| self.priority > other.priority
        ||| self.priority == other.priority && self.index.rank() < other.index.rank()
    }

    /// The order of the entries: the greater one leaves the queue first.
    pub open spec fn order(self, other: Self) -> Ordering {
        if self.outranks(other) {
            Ordering::Greater
        } else if other.outranks(self) {
            Ordering::Less
        } else {
            Ordering::Equal
        }
    }

    /// Compares two entries; the greater one leaves the queue first.
    pub fn cmp(&self, other: &Self) -> (o: Ordering)
        ensures
            o == self.order(*other),
            self.priority > other.priority ==> o is Greater,
            self.priority < other.priority ==> o is Less,
            self.priority == other.priority && self.index.rank() < other.index.rank() ==> o
                is Greater,
            self.priority == other.priority && self.index.rank() > other.index.rank() ==> o is Less,
            self.priority == other.priority && self.index.rank() == other.index.rank() ==> o
                is Equal,
    {
        if self.priority > other.priority {
            Ordering::Greater
        } else if self.priority < other.priority {
            Ordering::Less
        } else {
            let mine: u64 = self.index.number();
            let theirs: u64 = other.index.number();
            if mine < theirs {
                Ordering::Greater
            } else if mine > theirs {
                Ordering::Less
            } else {
                Ordering::Equal
            }
        }
    }
}

impl HeapNode<usize> {
    /// An entry for the task with the given priority and index.
    pub fn new(priority: i32, index: usize) -> (node: Self)
        ensures
            node.priority == priority,
            node.index == index,
    {
        HeapNode { priority, index }
    }
}

impl<K: TaskKey> PartialOrd for HeapNode<K> {
    fn partial_cmp(&self, other: &Self) -> (o: Option<Ordering>) {
        Some(self.cmp(other))
    }
}

impl<K: TaskKey> vstd::std_specs::cmp::PartialOrdSpecImpl for HeapNode<K> {
    open spec fn obeys_partial_cmp_spec() -> bool {
        true
    }

    open spec fn partial_cmp_spec(&self, other: &Self) -> Option<Ordering> {
        Some(self.order(*other))
    }
}

/// The order is total: of two different entries exactly one outranks the other, and outranking
/// is transitive.
pub proof fn law_outranks_is_total_order<K: TaskKey>(a: HeapNode<K>, b: HeapNode<K>, c: HeapNode<K>)
    ensures
        !a.outranks(a),
        a.outranks(b) ==> !b.outranks(a),
        a != b ==> a.outranks(b) || b.outranks(a),
        a.outranks(b) && b.outranks(c) ==> a.outranks(c),
{
    if a.index.rank() == b.index.rank() {
        a.index.lemma_rank_injective(b.index);
    }
}

/// A higher priority goes first, whatever the priorities and the keys are: the entry outranks the
/// other one and compares as the greater one.
pub proof fn law_higher_priority_goes_first<K: TaskKey>(a: HeapNode<K>, b: HeapNode<K>)
    requires
        a.priority > b.priority,
    ensures
        a.outranks(b),
        !b.outranks(a),
        a.order(b) is Greater,
        b.order(a) is Less,
{
}

/// Of two entries with the same priority the one with the smaller number goes first.
pub proof fn law_smaller_number_breaks_ties<K: TaskKey>(a: HeapNode<K>, b: HeapNode<K>)
    requires
        a.priority == b.priority,
    ensures
        a.outranks(b) <==> a.index.rank() < b.index.rank(),
        a.order(b) is Greater <==> a.index.rank() < b.index.rank(),
        a.order(b) is Less <==> a.index.rank() > b.index.rank(),
        a.order(b) is Equal <==> a == b,
{
    if a.index.rank() == b.index.rank() {
        a.index.lemma_rank_injective(b.index);
    }
}

/// An entry that goes before another one has no lower priority, and one that goes before it with
/// the same priority has the smaller number. Among entries of a graph the numbers are the keys.
pub proof fn law_first_has_the_highest_priority(a: HeapNode<usize>, b: HeapNode<usize>)
    ensures
        a.outranks(b) <==> a.priority > b.priority || (a.priority == b.priority && a.index
            < b.index),
        a.order(b) is Greater <==> a.outranks(b),
        a.order(b) is Less <==> b.outranks(a),
{
}

/// The comparison operators go by the same order.
pub proof fn law_operators_agree_with_the_order<K: TaskKey>(a: HeapNode<K>, b: HeapNode<K>)
    ensures
        HeapNode::<K>::obeys_partial_cmp_spec(),
        a.partial_cmp_spec(&b) == Some(a.order(b)),
        a.priority > b.priority ==> a.partial_cmp_spec(&b) == Some(Ordering::Greater),
        a.priority < b.priority ==> a.partial_cmp_spec(&b) == Some(Ordering::Less),
{
}

} // verus!
