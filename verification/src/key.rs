//! Identifiers under which tasks are filed.

use vstd::prelude::*;
use vstd::std_specs::hash::obeys_key_model;

verus! {

/// An integer that identifies a task.
///
/// The number of a key decides between tasks of the same priority and is what messages print.
pub trait TaskKey: Copy + Eq + std::hash::Hash {
    /// The number that the key stands for.
    spec fn rank(self) -> nat;

    /// Hash tables treat the key as a value.
    proof fn lemma_hashable()
        ensures
            obeys_key_model::<Self>(),
    ;

    /// No two keys share a number.
    proof fn lemma_rank_injective(self, other: Self)
        requires
            self.rank() == other.rank(),
        ensures
            self == other,
    ;

    /// The number that the key stands for.
    fn number(&self) -> (n: u64)
        ensures
            n == self.rank(),
    ;
}

impl TaskKey for usize {
    open spec fn rank(self) -> nat {
        self as nat
    }

    proof fn lemma_hashable() {
        broadcast use vstd::std_specs::hash::group_hash_axioms;

    }

    proof fn lemma_rank_injective(self, other: Self) {
    }

    fn number(&self) -> (n: u64) {
        *self as u64
    }
}

impl TaskKey for u64 {
    open spec fn rank(self) -> nat {
        self as nat
    }

    proof fn lemma_hashable() {
        broadcast use vstd::std_specs::hash::group_hash_axioms;

    }

    proof fn lemma_rank_injective(self, other: Self) {
    }

    fn number(&self) -> (n: u64) {
        *self
    }
}

/// The number of a key is the key itself, as an integer, so that keys are ordered as integers are.
pub proof fn law_keys_are_their_numbers(a: usize, b: usize, c: u64, d: u64)
    ensures
        a.rank() == a as int,
        c.rank() == c as int,
        a.rank() < b.rank() <==> a < b,
        c.rank() < d.rank() <==> c < d,
{
}

} // verus!
