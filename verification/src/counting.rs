//! How often keys occur in a sequence.

use std::collections::HashSet;
use vstd::prelude::*;

use crate::key::TaskKey;

verus! {

/// The number of positions of `s` that hold a member of `keys`.
pub open spec fn tally<K>(s: Seq<K>, keys: Set<K>) -> nat
    decreases s.len(),
{
    if s.len() == 0 {
        0
    } else {
        tally(s.drop_last(), keys) + if keys.contains(s.last()) {
            1nat
        } else {
            0nat
        }
    }
}

/// The number of positions of `s` that hold `key`.
pub open spec fn occurrences<K>(s: Seq<K>, key: K) -> nat {
    tally(s, Set::empty().insert(key))
}

pub proof fn lemma_tally_push<K>(s: Seq<K>, key: K, keys: Set<K>)
    ensures
        tally(s.push(key), keys) == tally(s, keys) + if keys.contains(key) {
            1nat
        } else {
            0nat
        },
{
    assert(s.push(key).drop_last() =~= s);
}

/// A tally is positive exactly where some position holds a member.
pub proof fn lemma_tally_positive<K>(s: Seq<K>, keys: Set<K>)
    ensures
        tally(s, keys) > 0 <==> exists|i: int| 0 <= i < s.len() && keys.contains(#[trigger] s[i]),
        tally(s, keys) <= s.len(),
    decreases s.len(),
{
    if s.len() > 0 {
        let rest = s.drop_last();
        lemma_tally_positive(rest, keys);
        if tally(rest, keys) > 0 {
            let i = choose|i: int| 0 <= i < rest.len() && keys.contains(#[trigger] rest[i]);
            assert(keys.contains(s[i]));
        }
        if exists|i: int| 0 <= i < s.len() && keys.contains(#[trigger] s[i]) {
            let i = choose|i: int| 0 <= i < s.len() && keys.contains(#[trigger] s[i]);
            if i < rest.len() {
                assert(keys.contains(rest[i]));
            }
        }
    }
}

/// Taking a key out of the counted set takes its occurrences out of the tally.
pub proof fn lemma_tally_remove<K>(s: Seq<K>, keys: Set<K>, key: K)
    requires
        keys.contains(key),
    ensures
        tally(s, keys) == tally(s, keys.remove(key)) + occurrences(s, key),
    decreases s.len(),
{
    if s.len() > 0 {
        lemma_tally_remove(s.drop_last(), keys, key);
    }
}

/// A prefix holds no more members than the whole sequence.
pub proof fn lemma_tally_take<K>(s: Seq<K>, n: int, keys: Set<K>)
    requires
        0 <= n <= s.len(),
    ensures
        tally(s.take(n), keys) <= tally(s, keys),
    decreases s.len(),
{
    if n == s.len() {
        assert(s.take(n) =~= s);
    } else {
        lemma_tally_take(s.drop_last(), n, keys);
        assert(s.drop_last().take(n) =~= s.take(n));
    }
}

/// A key occurs in a sequence exactly where its number of occurrences is positive.
pub proof fn lemma_occurs<K>(s: Seq<K>, key: K)
    ensures
        occurrences(s, key) > 0 <==> s.contains(key),
{
    let keys = Set::empty().insert(key);
    lemma_tally_positive(s, keys);
    if s.contains(key) {
        let i = choose|i: int| 0 <= i < s.len() && s[i] == key;
        assert(keys.contains(s[i]));
    }
}

/// A sequence that holds one key `n` times.
pub open spec fn repeated<K>(key: K, n: nat) -> Seq<K> {
    Seq::new(n, |i: int| key)
}

/// Appending copies of a key adds to the occurrences of that key alone.
pub proof fn lemma_occurrences_repeated<K>(s: Seq<K>, key: K, n: nat, other: K)
    ensures
        occurrences(s + repeated(key, n), other) == occurrences(s, other) + if other == key {
            n
        } else {
            0nat
        },
    decreases n,
{
    if n == 0 {
        assert(s + repeated(key, n) =~= s);
    } else {
        let shorter = s + repeated(key, (n - 1) as nat);
        lemma_occurrences_repeated(s, key, (n - 1) as nat, other);
        assert(s + repeated(key, n) =~= shorter.push(key));
        lemma_tally_push(shorter, key, Set::empty().insert(other));
    }
}

/// What a sequence holds after a push.
pub proof fn lemma_push_contains<K>(s: Seq<K>, key: K)
    ensures
        forall|k: K| #[trigger] s.push(key).contains(k) <==> s.contains(k) || k == key,
{
    assert forall|k: K| #[trigger] s.push(key).contains(k) <==> s.contains(k) || k == key by {
        if s.contains(k) {
            let i = choose|i: int| 0 <= i < s.len() && s[i] == k;
            assert(s.push(key)[i] == k);
        }
        if k == key {
            assert(s.push(key)[s.len() as int] == k);
        }
    }
}

/// The members of a set, each once, in no particular order.
pub fn members<K: TaskKey>(set: &HashSet<K>) -> (keys: Vec<K>)
    ensures
        keys@.no_duplicates(),
        keys@.to_set() == set@,
        forall|key: K| #[trigger] keys@.contains(key) <==> set@.contains(key),
        keys@.len() == set@.len(),
{
    broadcast use vstd::std_specs::hash::group_hash_axioms;

    proof {
        K::lemma_hashable();
    }
    let mut keys: Vec<K> = Vec::new();
    for key in it: set.iter()
        invariant
            keys@.len() == it.index(),
            forall|i: int| 0 <= i < keys@.len() ==> keys@[i] == *it.seq()[i],
    {
        keys.push(*key);
    }
    proof {
        let seq = vstd::std_specs::iter::IteratorSpec::remaining(&set.iter()).unref();
        assert(keys@ =~= seq);
        assert(keys@.to_set() == set@);
        assert forall|key: K| #[trigger] keys@.contains(key) <==> set@.contains(key) by {
            assert(keys@.to_set().contains(key) <==> keys@.contains(key));
        }
        assert(seq.no_duplicates());
    }
    keys
}

/// The number of occurrences is how often a sequence holds the key.
pub proof fn law_occurrences_count<K>(s: Seq<K>, key: K)
    ensures
        occurrences(s, key) == s.to_multiset().count(key),
    decreases s.len(),
{
    broadcast use vstd::seq_lib::group_to_multiset_ensures;
    broadcast use vstd::multiset::group_multiset_axioms;

    if s.len() == 0 {
        assert(s.to_multiset().count(key) == 0) by {
            assert(!s.contains(key));
        }
    } else {
        law_occurrences_count(s.drop_last(), key);
        assert(s =~= s.drop_last().push(s.last()));
    }
}

} // verus!
