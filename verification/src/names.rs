//! Tables that are keyed by names.

use vstd::prelude::*;

verus! {

/// A table from names to values, in the order in which the names were first inserted.
#[derive(Debug)]
pub struct NameTable<V> {
    entries: Vec<(String, V)>,
}

impl<V> View for NameTable<V> {
    type V = Map<Seq<char>, V>;

    open spec fn view(&self) -> Map<Seq<char>, V> {
        Map::new(
            |name: Seq<char>| self.names().contains(name),
            |name: Seq<char>| self.values()[self.names().index_of(name)],
        )
    }
}

impl<V> NameTable<V> {
    /// The names, in order.
    pub closed spec fn names(&self) -> Seq<Seq<char>> {
        self.entries@.map_values(|entry: (String, V)| entry.0@)
    }

    /// The values, in the order of their names.
    pub closed spec fn values(&self) -> Seq<V> {
        self.entries@.map_values(|entry: (String, V)| entry.1)
    }

    /// Every name has one value.
    pub open spec fn wf(&self) -> bool {
        &&& self.names().no_duplicates()
        &&& self.names().len() == self.values().len()
    }

    /// A table without names.
    pub fn new() -> (table: Self)
        ensures
            table.wf(),
            table.names() == Seq::<Seq<char>>::empty(),
            table.values() == Seq::<V>::empty(),
            table@ == Map::<Seq<char>, V>::empty(),
    {
        let table = NameTable { entries: Vec::new() };
        assert(table.names() =~= Seq::<Seq<char>>::empty());
        assert(table.values() =~= Seq::<V>::empty());
        assert(table@ =~= Map::<Seq<char>, V>::empty());
        table
    }

    /// The number of names.
    pub fn len(&self) -> (n: usize)
        ensures
            n == self.names().len(),
            n == self.values().len(),
    {
        self.entries.len()
    }

    /// Whether there is no name.
    pub fn is_empty(&self) -> (empty: bool)
        ensures
            empty <==> self.names() == Seq::<Seq<char>>::empty(),
    {
        let empty = self.entries.len() == 0;
        assert(empty ==> self.names() =~= Seq::<Seq<char>>::empty());
        assert(!empty ==> self.names().len() > 0);
        empty
    }

    /// The name and the value at a position.
    pub fn entry(&self, i: usize) -> (entry: (&String, &V))
        requires
            i < self.names().len(),
        ensures
            entry.0@ == self.names()[i as int],
            *entry.1 == self.values()[i as int],
    {
        (&self.entries[i].0, &self.entries[i].1)
    }

    /// The position of a name.
    fn position(&self, name: &str) -> (position: Option<usize>)
        ensures
            match position {
                Some(i) => i < self.names().len() && self.names()[i as int] == name@,
                None => !self.names().contains(name@),
            },
    {
        let wanted = name.to_owned();
        let mut i: usize = 0;
        while i < self.entries.len()
            invariant
                i <= self.entries@.len(),
                wanted@ == name@,
                forall|j: int| 0 <= j < i ==> #[trigger] self.names()[j] != name@,
            decreases self.entries.len() - i,
        {
            if self.entries[i].0 == wanted {
                return Some(i);
            }
            i = i + 1;
        }
        None
    }

    /// Whether the table holds a name.
    pub fn contains_key(&self, name: &str) -> (found: bool)
        ensures
            found == self@.contains_key(name@),
            found == self.names().contains(name@),
    {
        self.position(name).is_some()
    }

    /// The value of a name.
    pub fn get(&self, name: &str) -> (value: Option<&V>)
        requires
            self.wf(),
        ensures
            value == (if self@.contains_key(name@) {
                Some(&self@[name@])
            } else {
                None
            }),
    {
        match self.position(name) {
            Some(i) => {
                assert(self.names().index_of(name@) == i);
                Some(&self.entries[i].1)
            },
            None => None,
        }
    }

    /// Gives a name a value; a value that it had before is dropped.
    pub fn insert(&mut self, name: String, value: V)
        requires
            old(self).wf(),
        ensures
            final(self).wf(),
            final(self)@ == old(self)@.insert(name@, value),
            final(self).names() == (if old(self).names().contains(name@) {
                old(self).names()
            } else {
                old(self).names().push(name@)
            }),
            final(self).values() == (if old(self).names().contains(name@) {
                old(self).values().update(old(self).names().index_of(name@), value)
            } else {
                old(self).values().push(value)
            }),
    {
        let ghost names = self.names();
        let ghost values = self.values();
        match self.position(name.as_str()) {
            Some(i) => {
                assert(names.index_of(name@) == i);
                self.entries[i] = (name, value);
                assert(self.names() =~= names);
                assert(self.values() =~= values.update(i as int, value));
                assert(self@ =~= old(self)@.insert(name@, value)) by {
                    assert forall|n: Seq<char>| names.contains(n) && n != name@ implies
                        names.index_of(n) != i by {
                        assert(names[names.index_of(n)] == n);
                    }
                }
            },
            None => {
                self.entries.push((name, value));
                assert(self.names() =~= names.push(name@));
                assert(self.values() =~= values.push(value));
                assert(self@ =~= old(self)@.insert(name@, value)) by {
                    assert forall|n: Seq<char>| #[trigger]
                        self.names().contains(n) <==> names.contains(n) || n == name@ by {
                        if names.contains(n) {
                            assert(self.names()[names.index_of(n)] == n);
                        }
                        if n == name@ {
                            assert(self.names()[names.len() as int] == n);
                        }
                    }
                    assert forall|n: Seq<char>| names.contains(n) implies
                        #[trigger] self.names().index_of(n) == names.index_of(n) by {
                        let i = names.index_of(n);
                        let j = self.names().index_of(n);
                        assert(self.names()[i] == n);
                        assert(self.names()[j] == n);
                    }
                    assert(self.names()[names.len() as int] == name@);
                    let last = self.names().index_of(name@);
                    assert(self.names()[last] == name@);
                    assert(last == names.len());
                }
            },
        }
    }
}

impl Clone for NameTable<String> {
    fn clone(&self) -> (copy: Self)
        ensures
            copy.names() == self.names(),
            copy.values() == self.values(),
            copy@ == self@,
    {
        let mut entries: Vec<(String, String)> = Vec::new();
        let mut i: usize = 0;
        while i < self.entries.len()
            invariant
                i <= self.entries@.len(),
                entries@ == self.entries@.take(i as int),
            decreases self.entries.len() - i,
        {
            entries.push((self.entries[i].0.clone(), self.entries[i].1.clone()));
            i = i + 1;
            assert(entries@ =~= self.entries@.take(i as int));
        }
        assert(entries@ =~= self.entries@);
        NameTable { entries }
    }
}

/// A table holds a name exactly if the name is in the list of its names, and the value of a name is
/// the one at the same position.
pub proof fn law_names_have_their_values<V>(table: NameTable<V>, name: Seq<char>, i: int)
    requires
        table.wf(),
    ensures
        table@.contains_key(name) <==> table.names().contains(name),
        table.values().len() == table.names().len(),
        0 <= i < table.names().len() ==> table@.contains_key(table.names()[i])
            && table@[table.names()[i]] == table.values()[i],
        forall|j: int|
            0 <= i < j < table.names().len() ==> table.names()[i] != #[trigger] table.names()[j],
{
    if 0 <= i < table.names().len() {
        assert(table.names().contains(table.names()[i]));
        assert(table.names().index_of(table.names()[i]) == i);
    }
}

} // verus!
