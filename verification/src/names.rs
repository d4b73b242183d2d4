//! Sets and maps keyed by field names, in insertion order.

use vstd::prelude::*;
use vstd::seq_lib::lemma_seq_contains_after_push;

verus! {

/// Equality of string slices is equality of their characters.
pub assume_specification[ <str as PartialEq>::eq ](a: &str, b: &str) -> (equal: bool)
    ensures
        equal == (a@ == b@),
;

/// A set of names that remembers the order in which they came.
#[derive(Clone, Debug, PartialEq, Eq)]
pub struct NameSet {
    names: Vec<String>,
}

impl View for NameSet {
    type V = Set<Seq<char>>;

    open spec fn view(&self) -> Set<Seq<char>> {
        self.names().to_set()
    }
}

impl NameSet {
    /// The names, in the order of their insertion.
    pub closed spec fn names(&self) -> Seq<Seq<char>> {
        self.names@.map_values(|s: String| s@)
    }

    /// No name is held twice.
    pub closed spec fn wf(&self) -> bool {
        self.names().no_duplicates()
    }

    /// What `wf` says, for those who cannot see inside the set.
    pub proof fn lemma_wf(&self)
        requires
            self.wf(),
        ensures
            self.names().no_duplicates(),
    {
    }

    /// The empty set.
    pub fn new() -> (set: NameSet)
        ensures
            set.names() == Seq::<Seq<char>>::empty(),
            set.wf(),
    {
        let set = NameSet { names: Vec::new() };
        assert(set.names() =~= Seq::<Seq<char>>::empty());
        set
    }

    /// How many names the set holds.
    pub fn len(&self) -> (n: usize)
        ensures
            n == self.names().len(),
    {
        self.names.len()
    }

    /// The name that came as number `i`.
    pub fn name(&self, i: usize) -> (name: &str)
        requires
            i < self.names().len(),
        ensures
            name@ == self.names()[i as int],
    {
        self.names[i].as_str()
    }

    /// Whether the set holds `name`.
    pub fn contains(&self, name: &str) -> (found: bool)
        ensures
            found == self@.contains(name@),
    {
        let mut i: usize = 0;
        while i < self.names.len()
            invariant
                i <= self.names.len(),
                forall|j: int| 0 <= j < i ==> self.names()[j] != name@,
            decreases self.names.len() - i,
        {
            if self.names[i].as_str().eq(name) {
                assert(self.names()[i as int] == name@);
                return true;
            }
            i += 1;
        }
        false
    }

    /// Adds `name` unless the set holds it, and says whether it was added.
    pub fn insert(&mut self, name: String) -> (added: bool)
        requires
            old(self).wf(),
        ensures
            added == !old(self)@.contains(name@),
            final(self).names() == if added {
                old(self).names().push(name@)
            } else {
                old(self).names()
            },
            final(self)@ == old(self)@.insert(name@),
            final(self).wf(),
    {
        if self.contains(name.as_str()) {
            assert(self@.insert(name@) =~= self@);
            false
        } else {
            let ghost before = self.names();
            self.names.push(name);
            assert(self.names() =~= before.push(name@));
            proof {
                before.lemma_push_to_set_commute(name@);
            }
            true
        }
    }
}

/// A map from names to values that remembers the order in which the names
/// came.
#[derive(Clone, Debug, PartialEq, Eq)]
pub struct NameMap<V> {
    entries: Vec<(String, V)>,
}

impl<V> View for NameMap<V> {
    type V = Map<Seq<char>, V>;

    open spec fn view(&self) -> Map<Seq<char>, V> {
        Map::new(
            |name: Seq<char>| self.names().contains(name),
            |name: Seq<char>| self.values()[self.names().index_of(name)],
        )
    }
}

impl<V> NameMap<V> {
    /// The names, in the order of their insertion.
    pub closed spec fn names(&self) -> Seq<Seq<char>> {
        self.entries@.map_values(|e: (String, V)| e.0@)
    }

    /// The values, each at the index of its name.
    pub closed spec fn values(&self) -> Seq<V> {
        self.entries@.map_values(|e: (String, V)| e.1)
    }

    /// No name is held twice.
    pub closed spec fn wf(&self) -> bool {
        self.names().no_duplicates()
    }

    /// Names and values come in pairs.
    pub proof fn lemma_lengths(&self)
        ensures
            self.names().len() == self.values().len(),
    {
    }

    /// What `wf` says, for those who cannot see inside the map: no name is
    /// held twice, so each name has one entry.
    pub proof fn lemma_wf(&self)
        requires
            self.wf(),
        ensures
            self.names().no_duplicates(),
            self.names().len() == self.values().len(),
    {
    }

    /// The map sends the name at index `i` to the value at index `i`.
    pub proof fn lemma_entry(&self, i: int)
        requires
            self.wf(),
            0 <= i < self.names().len(),
        ensures
            self@.dom().contains(self.names()[i]),
            self@[self.names()[i]] == self.values()[i],
    {
        let k = self.names().index_of(self.names()[i]);
        assert(self.names()[k] == self.names()[i]);
    }

    /// The empty map.
    pub fn new() -> (map: NameMap<V>)
        ensures
            map.names() == Seq::<Seq<char>>::empty(),
            map.values() == Seq::<V>::empty(),
            map.wf(),
    {
        let map = NameMap { entries: Vec::new() };
        assert(map.names() =~= Seq::<Seq<char>>::empty());
        assert(map.values() =~= Seq::<V>::empty());
        map
    }

    /// How many names the map holds.
    pub fn len(&self) -> (n: usize)
        ensures
            n == self.names().len(),
            n == self.values().len(),
    {
        self.entries.len()
    }

    /// The name that came as number `i`.
    pub fn name(&self, i: usize) -> (name: &str)
        requires
            i < self.names().len(),
        ensures
            name@ == self.names()[i as int],
    {
        self.entries[i].0.as_str()
    }

    /// The value of the name that came as number `i`.
    pub fn value(&self, i: usize) -> (value: &V)
        requires
            i < self.names().len(),
        ensures
            *value == self.values()[i as int],
    {
        &self.entries[i].1
    }

    /// Where `name` stands, if the map holds it.
    pub fn index_of(&self, name: &str) -> (found: Option<usize>)
        ensures
            match found {
                Some(i) => i < self.names().len() && self.names()[i as int] == name@,
                None => !self.names().contains(name@),
            },
    {
        let mut i: usize = 0;
        while i < self.entries.len()
            invariant
                i <= self.entries.len(),
                forall|j: int| 0 <= j < i ==> self.names()[j] != name@,
            decreases self.entries.len() - i,
        {
            if self.entries[i].0.as_str().eq(name) {
                assert(self.names()[i as int] == name@);
                return Some(i);
            }
            i += 1;
        }
        None
    }

    /// The value of `name`, if the map holds it.
    pub fn get(&self, name: &str) -> (value: Option<&V>)
        requires
            self.wf(),
        ensures
            match value {
                Some(v) => self@.dom().contains(name@) && self@[name@] == *v,
                None => !self@.dom().contains(name@),
            },
    {
        match self.index_of(name) {
            Some(i) => {
                assert(self.names()[i as int] == name@);
                Some(&self.entries[i].1)
            },
            None => None,
        }
    }

    /// Gives `name` the value `value`: in place where the map holds the name,
    /// else as its last entry.
    pub fn insert(&mut self, name: String, value: V)
        requires
            old(self).wf(),
        ensures
            final(self)@ == old(self)@.insert(name@, value),
            final(self).names() == if old(self).names().contains(name@) {
                old(self).names()
            } else {
                old(self).names().push(name@)
            },
            final(self).wf(),
    {
        let ghost names = self.names();
        let ghost values = self.values();
        let ghost before = self@;
        match self.index_of(name.as_str()) {
            Some(i) => {
                self.entries.set(i, (name, value));
                assert(self.names() =~= names);
                assert(self.values() =~= values.update(i as int, value));
                assert forall|k: Seq<char>| names.contains(k) implies #[trigger] self@[k]
                    == before.insert(name@, value)[k] by {
                    assert(names[i as int] == name@);
                    let j = names.index_of(k);
                    assert(names[j] == k);
                }
                assert(self@ =~= before.insert(name@, value));
            },
            None => {
                self.entries.push((name, value));
                assert(self.names() =~= names.push(name@));
                assert(self.values() =~= values.push(value));
                assert forall|k: Seq<char>| self.names().contains(k) implies #[trigger] self@[k]
                    == before.insert(name@, value)[k] by {
                    let j = self.names().index_of(k);
                    assert(self.names()[j] == k);
                    if k != name@ {
                        assert(names[j] == k);
                        assert(names[names.index_of(k)] == k);
                    } else {
                        assert(self.names()[names.len() as int] == name@);
                    }
                }
                assert forall|k: Seq<char>| self.names().contains(k) <==> names.contains(k) || k
                    == name@ by {
                    lemma_seq_contains_after_push(names, name@, k);
                }
                assert(self@ =~= before.insert(name@, value));
            },
        }
    }
}

} // verus!
