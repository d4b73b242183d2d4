//! The fields of an index: their names, their numbers, and what may be done
//! with each.

use vstd::prelude::*;
use crate::names::NameSet;

verus! {

/// The number of a field. A field keeps its number for as long as the schema
/// lives.
#[derive(Clone, Copy, Debug, PartialEq, Eq, PartialOrd, Ord, Hash, Structural)]
pub struct FieldId(pub u16);

/// The most fields a schema can number.
pub const MAX_FIELDS: usize = 0x1_0000;

/// The fields of an index. A field's number is the rank at which its name was
/// inserted.
pub struct Schema {
    names: Vec<String>,
    displayed: Vec<bool>,
    ranked: Vec<bool>,
}

impl Schema {
    /// The field names; the name at index `i` belongs to field `i`.
    pub closed spec fn names(&self) -> Seq<Seq<char>> {
        self.names@.map_values(|s: String| s@)
    }

    /// For each field, whether it may be shown in search results.
    pub closed spec fn displayed(&self) -> Seq<bool> {
        self.displayed@
    }

    /// For each field, whether results can be ordered by it.
    pub closed spec fn ranked(&self) -> Seq<bool> {
        self.ranked@
    }

    /// Every field has a number and both marks, and no name is held twice.
    pub closed spec fn wf(&self) -> bool {
        &&& self.names().len() <= MAX_FIELDS
        &&& self.displayed().len() == self.names().len()
        &&& self.ranked().len() == self.names().len()
        &&& self.names().no_duplicates()
    }

    /// The number of the field called `name`.
    pub open spec fn field_id(&self, name: Seq<char>) -> Option<FieldId> {
        if self.names().contains(name) {
            Some(FieldId(self.names().index_of(name) as u16))
        } else {
            None
        }
    }

    /// The name of field `id`.
    pub open spec fn field_name(&self, id: FieldId) -> Option<Seq<char>> {
        if id.0 < self.names().len() {
            Some(self.names()[id.0 as int])
        } else {
            None
        }
    }

    /// Whether field `id` exists and may be shown.
    pub open spec fn shows(&self, id: FieldId) -> bool {
        id.0 < self.names().len() && self.displayed()[id.0 as int]
    }

    /// Whether field `id` exists and results can be ordered by it.
    pub open spec fn ranks(&self, id: FieldId) -> bool {
        id.0 < self.names().len() && self.ranked()[id.0 as int]
    }

    /// The names of the fields that may be shown.
    pub open spec fn displayed_names(&self) -> Set<Seq<char>> {
        Set::new(
            |name: Seq<char>|
                exists|i: int|
                    0 <= i < self.names().len() && self.displayed()[i] && #[trigger] self.names()[i]
                        == name,
        )
    }

    /// What `wf` says, for those who cannot see inside the schema: every field
    /// has a number and both marks, and no name is held twice.
    pub proof fn lemma_wf(&self)
        requires
            self.wf(),
        ensures
            self.names().len() <= MAX_FIELDS,
            self.displayed().len() == self.names().len(),
            self.ranked().len() == self.names().len(),
            self.names().no_duplicates(),
    {
    }

    /// A field may be shown just where its name is among the names that may be
    /// shown.
    pub proof fn lemma_shown_names(&self, id: FieldId)
        requires
            self.wf(),
            id.0 < self.names().len(),
        ensures
            self.shows(id) <==> self.displayed_names().contains(self.names()[id.0 as int]),
    {
        let name = self.names()[id.0 as int];
        if self.displayed_names().contains(name) {
            let i = choose|i: int|
                0 <= i < self.names().len() && self.displayed()[i] && #[trigger] self.names()[i]
                    == name;
            assert(i == id.0);
        }
        if self.shows(id) {
            assert(self.displayed()[id.0 as int] && self.names()[id.0 as int] == name);
        }
    }

    /// Names and numbers determine each other: the number of a field's name is
    /// the field's number, and the name of a name's number is that name.
    pub proof fn lemma_name_and_id(&self, id: FieldId, name: Seq<char>)
        requires
            self.wf(),
        ensures
            self.field_name(id) == Some(name) <==> self.field_id(name) == Some(id),
    {
        if self.field_name(id) == Some(name) {
            assert(self.names()[id.0 as int] == name);
            assert(self.names().contains(name));
        }
        if self.names().contains(name) {
            let i = self.names().index_of(name);
            assert(self.names()[i] == name);
        }
    }

    /// A schema without fields: it numbers no name, and holds no mark.
    pub fn new() -> (schema: Schema)
        ensures
            schema.wf(),
            schema.names() == Seq::<Seq<char>>::empty(),
            schema.displayed() == Seq::<bool>::empty(),
            schema.ranked() == Seq::<bool>::empty(),
    {
        let schema = Schema { names: Vec::new(), displayed: Vec::new(), ranked: Vec::new() };
        assert(schema.names() =~= Seq::<Seq<char>>::empty());
        schema
    }

    /// How many fields the schema numbers.
    pub fn len(&self) -> (n: usize)
        ensures
            n == self.names().len(),
    {
        self.names.len()
    }

    /// The number of the field called `name`, if there is one.
    pub fn id(&self, name: &str) -> (id: Option<FieldId>)
        requires
            self.wf(),
        ensures
            id == self.field_id(name@),
    {
        let mut i: usize = 0;
        while i < self.names.len()
            invariant
                i <= self.names.len(),
                self.wf(),
                forall|j: int| 0 <= j < i ==> self.names()[j] != name@,
            decreases self.names.len() - i,
        {
            if self.names[i].as_str().eq(name) {
                assert(self.names()[i as int] == name@);
                let ghost j = self.names().index_of(name@);
                assert(self.names()[j] == name@);
                return Some(FieldId(i as u16));
            }
            i += 1;
        }
        None
    }

    /// The name of field `id`, if the schema numbers such a field.
    pub fn name(&self, id: FieldId) -> (name: Option<&str>)
        ensures
            match name {
                Some(n) => self.field_name(id) == Some(n@),
                None => self.field_name(id) is None,
            },
    {
        let i: usize = id.0 as usize;
        if i < self.names.len() {
            Some(self.names[i].as_str())
        } else {
            None
        }
    }

    /// Whether field `id` exists and may be shown in search results.
    pub fn is_displayed(&self, id: FieldId) -> (shown: bool)
        requires
            self.wf(),
        ensures
            shown == self.shows(id),
    {
        let i: usize = id.0 as usize;
        i < self.displayed.len() && self.displayed[i]
    }

    /// Whether field `id` exists and results can be ordered by it.
    pub fn is_ranked(&self, id: FieldId) -> (ranked: bool)
        requires
            self.wf(),
        ensures
            ranked == self.ranks(id),
    {
        let i: usize = id.0 as usize;
        i < self.ranked.len() && self.ranked[i]
    }

    /// Numbers the field called `name`, unless the schema knows it, and marks it
    /// as asked. A field once marked stays marked. Returns the field's number,
    /// or `None` where the name is new and all numbers are taken.
    pub fn insert(&mut self, name: &str, displayed: bool, ranked: bool) -> (id: Option<FieldId>)
        requires
            old(self).wf(),
        ensures
            final(self).wf(),
            match old(self).field_id(name@) {
                Some(known) => {
                    &&& id == Some(known)
                    &&& final(self).names() == old(self).names()
                    &&& final(self).displayed() == old(self).displayed().update(
                        known.0 as int,
                        old(self).displayed()[known.0 as int] || displayed,
                    )
                    &&& final(self).ranked() == old(self).ranked().update(
                        known.0 as int,
                        old(self).ranked()[known.0 as int] || ranked,
                    )
                },
                None => if old(self).names().len() < MAX_FIELDS {
                    &&& id == Some(FieldId(old(self).names().len() as u16))
                    &&& final(self).names() == old(self).names().push(name@)
                    &&& final(self).displayed() == old(self).displayed().push(displayed)
                    &&& final(self).ranked() == old(self).ranked().push(ranked)
                } else {
                    &&& id is None
                    &&& final(self).names() == old(self).names()
                    &&& final(self).displayed() == old(self).displayed()
                    &&& final(self).ranked() == old(self).ranked()
                },
            },
    {
        let ghost names = self.names();
        match self.id(name) {
            Some(known) => {
                let i: usize = known.0 as usize;
                assert(names[names.index_of(name@)] == name@);
                let shown = self.displayed[i] || displayed;
                let sorts = self.ranked[i] || ranked;
                self.displayed.set(i, shown);
                self.ranked.set(i, sorts);
                assert(self.names() == names);
                Some(known)
            },
            None => {
                if self.names.len() < MAX_FIELDS {
                    let id = FieldId(self.names.len() as u16);
                    self.names.push(name.to_owned());
                    self.displayed.push(displayed);
                    self.ranked.push(ranked);
                    assert(self.names() =~= names.push(name@));
                    Some(id)
                } else {
                    None
                }
            },
        }
    }

    /// The names of the fields that may be shown, in the order of their
    /// numbers.
    pub fn displayed_name(&self) -> (shown: NameSet)
        requires
            self.wf(),
        ensures
            shown.wf(),
            shown@ == self.displayed_names(),
    {
        let mut shown = NameSet::new();
        let mut i: usize = 0;
        while i < self.names.len()
            invariant
                i <= self.names.len(),
                self.wf(),
                shown.wf(),
                forall|name: Seq<char>|
                    shown@.contains(name) <==> (exists|k: int|
                        0 <= k < i && self.displayed()[k] && #[trigger] self.names()[k] == name),
            decreases self.names.len() - i,
        {
            if self.displayed[i] {
                let ghost before = shown@;
                shown.insert(self.names[i].clone());
                assert(self.names()[i as int] == self.names@[i as int]@);
                assert forall|name: Seq<char>| shown@.contains(name) <==> (exists|k: int|
                    0 <= k < i + 1 && self.displayed()[k] && #[trigger] self.names()[k]
                        == name) by {
                    if before.contains(name) {
                        let k = choose|k: int|
                            0 <= k < i && self.displayed()[k] && #[trigger] self.names()[k] == name;
                        assert(0 <= k < i + 1 && self.displayed()[k] && self.names()[k] == name);
                    }
                }
            }
            i += 1;
        }
        assert(shown@ =~= self.displayed_names());
        shown
    }
}

} // verus!
