//! Postings: the sorted set of documents that carry one facet value, and the
//! bytes under which it is stored.

use vstd::prelude::*;
use vstd::bytes::{
    lemma_auto_spec_u64_to_from_le_bytes, spec_u64_from_le_bytes, spec_u64_to_le_bytes,
    u64_from_le_bytes, u64_to_le_bytes,
};
use vstd::relations::strict_total_ordering;
use vstd::slice::slice_subrange;
use crate::sequences::{
    ascending, lemma_ascending_form, lemma_ascending_unique, lemma_insert_ascending, lemma_place,
};

verus! {

/// The number of a document.
#[derive(Clone, Copy, Debug, PartialEq, Eq, PartialOrd, Ord, Hash, Structural)]
pub struct DocumentId(pub u64);

/// The order of documents: by number.
pub open spec fn by_number() -> spec_fn(DocumentId, DocumentId) -> bool {
    |a: DocumentId, b: DocumentId| a.0 < b.0
}

/// Sorted by number, and without a document held twice.
pub open spec fn increasing(ids: Seq<DocumentId>) -> bool {
    ascending(ids, by_number())
}

/// The documents of `ids`, each once, sorted by number.
pub open spec fn normalized(ids: Seq<DocumentId>) -> Seq<DocumentId> {
    choose|sorted: Seq<DocumentId>| increasing(sorted) && sorted.to_set() == ids.to_set()
}

/// The bytes that store `ids`: eight for each document, its number with the
/// low byte first, in the order of the sequence.
pub open spec fn postings_bytes(ids: Seq<DocumentId>) -> Seq<u8> {
    Seq::new(8 * ids.len(), |i: int| spec_u64_to_le_bytes(ids[i / 8].0)[i % 8])
}

/// The documents that `bytes` store, eight bytes each; bytes left over at the
/// end are passed over.
pub open spec fn stored_ids(bytes: Seq<u8>) -> Seq<DocumentId> {
    Seq::new(
        (bytes.len() / 8) as nat,
        |i: int| DocumentId(spec_u64_from_le_bytes(bytes.subrange(8 * i, 8 * i + 8))),
    )
}

/// The postings that `bytes` store, where they store any: whole documents,
/// sorted and each once.
pub open spec fn stored_postings(bytes: Seq<u8>) -> Option<Seq<DocumentId>> {
    if bytes.len() % 8 == 0 && increasing(stored_ids(bytes)) {
        Some(stored_ids(bytes))
    } else {
        None
    }
}

/// The order of documents by number is a strict order in which every two
/// documents compare.
pub proof fn lemma_by_number_strict()
    ensures
        strict_total_ordering(by_number()),
{
    let less = by_number();
    assert forall|x: DocumentId, y: DocumentId| x != y implies #[trigger] less(x, y) || #[trigger] less(
        y,
        x,
    ) by {
        assert(x.0 != y.0);
    }
}

/// Two sorted sequences without repeats that hold the same documents are one
/// sequence.
pub proof fn lemma_increasing_unique(a: Seq<DocumentId>, b: Seq<DocumentId>)
    requires
        increasing(a),
        increasing(b),
        a.to_set() == b.to_set(),
    ensures
        a == b,
{
    lemma_by_number_strict();
    lemma_ascending_unique(a, b, by_number());
}

/// Whatever the documents, and however often each is named: their normal form
/// is sorted, holds each once, and holds no other.
pub proof fn lemma_normalized(ids: Seq<DocumentId>)
    ensures
        increasing(normalized(ids)),
        normalized(ids).to_set() == ids.to_set(),
{
    lemma_by_number_strict();
    let form = lemma_ascending_form(ids, by_number());
    assert(increasing(form) && form.to_set() == ids.to_set());
}

/// Bytes written for sorted postings read back as these postings.
pub proof fn lemma_postings_round_trip(ids: Seq<DocumentId>)
    requires
        increasing(ids),
    ensures
        stored_postings(postings_bytes(ids)) == Some(ids),
{
    lemma_auto_spec_u64_to_from_le_bytes();
    let bytes = postings_bytes(ids);
    assert forall|i: int| 0 <= i < ids.len() implies #[trigger] stored_ids(bytes)[i] == ids[i] by {
        let chunk = bytes.subrange(8 * i, 8 * i + 8);
        let wanted = spec_u64_to_le_bytes(ids[i].0);
        assert forall|k: int| 0 <= k < 8 implies chunk[k] == wanted[k] by {
            assert(chunk[k] == bytes[8 * i + k]);
            assert((8 * i + k) / 8 == i);
            assert((8 * i + k) % 8 == k);
        }
        assert(chunk =~= wanted);
    }
    assert(stored_ids(bytes) =~= ids);
}

/// A sorted set of documents.
#[derive(Debug, PartialEq, Eq)]
pub struct Postings {
    ids: Vec<DocumentId>,
}

impl View for Postings {
    type V = Seq<DocumentId>;

    closed spec fn view(&self) -> Seq<DocumentId> {
        self.ids@
    }
}

impl Postings {
    /// The documents are sorted by number and each is held once.
    pub open spec fn wf(&self) -> bool {
        increasing(self@)
    }

    /// The empty set.
    pub fn new() -> (postings: Postings)
        ensures
            postings.wf(),
            postings@ == Seq::<DocumentId>::empty(),
    {
        Postings { ids: Vec::new() }
    }

    /// The set of the documents in `ids`, in whatever order and however often
    /// `ids` names them.
    pub fn from_dirty(ids: Vec<DocumentId>) -> (postings: Postings)
        ensures
            postings.wf(),
            postings@.to_set() == ids@.to_set(),
            postings@ == normalized(ids@),
    {
        let mut sorted: Vec<DocumentId> = Vec::new();
        let mut k: usize = 0;
        assert(ids@.take(0) =~= Seq::<DocumentId>::empty());
        assert(sorted@.to_set() =~= ids@.take(0).to_set());
        while k < ids.len()
            invariant
                k <= ids.len(),
                increasing(sorted@),
                sorted@.to_set() == ids@.take(k as int).to_set(),
            decreases ids.len() - k,
        {
            let id = ids[k];
            let mut at: usize = 0;
            while at < sorted.len() && sorted[at].0 < id.0
                invariant
                    at <= sorted.len(),
                    increasing(sorted@),
                    forall|j: int| 0 <= j < at ==> (#[trigger] sorted@[j]).0 < id.0,
                decreases sorted.len() - at,
            {
                at += 1;
            }
            proof {
                lemma_by_number_strict();
                lemma_place(sorted@, id, by_number(), at as int);
                assert(ids@.take(k + 1) =~= ids@.take(k as int).push(id));
                ids@.take(k as int).lemma_push_to_set_commute(id);
            }
            if !(at < sorted.len() && sorted[at] == id) {
                proof {
                    lemma_insert_ascending(sorted@, at as int, id, by_number());
                }
                sorted.insert(at, id);
            }
            k += 1;
        }
        proof {
            assert(ids@.take(ids.len() as int) =~= ids@);
            lemma_normalized(ids@);
            lemma_increasing_unique(sorted@, normalized(ids@));
        }
        Postings { ids: sorted }
    }

    /// How many documents the set holds.
    pub fn len(&self) -> (n: usize)
        ensures
            n == self@.len(),
    {
        self.ids.len()
    }

    /// The documents, sorted by number.
    pub fn ids(&self) -> (ids: &Vec<DocumentId>)
        ensures
            ids@ == self@,
    {
        &self.ids
    }

    /// Whether the set holds `id`.
    pub fn contains(&self, id: DocumentId) -> (found: bool)
        ensures
            found == self@.contains(id),
    {
        let mut i: usize = 0;
        while i < self.ids.len()
            invariant
                i <= self.ids.len(),
                forall|j: int| 0 <= j < i ==> self@[j] != id,
            decreases self.ids.len() - i,
        {
            if self.ids[i] == id {
                return true;
            }
            i += 1;
        }
        false
    }

    /// The bytes under which the set is stored.
    pub fn to_bytes(&self) -> (bytes: Vec<u8>)
        ensures
            bytes@ == postings_bytes(self@),
    {
        let mut bytes: Vec<u8> = Vec::new();
        let mut i: usize = 0;
        while i < self.ids.len()
            invariant
                i <= self.ids.len(),
                bytes@.len() == 8 * i,
                forall|j: int|
                    0 <= j < 8 * i ==> #[trigger] bytes@[j] == spec_u64_to_le_bytes(
                        self@[j / 8].0,
                    )[j % 8],
            decreases self.ids.len() - i,
        {
            let mut chunk = u64_to_le_bytes(self.ids[i].0);
            let ghost before = bytes@;
            let ghost added = chunk@;
            bytes.append(&mut chunk);
            proof {
                assert forall|j: int| 0 <= j < 8 * (i + 1) implies #[trigger] bytes@[j]
                    == spec_u64_to_le_bytes(self@[j / 8].0)[j % 8] by {
                    if j < 8 * i {
                        assert(bytes@[j] == before[j]);
                    } else {
                        assert(bytes@[j] == added[j - 8 * i]);
                        assert(j / 8 == i);
                        assert(j % 8 == j - 8 * i);
                    }
                }
            }
            i += 1;
        }
        assert(bytes@ =~= postings_bytes(self@));
        bytes
    }

    /// The set that `bytes` store, or `None` where they store none: where their
    /// number is no multiple of eight, or the documents are out of order or
    /// repeated.
    pub fn from_bytes(bytes: &[u8]) -> (postings: Option<Postings>)
        ensures
            match postings {
                Some(p) => p.wf() && stored_postings(bytes@) == Some(p@),
                None => stored_postings(bytes@) is None,
            },
    {
        if bytes.len() % 8 != 0 {
            return None;
        }
        let len: usize = bytes.len();
        let count: usize = len / 8;
        let mut ids: Vec<DocumentId> = Vec::new();
        let mut i: usize = 0;
        while i < count
            invariant
                i <= count,
                len == bytes@.len(),
                count == bytes@.len() / 8,
                bytes@.len() % 8 == 0,
                ids@ == stored_ids(bytes@).take(i as int),
                increasing(ids@),
            decreases count - i,
        {
            assert(8 * i + 8 <= bytes@.len());
            let id = DocumentId(u64_from_le_bytes(slice_subrange(bytes, 8 * i, 8 * i + 8)));
            assert(id == stored_ids(bytes@)[i as int]);
            if i > 0 && ids[i - 1].0 >= id.0 {
                assert(stored_ids(bytes@)[i - 1] == ids@[i - 1]);
                return None;
            }
            let ghost before = ids@;
            ids.push(id);
            proof {
                assert(ids@ =~= stored_ids(bytes@).take(i + 1));
                let less = by_number();
                assert forall|a: int, b: int| 0 <= a < b < ids@.len() implies less(
                    #[trigger] ids@[a],
                    #[trigger] ids@[b],
                ) by {
                    if b < i {
                        assert(ids@[a] == before[a] && ids@[b] == before[b]);
                    } else if a < i - 1 {
                        assert(less(before[a], before[i - 1]));
                    }
                }
            }
            i += 1;
        }
        assert(ids@ =~= stored_ids(bytes@));
        Some(Postings { ids })
    }
}

} // verus!
