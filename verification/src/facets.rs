//! The facet table: for each value of each faceted field, the documents that
//! carry it.
//!
//! The table maps byte keys to byte values, as the key-value engine that
//! persists it does. A key is the fixed-width encoding of a field and a value;
//! a value is the encoding of a sorted set of documents.

use vstd::prelude::*;
use vstd::string::StrSliceExecFns;
use vstd::utf8::{encode_utf8, encode_utf8_decode_utf8};
use crate::postings::{
    increasing, lemma_normalized, lemma_postings_round_trip, normalized, postings_bytes,
    stored_postings, DocumentId, Postings,
};
use crate::schema::FieldId;
use crate::sequences::copy_of;

verus! {

/// The most bytes that a facet value may have in UTF-8.
pub const FACET_VALUE_MAX_LEN: usize = 253;

/// The width of every encoded facet key: two bytes for the field, the value
/// padded to its greatest length, one byte for the value's length.
pub const FACET_KEY_LEN: usize = 256;

/// Why the facet table refused a request.
#[derive(Clone, Copy, Debug, PartialEq, Eq, Structural)]
pub enum FacetError {
    /// The facet value is longer than `FACET_VALUE_MAX_LEN` bytes.
    ValueTooLong,
    /// The bytes stored under the key are no postings.
    Corrupted,
}

/// A field and one of its values: what a list of postings is filed under.
#[derive(Debug, PartialEq, Eq, Hash)]
pub struct FacetKey {
    field_id: FieldId,
    value: Vec<u8>,
}

/// `n` zero bytes.
pub open spec fn zeros(n: int) -> Seq<u8> {
    Seq::new(n as nat, |i: int| 0u8)
}

/// The key of the value `value` of field `field`: the field's number with its
/// high byte first, the value, zeros up to the greatest length of a value, and
/// the value's length.
pub open spec fn key_bytes(field: u16, value: Seq<u8>) -> Seq<u8> {
    seq![(field / 256) as u8, (field % 256) as u8] + value + zeros(
        FACET_VALUE_MAX_LEN - value.len(),
    ) + seq![value.len() as u8]
}

/// The field and value that `bytes` are the key of, where they are a key: of
/// the right width, the length no greater than a value's may be, and nothing
/// but zeros between the value and its length.
pub open spec fn key_parts(bytes: Seq<u8>) -> Option<(u16, Seq<u8>)> {
    if bytes.len() == FACET_KEY_LEN && bytes[FACET_KEY_LEN - 1] <= FACET_VALUE_MAX_LEN && (forall|
        i: int,
    | 2 + bytes[FACET_KEY_LEN - 1] <= i < FACET_KEY_LEN - 1 ==> bytes[i] == 0) {
        Some(
            (
                (bytes[0] * 256 + bytes[1]) as u16,
                bytes.subrange(2, 2 + bytes[FACET_KEY_LEN - 1] as int),
            ),
        )
    } else {
        None
    }
}

/// A key reads back as the field and value it was made of.
pub proof fn lemma_key_round_trip(field: u16, value: Seq<u8>)
    requires
        value.len() <= FACET_VALUE_MAX_LEN,
    ensures
        key_bytes(field, value).len() == FACET_KEY_LEN,
        key_parts(key_bytes(field, value)) == Some((field, value)),
{
    let bytes = key_bytes(field, value);
    assert(bytes.len() == FACET_KEY_LEN);
    assert(bytes[FACET_KEY_LEN - 1] == value.len() as u8);
    assert(bytes[0] == (field / 256) as u8);
    assert(bytes[1] == (field % 256) as u8);
    assert forall|i: int| 2 + value.len() <= i < FACET_KEY_LEN - 1 implies bytes[i] == 0 by {
        assert(bytes[i] == zeros(FACET_VALUE_MAX_LEN - value.len())[i - 2 - value.len()]);
    }
    assert(bytes.subrange(2, 2 + value.len() as int) =~= value);
}

/// Bytes that are a key are the key of the field and value read from them.
pub proof fn lemma_key_parts_encode(bytes: Seq<u8>)
    requires
        key_parts(bytes) is Some,
    ensures
        ({
            let (field, value) = key_parts(bytes).unwrap();
            value.len() <= FACET_VALUE_MAX_LEN && key_bytes(field, value) == bytes
        }),
{
    let (field, value) = key_parts(bytes).unwrap();
    let again = key_bytes(field, value);
    assert(value.len() == bytes[FACET_KEY_LEN - 1]);
    assert(again.len() == bytes.len());
    assert forall|i: int| 0 <= i < bytes.len() implies again[i] == bytes[i] by {
        if i >= 2 && i < 2 + value.len() {
            assert(again[i] == value[i - 2]);
        } else if i >= 2 + value.len() && i < FACET_KEY_LEN - 1 {
            assert(again[i] == zeros(FACET_VALUE_MAX_LEN - value.len())[i - 2 - value.len()]);
        }
    }
    assert(again =~= bytes);
}

/// Two keys are the same bytes only where they are made of the same field and
/// the same value.
pub proof fn lemma_key_injective(field: u16, value: Seq<u8>, other_field: u16, other_value: Seq<u8>)
    requires
        value.len() <= FACET_VALUE_MAX_LEN,
        other_value.len() <= FACET_VALUE_MAX_LEN,
        key_bytes(field, value) == key_bytes(other_field, other_value),
    ensures
        field == other_field,
        value == other_value,
{
    lemma_key_round_trip(field, value);
    lemma_key_round_trip(other_field, other_value);
}

/// Two strings have the same bytes in UTF-8 only where they are the same
/// string.
pub proof fn lemma_value_injective(value: Seq<char>, other: Seq<char>)
    requires
        encode_utf8(value) == encode_utf8(other),
    ensures
        value == other,
{
    encode_utf8_decode_utf8(value);
    encode_utf8_decode_utf8(other);
}

/// Whether `a` and `b` agree on their first `k` bytes.
pub open spec fn same_prefix(a: Seq<u8>, b: Seq<u8>, k: int) -> bool {
    0 <= k <= a.len() && k <= b.len() && forall|i: int| 0 <= i < k ==> a[i] == b[i]
}

/// Byte order, the order in which a key-value engine walks its keys: `a`
/// sorts before `b` where, after the bytes on which they agree, `a` ends and
/// `b` goes on, or the byte of `a` is the smaller.
pub open spec fn sorts_before(a: Seq<u8>, b: Seq<u8>) -> bool {
    exists|k: int| #[trigger] same_prefix(a, b, k) && k < b.len() && (k == a.len() || a[k] < b[k])
}

/// The first index from `from` on at which `value` holds a byte other than
/// zero, or the length of `value`.
spec fn first_nonzero(value: Seq<u8>, from: int) -> int
    decreases value.len() - from,
{
    if 0 <= from < value.len() && value[from] == 0 {
        first_nonzero(value, from + 1)
    } else {
        from
    }
}

proof fn lemma_first_nonzero(value: Seq<u8>, from: int)
    requires
        0 <= from <= value.len(),
    ensures
        from <= first_nonzero(value, from) <= value.len(),
        forall|i: int| from <= i < first_nonzero(value, from) ==> value[i] == 0,
        first_nonzero(value, from) < value.len() ==> value[first_nonzero(value, from)] != 0,
    decreases value.len() - from,
{
    if from < value.len() && value[from] == 0 {
        lemma_first_nonzero(value, from + 1);
    }
}

/// Where each byte of a key stands.
proof fn lemma_key_layout(field: u16, value: Seq<u8>)
    requires
        value.len() <= FACET_VALUE_MAX_LEN,
    ensures
        key_bytes(field, value).len() == FACET_KEY_LEN,
        key_bytes(field, value)[0] == field / 256,
        key_bytes(field, value)[1] == field % 256,
        forall|i: int|
            2 <= i < 2 + value.len() ==> #[trigger] key_bytes(field, value)[i] == value[i - 2],
        forall|i: int|
            2 + value.len() <= i < FACET_KEY_LEN - 1 ==> #[trigger] key_bytes(field, value)[i] == 0,
        key_bytes(field, value)[FACET_KEY_LEN - 1] == value.len(),
{
    let bytes = key_bytes(field, value);
    assert forall|i: int| 2 + value.len() <= i < FACET_KEY_LEN - 1 implies #[trigger] bytes[i]
        == 0 by {
        assert(bytes[i] == zeros(FACET_VALUE_MAX_LEN - value.len())[i - 2 - value.len()]);
    }
}

/// Keys sort as their fields and values do: by field first, and within a
/// field in the byte order of the values. So the keys of one field stand
/// together, in the order of their values.
pub proof fn lemma_key_order(field: u16, value: Seq<u8>, other_field: u16, other_value: Seq<u8>)
    requires
        value.len() <= FACET_VALUE_MAX_LEN,
        other_value.len() <= FACET_VALUE_MAX_LEN,
    ensures
        sorts_before(key_bytes(field, value), key_bytes(other_field, other_value)) <==> field
            < other_field || (field == other_field && sorts_before(value, other_value)),
{
    let a = key_bytes(field, value);
    let b = key_bytes(other_field, other_value);
    lemma_key_layout(field, value);
    lemma_key_layout(other_field, other_value);
    if field < other_field {
        if field / 256 < other_field / 256 {
            assert(same_prefix(a, b, 0));
        } else {
            assert(same_prefix(a, b, 1));
        }
        assert(sorts_before(a, b));
    } else if field == other_field && sorts_before(value, other_value) {
        let k = choose|k: int| #[trigger]
            same_prefix(value, other_value, k) && k < other_value.len() && (k == value.len()
                || value[k] < other_value[k]);
        if k < value.len() {
            assert forall|i: int| 0 <= i < 2 + k implies a[i] == b[i] by {
                if i >= 2 {
                    assert(a[i] == value[i - 2]);
                    assert(b[i] == other_value[i - 2]);
                }
            }
            assert(same_prefix(a, b, 2 + k));
            assert(a[2 + k] == value[k]);
            assert(b[2 + k] == other_value[k]);
        } else {
            let j = first_nonzero(other_value, k);
            lemma_first_nonzero(other_value, k);
            if j < other_value.len() {
                assert forall|i: int| 0 <= i < 2 + j implies a[i] == b[i] by {
                    if i >= 2 {
                        assert(b[i] == other_value[i - 2]);
                        if i - 2 < k {
                            assert(a[i] == value[i - 2]);
                        } else {
                            assert(a[i] == 0);
                        }
                    }
                }
                assert(same_prefix(a, b, 2 + j));
                assert(a[2 + j] == 0);
                assert(b[2 + j] == other_value[j]);
            } else {
                assert forall|i: int| 0 <= i < FACET_KEY_LEN - 1 implies a[i] == b[i] by {
                    if i >= 2 {
                        if i - 2 < k {
                            assert(a[i] == value[i - 2]);
                            assert(b[i] == other_value[i - 2]);
                        } else if i - 2 < other_value.len() {
                            assert(a[i] == 0);
                            assert(b[i] == other_value[i - 2]);
                        } else {
                            assert(a[i] == 0);
                            assert(b[i] == 0);
                        }
                    }
                }
                assert(same_prefix(a, b, FACET_KEY_LEN - 1));
            }
        }
        assert(sorts_before(a, b));
    }
    if sorts_before(a, b) {
        let k = choose|k: int| #[trigger]
            same_prefix(a, b, k) && k < b.len() && (k == a.len() || a[k] < b[k]);
        if k >= 2 {
            assert(a[0] == b[0] && a[1] == b[1]);
            assert(field == other_field);
            if k == FACET_KEY_LEN - 1 {
                assert forall|i: int| 0 <= i < value.len() implies value[i] == other_value[i] by {
                    assert(a[i + 2] == b[i + 2]);
                    assert(a[i + 2] == value[i]);
                    assert(b[i + 2] == other_value[i]);
                }
                assert(same_prefix(value, other_value, value.len() as int));
            } else {
                let j = k - 2;
                assert(a[k] < b[k]);
                assert(j < other_value.len()) by {
                    if j >= other_value.len() {
                        assert(b[k] == 0);
                    }
                }
                assert(b[k] == other_value[j]);
                if j < value.len() {
                    assert forall|i: int| 0 <= i < j implies value[i] == other_value[i] by {
                        assert(a[i + 2] == b[i + 2]);
                        assert(a[i + 2] == value[i]);
                        assert(b[i + 2] == other_value[i]);
                    }
                    assert(same_prefix(value, other_value, j));
                    assert(value[j] == a[k]);
                } else {
                    assert forall|i: int| 0 <= i < value.len() implies value[i]
                        == other_value[i] by {
                        assert(a[i + 2] == b[i + 2]);
                        assert(a[i + 2] == value[i]);
                        assert(b[i + 2] == other_value[i]);
                    }
                    assert(same_prefix(value, other_value, value.len() as int));
                }
            }
            assert(sorts_before(value, other_value));
        } else if k == 1 {
            assert(a[0] == b[0]);
            assert(a[1] < b[1]);
            assert(field < other_field);
        } else {
            assert(a[0] < b[0]);
            assert(field < other_field);
        }
    }
}

fn same_bytes(a: &Vec<u8>, b: &Vec<u8>) -> (same: bool)
    ensures
        same == (a@ == b@),
{
    if a.len() != b.len() {
        return false;
    }
    let mut i: usize = 0;
    while i < a.len()
        invariant
            i <= a.len(),
            a.len() == b.len(),
            forall|j: int| 0 <= j < i ==> a@[j] == b@[j],
        decreases a.len() - i,
    {
        if a[i] != b[i] {
            return false;
        }
        i += 1;
    }
    assert(a@ =~= b@);
    true
}

impl FacetKey {
    /// The number of the key's field.
    pub closed spec fn field(&self) -> u16 {
        self.field_id.0
    }

    /// The key's value, in UTF-8.
    pub closed spec fn value(&self) -> Seq<u8> {
        self.value@
    }

    /// Whether the key can be encoded: its value is short enough.
    pub open spec fn encodable(&self) -> bool {
        self.value().len() <= FACET_VALUE_MAX_LEN
    }

    /// The key's encoding.
    pub open spec fn bytes(&self) -> Seq<u8> {
        key_bytes(self.field(), self.value())
    }

    /// The key of the value `value` of the field `field_id`.
    pub fn new(field_id: FieldId, value: String) -> (key: FacetKey)
        ensures
            key.field() == field_id.0,
            key.value() == encode_utf8(value@),
    {
        FacetKey { field_id, value: value.as_str().as_bytes_vec() }
    }

    /// The key's field.
    pub fn field_id(&self) -> (id: FieldId)
        ensures
            id.0 == self.field(),
    {
        self.field_id
    }

    /// Whether the key can be encoded: whether its value has no more than
    /// `FACET_VALUE_MAX_LEN` bytes.
    pub fn is_encodable(&self) -> (fits: bool)
        ensures
            fits == self.encodable(),
    {
        self.value.len() <= FACET_VALUE_MAX_LEN
    }

    /// The key as bytes, or `None` where its value is too long.
    pub fn bytes_encode(item: &FacetKey) -> (bytes: Option<Vec<u8>>)
        ensures
            match bytes {
                Some(b) => item.encodable() && b@ == item.bytes(),
                None => !item.encodable(),
            },
    {
        let len: usize = item.value.len();
        if len > FACET_VALUE_MAX_LEN {
            return None;
        }
        let id: u16 = item.field_id.0;
        let mut bytes: Vec<u8> = Vec::new();
        bytes.push((id / 256) as u8);
        bytes.push((id % 256) as u8);
        let mut i: usize = 0;
        while i < len
            invariant
                i <= len,
                len == item.value@.len(),
                bytes@ == seq![(id / 256) as u8, (id % 256) as u8] + item.value@.take(i as int),
            decreases len - i,
        {
            bytes.push(item.value[i]);
            i += 1;
            assert(bytes@ =~= seq![(id / 256) as u8, (id % 256) as u8] + item.value@.take(
                i as int,
            ));
        }
        assert(item.value@.take(len as int) =~= item.value@);
        let mut k: usize = len;
        while k < FACET_VALUE_MAX_LEN
            invariant
                len <= k <= FACET_VALUE_MAX_LEN,
                bytes@ == seq![(id / 256) as u8, (id % 256) as u8] + item.value@ + zeros(k - len),
            decreases FACET_VALUE_MAX_LEN - k,
        {
            bytes.push(0u8);
            k += 1;
            assert(bytes@ =~= seq![(id / 256) as u8, (id % 256) as u8] + item.value@ + zeros(
                k - len,
            ));
        }
        bytes.push(len as u8);
        Some(bytes)
    }

    /// The key that `bytes` encode, or `None` where they encode none.
    pub fn bytes_decode(bytes: &[u8]) -> (key: Option<FacetKey>)
        ensures
            match key {
                Some(k) => key_parts(bytes@) == Some((k.field(), k.value())),
                None => key_parts(bytes@) is None,
            },
    {
        if bytes.len() != FACET_KEY_LEN {
            return None;
        }
        let len: usize = bytes[FACET_KEY_LEN - 1] as usize;
        if len > FACET_VALUE_MAX_LEN {
            return None;
        }
        let mut k: usize = 2 + len;
        while k < FACET_KEY_LEN - 1
            invariant
                2 + len <= k <= FACET_KEY_LEN - 1,
                bytes@.len() == FACET_KEY_LEN,
                len == bytes@[FACET_KEY_LEN - 1],
                forall|i: int| 2 + len <= i < k ==> bytes@[i] == 0,
            decreases FACET_KEY_LEN - 1 - k,
        {
            if bytes[k] != 0 {
                assert(bytes@[k as int] != 0);
                return None;
            }
            k += 1;
        }
        let mut value: Vec<u8> = Vec::new();
        let mut i: usize = 0;
        while i < len
            invariant
                i <= len <= FACET_VALUE_MAX_LEN,
                bytes@.len() == FACET_KEY_LEN,
                value@ == bytes@.subrange(2, 2 + i as int),
            decreases len - i,
        {
            value.push(bytes[2 + i]);
            i += 1;
            assert(value@ =~= bytes@.subrange(2, 2 + i as int));
        }
        let field: u16 = (bytes[0] as u16) * 256 + (bytes[1] as u16);
        Some(FacetKey { field_id: FieldId(field), value })
    }
}

/// What is read from `table` under the key `bytes`: nothing where the table
/// has no such key, the postings stored there, or `Corrupted` where what is
/// stored there is no postings.
pub open spec fn postings_at(table: Map<Seq<u8>, Seq<u8>>, bytes: Seq<u8>) -> Result<
    Option<Seq<DocumentId>>,
    FacetError,
> {
    if table.dom().contains(bytes) {
        match stored_postings(table[bytes]) {
            Some(ids) => Ok(Some(ids)),
            None => Err(FacetError::Corrupted),
        }
    } else {
        Ok(None)
    }
}

/// Whether each of the first `n` keys of `batch` can be encoded.
pub open spec fn all_encodable(batch: Seq<(FacetKey, Vec<DocumentId>)>, n: int) -> bool {
    forall|i: int| 0 <= i < n && i < batch.len() ==> (#[trigger] batch[i]).0.encodable()
}

/// `table` after the first `n` entries of `batch` were written in turn, each
/// with its documents sorted and held once. A later entry for a key replaces
/// an earlier one.
pub open spec fn updated(
    table: Map<Seq<u8>, Seq<u8>>,
    batch: Seq<(FacetKey, Vec<DocumentId>)>,
    n: int,
) -> Map<Seq<u8>, Seq<u8>>
    decreases n,
{
    if n <= 0 {
        table
    } else {
        updated(table, batch, n - 1).insert(
            batch[n - 1].0.bytes(),
            postings_bytes(normalized(batch[n - 1].1@)),
        )
    }
}

/// What was put under a key is what is read under it, and a put under one key
/// changes nothing under another.
pub proof fn lemma_put_then_get(
    table: Map<Seq<u8>, Seq<u8>>,
    key: FacetKey,
    ids: Seq<DocumentId>,
    other: FacetKey,
)
    requires
        key.encodable(),
        other.encodable(),
        increasing(ids),
    ensures
        postings_at(table.insert(key.bytes(), postings_bytes(ids)), key.bytes()) == Ok::<
            Option<Seq<DocumentId>>,
            FacetError,
        >(Some(ids)),
        key.field() != other.field() || key.value() != other.value() ==> postings_at(
            table.insert(key.bytes(), postings_bytes(ids)),
            other.bytes(),
        ) == postings_at(table, other.bytes()),
{
    lemma_postings_round_trip(ids);
    if key.bytes() == other.bytes() {
        lemma_key_injective(key.field(), key.value(), other.field(), other.value());
    }
}

/// After a batch was written, what is read under the key of one of its
/// entries is that entry's documents, sorted and each held once, unless a later
/// entry of the batch has the same key.
pub proof fn lemma_update_then_get(
    table: Map<Seq<u8>, Seq<u8>>,
    batch: Seq<(FacetKey, Vec<DocumentId>)>,
    n: int,
    i: int,
)
    requires
        0 <= i < n <= batch.len(),
        forall|j: int| i < j < n ==> (#[trigger] batch[j]).0.bytes() != batch[i].0.bytes(),
    ensures
        postings_at(updated(table, batch, n), batch[i].0.bytes()) == Ok::<
            Option<Seq<DocumentId>>,
            FacetError,
        >(Some(normalized(batch[i].1@))),
    decreases n,
{
    if i == n - 1 {
        lemma_normalized(batch[i].1@);
        lemma_postings_round_trip(normalized(batch[i].1@));
    } else {
        lemma_update_then_get(table, batch, n - 1, i);
        assert(batch[n - 1].0.bytes() != batch[i].0.bytes());
    }
}

/// The facet table, held in memory.
pub struct Facets {
    keys: Vec<Vec<u8>>,
    values: Vec<Vec<u8>>,
}

impl View for Facets {
    type V = Map<Seq<u8>, Seq<u8>>;

    open spec fn view(&self) -> Map<Seq<u8>, Seq<u8>> {
        Map::new(
            |key: Seq<u8>| self.keys().contains(key),
            |key: Seq<u8>| self.values()[self.keys().index_of(key)],
        )
    }
}

impl Facets {
    /// The keys of the records, in the order in which they were first written.
    pub closed spec fn keys(&self) -> Seq<Seq<u8>> {
        self.keys@.map_values(|k: Vec<u8>| k@)
    }

    /// The values of the records, each at the index of its key.
    pub closed spec fn values(&self) -> Seq<Seq<u8>> {
        self.values@.map_values(|v: Vec<u8>| v@)
    }

    /// Each key has one record.
    pub closed spec fn wf(&self) -> bool {
        self.keys().len() == self.values().len() && self.keys().no_duplicates()
    }

    /// What `wf` says, for those who cannot see inside the table: each key has
    /// one record.
    pub proof fn lemma_wf(&self)
        requires
            self.wf(),
        ensures
            self.keys().len() == self.values().len(),
            self.keys().no_duplicates(),
    {
    }

    /// The empty table: it holds no record, so nothing is read under any key.
    pub fn new() -> (table: Facets)
        ensures
            table.wf(),
            table.keys() == Seq::<Seq<u8>>::empty(),
            table.values() == Seq::<Seq<u8>>::empty(),
            table@ == Map::<Seq<u8>, Seq<u8>>::empty(),
    {
        let table = Facets { keys: Vec::new(), values: Vec::new() };
        assert(table.keys() =~= Seq::<Seq<u8>>::empty());
        assert(table.values() =~= Seq::<Seq<u8>>::empty());
        assert(table@ =~= Map::<Seq<u8>, Seq<u8>>::empty());
        table
    }

    /// How many records the table holds.
    pub fn len(&self) -> (n: usize)
        ensures
            n == self.keys().len(),
    {
        self.keys.len()
    }

    /// The record at `index`: its key and its value.
    pub fn record(&self, index: usize) -> (record: (&Vec<u8>, &Vec<u8>))
        requires
            self.wf(),
            index < self.keys().len(),
        ensures
            record.0@ == self.keys()[index as int],
            record.1@ == self.values()[index as int],
            self@.dom().contains(record.0@),
            self@[record.0@] == record.1@,
    {
        proof {
            let k = self.keys().index_of(self.keys()[index as int]);
            assert(self.keys()[k] == self.keys()[index as int]);
        }
        (&self.keys[index], &self.values[index])
    }

    fn find(&self, key: &Vec<u8>) -> (found: Option<usize>)
        requires
            self.wf(),
        ensures
            match found {
                Some(i) => i < self.keys().len() && self.keys()[i as int] == key@
                    && self.keys().index_of(key@) == i,
                None => !self.keys().contains(key@),
            },
    {
        let mut i: usize = 0;
        while i < self.keys.len()
            invariant
                i <= self.keys.len(),
                self.wf(),
                forall|j: int| 0 <= j < i ==> self.keys()[j] != key@,
            decreases self.keys.len() - i,
        {
            if same_bytes(&self.keys[i], key) {
                assert(self.keys()[i as int] == key@);
                let ghost k = self.keys().index_of(key@);
                assert(self.keys()[k] == key@);
                return Some(i);
            }
            i += 1;
        }
        None
    }

    /// Stores `value` under `key`, in place of what was stored there.
    pub fn put(&mut self, key: Vec<u8>, value: Vec<u8>)
        requires
            old(self).wf(),
        ensures
            final(self).wf(),
            final(self)@ == old(self)@.insert(key@, value@),
    {
        let ghost keys = self.keys();
        let ghost values = self.values();
        let ghost before = self@;
        match self.find(&key) {
            Some(i) => {
                self.values.set(i, value);
                assert(self.keys() == keys);
                assert(self.values() =~= values.update(i as int, value@));
                assert forall|k: Seq<u8>| keys.contains(k) implies #[trigger] self@[k]
                    == before.insert(key@, value@)[k] by {
                    let j = keys.index_of(k);
                    assert(keys[j] == k);
                }
                assert(self@ =~= before.insert(key@, value@));
            },
            None => {
                self.keys.push(key);
                self.values.push(value);
                assert(self.keys() =~= keys.push(key@));
                assert(self.values() =~= values.push(value@));
                assert forall|k: Seq<u8>| self.keys().contains(k) <==> keys.contains(k) || k
                    == key@ by {
                    vstd::seq_lib::lemma_seq_contains_after_push(keys, key@, k);
                }
                assert forall|k: Seq<u8>| self.keys().contains(k) implies #[trigger] self@[k]
                    == before.insert(key@, value@)[k] by {
                    let j = self.keys().index_of(k);
                    assert(self.keys()[j] == k);
                    if k != key@ {
                        assert(keys[j] == k);
                        assert(keys[keys.index_of(k)] == k);
                    } else {
                        assert(self.keys()[keys.len() as int] == key@);
                    }
                }
                assert(self@ =~= before.insert(key@, value@));
            },
        }
    }

    /// Files `doc_ids` under `facet_key`, in place of what was filed there.
    /// Fails, and changes nothing, where the key's value is too long.
    pub fn put_facets(&mut self, facet_key: &FacetKey, doc_ids: &Postings) -> (done: Result<
        (),
        FacetError,
    >)
        requires
            old(self).wf(),
        ensures
            final(self).wf(),
            facet_key.encodable() ==> done is Ok && final(self)@ == old(self)@.insert(
                facet_key.bytes(),
                postings_bytes(doc_ids@),
            ),
            !facet_key.encodable() ==> done == Err::<(), FacetError>(FacetError::ValueTooLong)
                && final(self)@ == old(self)@,
    {
        match FacetKey::bytes_encode(facet_key) {
            Some(key) => {
                self.put(key, doc_ids.to_bytes());
                Ok(())
            },
            None => Err(FacetError::ValueTooLong),
        }
    }

    /// The documents filed under `facet_key`, or `None` where none were filed.
    /// Fails where the key's value is too long, and where what is stored under
    /// the key is no postings.
    pub fn document_ids(&self, facet_key: &FacetKey) -> (found: Result<Option<Postings>, FacetError>)
        requires
            self.wf(),
        ensures
            !facet_key.encodable() ==> found matches Err(FacetError::ValueTooLong),
            facet_key.encodable() ==> match found {
                Ok(Some(postings)) => postings.wf() && postings_at(self@, facet_key.bytes()) == Ok::<
                    Option<Seq<DocumentId>>,
                    FacetError,
                >(Some(postings@)),
                Ok(None) => postings_at(self@, facet_key.bytes()) == Ok::<
                    Option<Seq<DocumentId>>,
                    FacetError,
                >(None),
                Err(error) => postings_at(self@, facet_key.bytes()) == Err::<
                    Option<Seq<DocumentId>>,
                    FacetError,
                >(error),
            },
    {
        match FacetKey::bytes_encode(facet_key) {
            Some(key) => {
                match self.find(&key) {
                    Some(i) => {
                        assert(self.values()[i as int] == self.values@[i as int]@);
                        match Postings::from_bytes(self.values[i].as_slice()) {
                            Some(postings) => Ok(Some(postings)),
                            None => Err(FacetError::Corrupted),
                        }
                    },
                    None => Ok(None),
                }
            },
            None => Err(FacetError::ValueTooLong),
        }
    }

    /// Files a batch: for each entry of `facet_map`, in turn, its documents,
    /// sorted and each held once, under its key. Fails, and changes nothing,
    /// where the value of one of the keys is too long.
    pub fn update(&mut self, facet_map: Vec<(FacetKey, Vec<DocumentId>)>) -> (done: Result<
        (),
        FacetError,
    >)
        requires
            old(self).wf(),
        ensures
            final(self).wf(),
            all_encodable(facet_map@, facet_map.len() as int) ==> done is Ok && final(self)@
                == updated(old(self)@, facet_map@, facet_map.len() as int),
            !all_encodable(facet_map@, facet_map.len() as int) ==> done == Err::<(), FacetError>(
                FacetError::ValueTooLong,
            ) && final(self)@ == old(self)@,
    {
        let ghost before = self@;
        let mut i: usize = 0;
        while i < facet_map.len()
            invariant
                i <= facet_map.len(),
                all_encodable(facet_map@, i as int),
                self.wf(),
                self@ == before,
            decreases facet_map.len() - i,
        {
            if !facet_map[i].0.is_encodable() {
                assert(!facet_map@[i as int].0.encodable());
                return Err(FacetError::ValueTooLong);
            }
            i += 1;
        }
        let mut k: usize = 0;
        while k < facet_map.len()
            invariant
                k <= facet_map.len(),
                all_encodable(facet_map@, facet_map.len() as int),
                self.wf(),
                self@ == updated(before, facet_map@, k as int),
            decreases facet_map.len() - k,
        {
            let postings = Postings::from_dirty(copy_of(&facet_map[k].1));
            assert(facet_map@[k as int].0.encodable());
            let done = self.put_facets(&facet_map[k].0, &postings);
            assert(done is Ok);
            k += 1;
        }
        Ok(())
    }
}

} // verus!
