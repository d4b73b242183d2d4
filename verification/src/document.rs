//! Documents as the index hands them out: ordered maps from field names to
//! JSON values, held in `indexmap::IndexMap` and `serde_json::Value`.
//!
//! Both types are opaque here. What a document holds is named by
//! `document_entries`; what a value is, as far as this crate reads it, by
//! `json_text` and `json_items`. The functions below are the only places where
//! the two crates are called, and their contracts are taken on trust.

use vstd::prelude::*;
use indexmap::IndexMap;
use serde_json::Value;
use crate::names::NameSet;

verus! {

/// `indexmap::IndexMap`, taken as it is: nothing inside it is seen here.
#[verifier::external_type_specification]
#[verifier::external_body]
#[verifier::reject_recursive_types(K)]
#[verifier::reject_recursive_types(V)]
#[verifier::reject_recursive_types(S)]
pub struct ExIndexMap<K, V, S>(IndexMap<K, V, S>);

/// `serde_json::Value`, taken as it is: nothing inside it is seen here.
#[verifier::external_type_specification]
#[verifier::external_body]
pub struct ExValue(Value);

/// `serde_json::Error`, taken as it is: nothing inside it is seen here.
#[verifier::external_type_specification]
#[verifier::external_body]
pub struct ExJsonError(serde_json::Error);

/// The entries of a document in their order: each field's name and value.
pub uninterp spec fn document_entries(document: IndexMap<String, Value>) -> Seq<(Seq<char>, Value)>;

/// The characters of a JSON string; `None` for every other JSON value.
pub uninterp spec fn json_text(value: Value) -> Option<Seq<char>>;

/// The items of a JSON array; `None` for every other JSON value.
pub uninterp spec fn json_items(value: Value) -> Option<Seq<Value>>;

/// The JSON string that holds `text`.
pub uninterp spec fn json_string(text: Seq<char>) -> Value;

/// What the parser makes of `text`: the JSON value that `text` denotes, or
/// the error with which it refuses a text that is no JSON.
pub uninterp spec fn json_parse(text: Seq<char>) -> Result<Value, serde_json::Error>;

/// The message that a parser's error prints.
pub uninterp spec fn json_error_text(error: serde_json::Error) -> Seq<char>;

/// What `Debug` prints for a JSON value: the name of its kind and what it
/// holds, as in `Number(3)`.
pub uninterp spec fn json_debug(value: Value) -> Seq<char>;


/// The field names of `entries`, in order.
pub open spec fn entry_names(entries: Seq<(Seq<char>, Value)>) -> Seq<Seq<char>> {
    entries.map_values(|e: (Seq<char>, Value)| e.0)
}

/// `entries` after `name` was given `value`: in place where an entry has that
/// name, else as a new last entry.
pub open spec fn entries_with(entries: Seq<(Seq<char>, Value)>, name: Seq<char>, value: Value) -> Seq<
    (Seq<char>, Value),
> {
    if entry_names(entries).contains(name) {
        entries.update(entry_names(entries).index_of(name), (name, value))
    } else {
        entries.push((name, value))
    }
}

/// `Value::as_str` hands out the string of a JSON string and nothing for any
/// other value.
pub assume_specification[ Value::as_str ](value: &Value) -> (text: Option<&str>)
    ensures
        match text {
            Some(t) => json_text(*value) == Some(t@),
            None => json_text(*value) is None,
        },
;

/// `Value::as_array` hands out the items of a JSON array and nothing for any
/// other value.
pub assume_specification[ Value::as_array ](value: &Value) -> (items: Option<&Vec<Value>>)
    ensures
        match items {
            Some(v) => json_items(*value) == Some(v@),
            None => json_items(*value) is None,
        },
;

/// The clone of a JSON value is that value.
pub assume_specification[ <Value as Clone>::clone ](value: &Value) -> (copy: Value)
    ensures
        copy == *value,
;

/// `Value::from` on a `String` makes the JSON string of these characters,
/// which `as_str` reads back.
#[verifier::external_body]
pub(crate) fn text_value(text: String) -> (value: Value)
    ensures
        value == json_string(text@),
        json_text(value) == Some(text@),
{
    Value::from(text)
}

/// `serde_json::from_str` reads one JSON value from the whole of `text`, or
/// fails; which of the two, the value and the error depend on `text` alone.
#[verifier::external_body]
pub(crate) fn parse_value(text: &str) -> (parsed: Result<Value, serde_json::Error>)
    ensures
        parsed == json_parse(text@),
{
    serde_json::from_str::<Value>(text)
}

/// `serde_json::Error` prints itself through `Display`: what went wrong, and
/// the line and column where it did. The text depends on the error alone.
#[verifier::external_body]
pub(crate) fn error_text(error: &serde_json::Error) -> (text: String)
    ensures
        text@ == json_error_text(*error),
{
    error.to_string()
}

/// `serde_json::Value` prints itself through `Debug`; the text depends on the
/// value alone.
#[verifier::external_body]
pub(crate) fn value_debug(value: &Value) -> (text: String)
    ensures
        text@ == json_debug(*value),
{
    format!("{:?}", value)
}

/// `IndexMap::new` makes a map without entries.
#[verifier::external_body]
pub(crate) fn new_document() -> (document: IndexMap<String, Value>)
    ensures
        document_entries(document) == Seq::<(Seq<char>, Value)>::empty(),
{
    IndexMap::new()
}

/// `IndexMap::len` counts the entries.
#[verifier::external_body]
pub(crate) fn document_len(document: &IndexMap<String, Value>) -> (n: usize)
    ensures
        n == document_entries(*document).len(),
{
    document.len()
}

/// `IndexMap::get_index` hands out the entry at `index`, if the map has that
/// many. A map holds a key once, so no other entry has that entry's name.
#[verifier::external_body]
pub(crate) fn document_entry(document: &IndexMap<String, Value>, index: usize) -> (entry: Option<
    (&String, &Value),
>)
    ensures
        match entry {
            Some((name, value)) => {
                &&& index < document_entries(*document).len()
                &&& document_entries(*document)[index as int] == (name@, *value)
                &&& forall|j: int|
                    0 <= j < document_entries(*document).len() && j != index
                        ==> #[trigger] document_entries(*document)[j].0 != name@
            },
            None => index >= document_entries(*document).len(),
        },
{
    document.get_index(index)
}

/// `IndexMap::get` hands out the value stored for `name`. A map holds a key
/// once, so that value stands at the one index that has the name.
#[verifier::external_body]
pub(crate) fn document_value<'a>(document: &'a IndexMap<String, Value>, name: &str) -> (found:
    Option<&'a Value>)
    ensures
        match found {
            Some(value) => exists|i: int|
                {
                    &&& 0 <= i < document_entries(*document).len()
                    &&& #[trigger] document_entries(*document)[i] == (name@, *value)
                    &&& forall|j: int|
                        0 <= j < document_entries(*document).len() && j != i
                            ==> #[trigger] document_entries(*document)[j].0 != name@
                },
            None => forall|j: int|
                0 <= j < document_entries(*document).len() ==> #[trigger] document_entries(
                    *document,
                )[j].0 != name@,
        },
{
    document.get(name)
}

/// `IndexMap::insert` replaces the value of a key that the map holds, in its
/// place, and adds a key that it lacks as the last entry. It returns the value
/// replaced.
#[verifier::external_body]
pub(crate) fn document_insert(
    document: &mut IndexMap<String, Value>,
    name: String,
    value: Value,
) -> (replaced: Option<Value>)
    ensures
        document_entries(*final(document)) == entries_with(
            document_entries(*old(document)),
            name@,
            value,
        ),
        match replaced {
            Some(previous) => entry_names(document_entries(*old(document))).contains(name@)
                && document_entries(*old(document))[entry_names(
                document_entries(*old(document)),
            ).index_of(name@)].1 == previous,
            None => !entry_names(document_entries(*old(document))).contains(name@),
        },
{
    document.insert(name, value)
}

/// The clone of an `IndexMap` holds the same entries in the same order.
#[verifier::external_body]
pub(crate) fn document_clone(document: &IndexMap<String, Value>) -> (copy: IndexMap<String, Value>)
    ensures
        document_entries(copy) == document_entries(*document),
{
    document.clone()
}

/// The text of the field `name`, where the document has that field and its
/// value is a JSON string.
pub open spec fn field_text(entries: Seq<(Seq<char>, Value)>, name: Seq<char>) -> Option<Seq<char>> {
    if entry_names(entries).contains(name) {
        json_text(entries[entry_names(entries).index_of(name)].1)
    } else {
        None
    }
}

/// The text of the field `name`, where `document` has that field and its value
/// is a JSON string.
pub fn document_text<'a>(document: &'a IndexMap<String, Value>, name: &str) -> (text: Option<&'a str>)
    ensures
        match text {
            Some(t) => field_text(document_entries(*document), name@) == Some(t@),
            None => field_text(document_entries(*document), name@) is None,
        },
{
    let ghost entries = document_entries(*document);
    match document_value(document, name) {
        Some(value) => {
            proof {
                let i = choose|i: int|
                    {
                        &&& 0 <= i < entries.len()
                        &&& #[trigger] entries[i] == (name@, *value)
                        &&& forall|j: int|
                            0 <= j < entries.len() && j != i ==> #[trigger] entries[j].0 != name@
                    };
                assert(entry_names(entries)[i] == name@);
                let k = entry_names(entries).index_of(name@);
                assert(entry_names(entries)[k] == name@);
                assert(k == i);
            }
            value.as_str()
        },
        None => {
            proof {
                if entry_names(entries).contains(name@) {
                    let k = entry_names(entries).index_of(name@);
                    assert(entry_names(entries)[k] == name@);
                    assert(entries[k].0 == name@);
                }
            }
            None
        },
    }
}

/// The entries whose names `names` holds.
pub open spec fn named_in(names: Set<Seq<char>>) -> spec_fn((Seq<char>, Value)) -> bool {
    |entry: (Seq<char>, Value)| names.contains(entry.0)
}

/// A copy of `document` with the fields that `names` holds, in their order,
/// and no others.
pub fn retain_fields(document: &IndexMap<String, Value>, names: &NameSet) -> (kept: IndexMap<
    String,
    Value,
>)
    ensures
        document_entries(kept) == document_entries(*document).filter(named_in(names@)),
{
    let ghost entries = document_entries(*document);
    let ghost keep = named_in(names@);
    let mut kept = new_document();
    let count = document_len(document);
    let mut i: usize = 0;
    proof {
        assert(entries.take(0) =~= Seq::<(Seq<char>, Value)>::empty());
        reveal(Seq::filter);
    }
    while i < count
        invariant
            i <= count,
            count == entries.len(),
            entries == document_entries(*document),
            keep == named_in(names@),
            document_entries(kept) == entries.take(i as int).filter(keep),
        decreases count - i,
    {
        if let Some((name, value)) = document_entry(document, i) {
            proof {
                assert(entries.take(i + 1) =~= entries.take(i as int).push(entries[i as int]));
                entries.take(i as int).lemma_filter_push(entries[i as int], keep);
            }
            if names.contains(name.as_str()) {
                let ghost so_far = document_entries(kept);
                proof {
                    if entry_names(so_far).contains(name@) {
                        let at = entry_names(so_far).index_of(name@);
                        assert(entry_names(so_far)[at] == name@);
                        assert(so_far.contains(so_far[at]));
                        entries.take(i as int).lemma_filter_contains_rev(keep, so_far[at]);
                        let j = choose|j: int|
                            0 <= j < entries.take(i as int).len() && entries.take(i as int)[j]
                                == so_far[at];
                        assert(entries[j].0 == name@);
                    }
                }
                document_insert(&mut kept, name.clone(), value.clone());
            }
        }
        i += 1;
    }
    assert(entries.take(count as int) =~= entries);
    kept
}

} // verus!
