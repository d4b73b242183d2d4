//! Write commands as they reach a server from the log that orders them, and
//! what each asks for.

use vstd::prelude::*;
use indexmap::IndexMap;
use serde_json::Value;
use crate::document::{
    document_entries, error_text, json_error_text, json_items, json_parse, parse_value,
};

verus! {

/// What the creation of an index is asked with.
#[derive(Clone, Debug, PartialEq, Eq)]
pub struct IndexCreateRequest {
    pub name: Option<String>,
    pub uid: Option<String>,
    pub primary_key: Option<String>,
}

/// A write command, as the log hands it on.
#[derive(Debug, PartialEq, Eq)]
pub enum Message {
    /// Documents to add to an index; `addition` is their JSON text, an array
    /// of objects. A partial addition updates the fields named and keeps the
    /// others.
    DocumentAddition { index: String, addition: String, partial: bool },
    /// An index to create.
    IndexCreation { data: IndexCreateRequest },
}

/// What a write command asks for, ready to be carried out.
#[derive(Debug)]
pub enum Command {
    AddDocuments { index: String, documents: Vec<IndexMap<String, Value>>, partial: bool },
    CreateIndex { data: IndexCreateRequest },
}

/// Why a message asks for nothing that can be carried out.
#[derive(Debug, PartialEq, Eq)]
pub enum MessageError {
    /// The addition is no JSON; with the parser's message.
    InvalidJson(String),
    /// The addition is JSON, but no array.
    ExpectedArray,
    /// An item of the addition is no object.
    ExpectedObject,
}

/// `MessageError`, with sequences in place of strings.
pub enum MessageErrorView {
    InvalidJson(Seq<char>),
    ExpectedArray,
    ExpectedObject,
}

impl View for MessageError {
    type V = MessageErrorView;

    open spec fn view(&self) -> MessageErrorView {
        match self {
            MessageError::InvalidJson(message) => MessageErrorView::InvalidJson(message@),
            MessageError::ExpectedArray => MessageErrorView::ExpectedArray,
            MessageError::ExpectedObject => MessageErrorView::ExpectedObject,
        }
    }
}

/// The fields of a JSON object, in the order in which the object hands them
/// out; `None` for every other JSON value.
pub uninterp spec fn json_fields(value: Value) -> Option<Seq<(Seq<char>, Value)>>;

/// `Value::as_object` hands out the map of a JSON object and nothing for any
/// other value; the document made of it holds the map's entries, cloned, in
/// the order of the map's `iter`.
#[verifier::external_body]
fn object_document(value: &Value) -> (document: Option<IndexMap<String, Value>>)
    ensures
        match document {
            Some(fields) => json_fields(*value) == Some(document_entries(fields)),
            None => json_fields(*value) is None,
        },
{
    value.as_object().map(|object| object.iter().map(|(k, v)| (k.clone(), v.clone())).collect())
}

/// The entries of each document.
pub open spec fn entries_of(documents: Seq<IndexMap<String, Value>>) -> Seq<Seq<(Seq<char>, Value)>> {
    documents.map_values(|d: IndexMap<String, Value>| document_entries(d))
}

/// The documents that the first `n` items of an addition are, or `None` where
/// one of them is no object.
pub open spec fn documents_upto(items: Seq<Value>, n: int) -> Option<Seq<Seq<(Seq<char>, Value)>>>
    decreases n,
{
    if n <= 0 {
        Some(Seq::empty())
    } else {
        match documents_upto(items, n - 1) {
            None => None,
            Some(documents) => match json_fields(items[n - 1]) {
                None => None,
                Some(fields) => Some(documents.push(fields)),
            },
        }
    }
}

/// The documents that the text `addition` holds: it must be JSON, an array,
/// and each item of the array an object.
pub open spec fn added_documents(addition: Seq<char>) -> Result<
    Seq<Seq<(Seq<char>, Value)>>,
    MessageErrorView,
> {
    match json_parse(addition) {
        Err(error) => Err(MessageErrorView::InvalidJson(json_error_text(error))),
        Ok(value) => match json_items(value) {
            None => Err(MessageErrorView::ExpectedArray),
            Some(items) => match documents_upto(items, items.len() as int) {
                None => Err(MessageErrorView::ExpectedObject),
                Some(documents) => Ok(documents),
            },
        },
    }
}

/// Once an item is no object, the addition holds no documents.
proof fn lemma_no_documents_stays(items: Seq<Value>, n: int, m: int)
    requires
        n <= m,
        documents_upto(items, n) is None,
    ensures
        documents_upto(items, m) is None,
    decreases m - n,
{
    if n < m {
        lemma_no_documents_stays(items, n, m - 1);
    }
}

/// The documents that the text `addition` holds.
pub fn documents_of_addition(addition: &str) -> (documents: Result<
    Vec<IndexMap<String, Value>>,
    MessageError,
>)
    ensures
        match documents {
            Ok(found) => added_documents(addition@) == Ok::<
                Seq<Seq<(Seq<char>, Value)>>,
                MessageErrorView,
            >(entries_of(found@)),
            Err(error) => added_documents(addition@) == Err::<
                Seq<Seq<(Seq<char>, Value)>>,
                MessageErrorView,
            >(error@),
        },
{
    match parse_value(addition) {
        Err(error) => Err(MessageError::InvalidJson(error_text(&error))),
        Ok(value) => match value.as_array() {
            None => Err(MessageError::ExpectedArray),
            Some(items) => {
                let mut documents: Vec<IndexMap<String, Value>> = Vec::new();
                let mut i: usize = 0;
                assert(entries_of(documents@) =~= Seq::<Seq<(Seq<char>, Value)>>::empty());
                while i < items.len()
                    invariant
                        i <= items.len(),
                        json_parse(addition@) == Ok::<Value, serde_json::Error>(value),
                        json_items(value) == Some(items@),
                        documents_upto(items@, i as int) == Some(entries_of(documents@)),
                    decreases items.len() - i,
                {
                    match object_document(&items[i]) {
                        None => {
                            proof {
                                assert(documents_upto(items@, i + 1) is None);
                                lemma_no_documents_stays(items@, i + 1, items.len() as int);
                            }
                            return Err(MessageError::ExpectedObject);
                        },
                        Some(document) => {
                            let ghost before = documents@;
                            let ghost fields = document_entries(document);
                            documents.push(document);
                            assert(entries_of(documents@) =~= entries_of(before).push(fields));
                        },
                    }
                    i += 1;
                }
                Ok(documents)
            },
        },
    }
}

/// What `message` asks for.
///
/// The creation of an index is handed on as it is. An addition of documents is
/// handed on with its documents read from their text, and fails where the text
/// is no JSON array of objects.
pub fn apply(message: Message) -> (command: Result<Command, MessageError>)
    ensures
        match message {
            Message::IndexCreation { data } => command matches Ok(Command::CreateIndex { data: asked })
                && asked == data,
            Message::DocumentAddition { index, addition, partial } => match command {
                Ok(Command::AddDocuments { index: into, documents, partial: merge }) => {
                    &&& into == index
                    &&& merge == partial
                    &&& added_documents(addition@) == Ok::<
                        Seq<Seq<(Seq<char>, Value)>>,
                        MessageErrorView,
                    >(entries_of(documents@))
                },
                Ok(Command::CreateIndex { .. }) => false,
                Err(error) => added_documents(addition@) == Err::<
                    Seq<Seq<(Seq<char>, Value)>>,
                    MessageErrorView,
                >(error@),
            },
        },
{
    match message {
        Message::IndexCreation { data } => Ok(Command::CreateIndex { data }),
        Message::DocumentAddition { index, addition, partial } => {
            match documents_of_addition(addition.as_str()) {
                Ok(documents) => Ok(Command::AddDocuments { index, documents, partial }),
                Err(error) => Err(error),
            }
        },
    }
}

} // verus!
