//! Facet postings and search-result enrichment for a full-text search engine.
//!
//! The crate stores nothing and ranks nothing itself. It encodes facet keys and
//! postings for a key-value engine, reads facet filters and search requests,
//! and turns the documents that a ranking engine found into hits with cropped
//! and highlighted fields.
//!
//! - `facets`, `postings`: the facet table, its keys and its values.
//! - `facet_filter`: facet filter expressions.
//! - `crop`, `emphasis`, `matches`: cropping, highlighting, match positions.
//! - `search`, `criteria`, `query`, `distinct`: what a search asks for, and
//!   what it answers.
//! - `schema`, `names`, `document`, `text`, `highlight`: the fields of an index,
//!   sets and maps of field names, documents, characters, match spans.
//! - `sequences`: what the sorting in the other modules rests on.
//! - `message`, `api_keys`: write commands and client keys.

pub mod api_keys;
pub mod criteria;
pub mod crop;
pub mod distinct;
pub mod document;
pub mod emphasis;
pub mod facet_filter;
pub mod facets;
pub mod highlight;
pub mod matches;
pub mod message;
pub mod names;
pub mod postings;
pub mod query;
pub mod schema;
pub mod search;
pub mod sequences;
pub mod text;
