//! Facet filters: the expression a client sends, read into terms.
//!
//! A filter is written as a JSON array. Each element is a term, `"field:value"`,
//! or an array of terms. A document passes the filter where it passes every
//! element; it passes an array of terms where it passes one of them.

use vstd::prelude::*;
use vstd::string::StringExecFns;
use serde_json::Value;
use crate::document::{
    error_text, json_debug, json_error_text, json_items, json_parse, json_text, parse_value,
    value_debug,
};
use crate::schema::{FieldId, Schema};
use crate::text::{chars_of, string_of};

verus! {

/// One element of a facet filter.
#[derive(Debug, PartialEq, Eq)]
pub enum FacetFilterElement {
    /// The document must carry this value of this field.
    Term((FieldId, String)),
    /// The document must carry one of these values.
    Group(Vec<(FieldId, String)>),
}

/// A facet filter: a document passes it where it passes each element.
pub type FacetFilter = Vec<FacetFilterElement>;

/// Why an expression is no facet filter.
#[derive(Debug, PartialEq, Eq)]
pub enum FacetFilterError {
    /// The expression is no JSON; with the parser's message.
    InvalidJson(String),
    /// The expression is JSON, but no array; with what it is, as `Debug`
    /// prints it.
    ExpectedArray(String),
    /// An element of the filter is neither a string nor an array; with what it
    /// is.
    ExpectedStringOrArray(String),
    /// An element of an inner array is no string; with what it is.
    ExpectedString(String),
    /// A term has no colon, or nothing after its first colon; with the term.
    MalformedTerm(String),
    /// The schema has no field of the name before the colon; with that name.
    UnknownAttribute(String),
}

/// A term, as a field and the characters of a value.
pub type TermView = (FieldId, Seq<char>);

/// `FacetFilterElement`, with sequences in place of strings and vectors.
pub enum ElementView {
    Term(TermView),
    Group(Seq<TermView>),
}

/// `FacetFilterError`, with sequences in place of strings.
pub enum ErrorView {
    InvalidJson(Seq<char>),
    ExpectedArray(Seq<char>),
    ExpectedStringOrArray(Seq<char>),
    ExpectedString(Seq<char>),
    MalformedTerm(Seq<char>),
    UnknownAttribute(Seq<char>),
}

/// A term, with the characters of its value.
pub open spec fn term_view(term: (FieldId, String)) -> TermView {
    (term.0, term.1@)
}

/// The terms of a group, each with the characters of its value.
pub open spec fn terms_view(terms: Seq<(FieldId, String)>) -> Seq<TermView> {
    terms.map_values(|t: (FieldId, String)| term_view(t))
}

impl View for FacetFilterElement {
    type V = ElementView;

    open spec fn view(&self) -> ElementView {
        match self {
            FacetFilterElement::Term(term) => ElementView::Term(term_view(*term)),
            FacetFilterElement::Group(terms) => ElementView::Group(terms_view(terms@)),
        }
    }
}

impl View for FacetFilterError {
    type V = ErrorView;

    open spec fn view(&self) -> ErrorView {
        match self {
            FacetFilterError::InvalidJson(message) => ErrorView::InvalidJson(message@),
            FacetFilterError::ExpectedArray(found) => ErrorView::ExpectedArray(found@),
            FacetFilterError::ExpectedStringOrArray(found) => ErrorView::ExpectedStringOrArray(
                found@,
            ),
            FacetFilterError::ExpectedString(found) => ErrorView::ExpectedString(found@),
            FacetFilterError::MalformedTerm(term) => ErrorView::MalformedTerm(term@),
            FacetFilterError::UnknownAttribute(name) => ErrorView::UnknownAttribute(name@),
        }
    }
}

/// What an error says to the client who sent the expression.
pub open spec fn message_of(error: FacetFilterError) -> Seq<char> {
    match error {
        FacetFilterError::InvalidJson(message) => message@,
        FacetFilterError::ExpectedArray(found) => "expected Array, found: "@ + found@,
        FacetFilterError::ExpectedStringOrArray(found) => "expected String or Array, found: "@
            + found@,
        FacetFilterError::ExpectedString(found) => "expected String, found: "@ + found@,
        FacetFilterError::MalformedTerm(term) => "invalid facet: "@ + term@
            + ", facets should be \"facetName:facetvalue\""@,
        FacetFilterError::UnknownAttribute(name) => "could not find attribute \""@ + name@
            + "\" in index"@,
    }
}

impl FacetFilterError {
    /// The error in words, for the client who sent the expression.
    pub fn message(&self) -> (message: String)
        ensures
            message@ == message_of(*self),
    {
        match self {
            FacetFilterError::InvalidJson(message) => message.clone(),
            FacetFilterError::ExpectedArray(found) => {
                let mut message = String::from_str("expected Array, found: ");
                message.append(found.as_str());
                message
            },
            FacetFilterError::ExpectedStringOrArray(found) => {
                let mut message = String::from_str("expected String or Array, found: ");
                message.append(found.as_str());
                message
            },
            FacetFilterError::ExpectedString(found) => {
                let mut message = String::from_str("expected String, found: ");
                message.append(found.as_str());
                message
            },
            FacetFilterError::MalformedTerm(term) => {
                let mut message = String::from_str("invalid facet: ");
                message.append(term.as_str());
                message.append(", facets should be \"facetName:facetvalue\"");
                message
            },
            FacetFilterError::UnknownAttribute(name) => {
                let mut message = String::from_str("could not find attribute \"");
                message.append(name.as_str());
                message.append("\" in index");
                message
            },
        }
    }
}

/// The elements of a filter, each by its view.
pub open spec fn filter_view(filter: Seq<FacetFilterElement>) -> Seq<ElementView> {
    filter.map_values(|e: FacetFilterElement| e@)
}

/// The first index from `from` on at which `text` holds a colon, or the
/// length of `text`.
pub open spec fn colon_from(text: Seq<char>, from: int) -> int
    decreases text.len() - from,
{
    if 0 <= from < text.len() && text[from] != ':' {
        colon_from(text, from + 1)
    } else {
        from
    }
}

/// What the term `term` asks for.
///
/// The term is cut at its first colon into a field name and a value. It is
/// malformed where it has no colon; it names an unknown attribute where the
/// schema has no field of that name; it is malformed again where the value is
/// empty.
pub open spec fn parsed_term(term: Seq<char>, schema: &Schema) -> Result<TermView, ErrorView> {
    let colon = colon_from(term, 0);
    if colon >= term.len() {
        Err(ErrorView::MalformedTerm(term))
    } else {
        let name = term.subrange(0, colon);
        match schema.field_id(name) {
            None => Err(ErrorView::UnknownAttribute(name)),
            Some(id) => if colon + 1 == term.len() {
                Err(ErrorView::MalformedTerm(term))
            } else {
                Ok((id, term.subrange(colon + 1, term.len() as int)))
            },
        }
    }
}

/// What the first `n` items of an inner array ask for: their terms, or the
/// error of the first item that is no string or no term.
pub open spec fn parsed_group(items: Seq<Value>, schema: &Schema, n: int) -> Result<
    Seq<TermView>,
    ErrorView,
>
    decreases n,
{
    if n <= 0 {
        Ok(Seq::empty())
    } else {
        match parsed_group(items, schema, n - 1) {
            Err(error) => Err(error),
            Ok(terms) => match json_text(items[n - 1]) {
                None => Err(ErrorView::ExpectedString(json_debug(items[n - 1]))),
                Some(text) => match parsed_term(text, schema) {
                    Err(error) => Err(error),
                    Ok(term) => Ok(terms.push(term)),
                },
            },
        }
    }
}

/// What one element of a filter asks for.
pub open spec fn parsed_element(item: Value, schema: &Schema) -> Result<ElementView, ErrorView> {
    match json_text(item) {
        Some(text) => match parsed_term(text, schema) {
            Err(error) => Err(error),
            Ok(term) => Ok(ElementView::Term(term)),
        },
        None => match json_items(item) {
            None => Err(ErrorView::ExpectedStringOrArray(json_debug(item))),
            Some(inner) => match parsed_group(inner, schema, inner.len() as int) {
                Err(error) => Err(error),
                Ok(terms) => Ok(ElementView::Group(terms)),
            },
        },
    }
}

/// What the first `n` elements of a filter ask for: their elements, or the
/// error of the first that is none.
pub open spec fn parsed_elements(items: Seq<Value>, schema: &Schema, n: int) -> Result<
    Seq<ElementView>,
    ErrorView,
>
    decreases n,
{
    if n <= 0 {
        Ok(Seq::empty())
    } else {
        match parsed_elements(items, schema, n - 1) {
            Err(error) => Err(error),
            Ok(elements) => match parsed_element(items[n - 1], schema) {
                Err(error) => Err(error),
                Ok(element) => Ok(elements.push(element)),
            },
        }
    }
}

/// The facet filter that the JSON value `value` writes down.
pub open spec fn parsed_filter(value: Value, schema: &Schema) -> Result<Seq<ElementView>, ErrorView> {
    match json_items(value) {
        None => Err(ErrorView::ExpectedArray(json_debug(value))),
        Some(items) => parsed_elements(items, schema, items.len() as int),
    }
}

/// The facet filter that the expression `expr` writes down.
pub open spec fn parsed_expression(expr: Seq<char>, schema: &Schema) -> Result<
    Seq<ElementView>,
    ErrorView,
> {
    match json_parse(expr) {
        Err(error) => Err(ErrorView::InvalidJson(json_error_text(error))),
        Ok(value) => parsed_filter(value, schema),
    }
}

/// A result, with views in place of the filter and the error.
pub open spec fn outcome(result: Result<FacetFilter, FacetFilterError>) -> Result<
    Seq<ElementView>,
    ErrorView,
> {
    match result {
        Ok(filter) => Ok(filter_view(filter@)),
        Err(error) => Err(error@),
    }
}

/// Reads one term, `field:value`.
///
/// Fails with `MalformedTerm` where the term has no colon, with
/// `UnknownAttribute` where the schema has no field of the name before the
/// first colon, and with `MalformedTerm` where nothing follows that colon.
pub fn parse_term(term: &str, schema: &Schema) -> (parsed: Result<
    (FieldId, String),
    FacetFilterError,
>)
    requires
        schema.wf(),
    ensures
        match parsed {
            Ok(t) => parsed_term(term@, schema) == Ok::<TermView, ErrorView>(term_view(t)),
            Err(error) => parsed_term(term@, schema) == Err::<TermView, ErrorView>(error@),
        },
{
    let chars = chars_of(term);
    let mut colon: usize = 0;
    while colon < chars.len() && chars[colon] != ':'
        invariant
            colon <= chars.len(),
            colon_from(chars@, 0) == colon_from(chars@, colon as int),
        decreases chars.len() - colon,
    {
        colon += 1;
    }
    assert(colon_from(chars@, colon as int) == colon);
    assert(chars@.subrange(0, chars.len() as int) =~= term@);
    if colon >= chars.len() {
        return Err(FacetFilterError::MalformedTerm(string_of(&chars, 0, chars.len())));
    }
    let name = string_of(&chars, 0, colon);
    match schema.id(name.as_str()) {
        None => Err(FacetFilterError::UnknownAttribute(name)),
        Some(id) => {
            if colon + 1 == chars.len() {
                Err(FacetFilterError::MalformedTerm(string_of(&chars, 0, chars.len())))
            } else {
                Ok((id, string_of(&chars, colon + 1, chars.len())))
            }
        },
    }
}

fn parse_group(items: &Vec<Value>, schema: &Schema) -> (parsed: Result<
    Vec<(FieldId, String)>,
    FacetFilterError,
>)
    requires
        schema.wf(),
    ensures
        match parsed {
            Ok(terms) => parsed_group(items@, schema, items.len() as int) == Ok::<
                Seq<TermView>,
                ErrorView,
            >(terms_view(terms@)),
            Err(error) => parsed_group(items@, schema, items.len() as int) == Err::<
                Seq<TermView>,
                ErrorView,
            >(error@),
        },
{
    let mut terms: Vec<(FieldId, String)> = Vec::new();
    let mut i: usize = 0;
    assert(terms_view(terms@) =~= Seq::<TermView>::empty());
    while i < items.len()
        invariant
            i <= items.len(),
            schema.wf(),
            parsed_group(items@, schema, i as int) == Ok::<Seq<TermView>, ErrorView>(
                terms_view(terms@),
            ),
        decreases items.len() - i,
    {
        match items[i].as_str() {
            None => {
                proof {
                    assert(parsed_group(items@, schema, i + 1) == Err::<Seq<TermView>, ErrorView>(
                        ErrorView::ExpectedString(json_debug(items@[i as int])),
                    ));
                    lemma_group_error_stays(items@, schema, i + 1, items.len() as int);
                }
                return Err(FacetFilterError::ExpectedString(value_debug(&items[i])));
            },
            Some(text) => {
                match parse_term(text, schema) {
                    Err(error) => {
                        proof {
                            assert(parsed_group(items@, schema, i + 1) == Err::<
                                Seq<TermView>,
                                ErrorView,
                            >(error@));
                            lemma_group_error_stays(items@, schema, i + 1, items.len() as int);
                        }
                        return Err(error);
                    },
                    Ok(term) => {
                        let ghost before = terms@;
                        terms.push(term);
                        assert(terms_view(terms@) =~= terms_view(before).push(term_view(term)));
                    },
                }
            },
        }
        i += 1;
    }
    Ok(terms)
}

/// Once an item of an inner array fails, the array fails with that error.
proof fn lemma_group_error_stays(items: Seq<Value>, schema: &Schema, n: int, m: int)
    requires
        n <= m,
        parsed_group(items, schema, n) is Err,
    ensures
        parsed_group(items, schema, m) == parsed_group(items, schema, n),
    decreases m - n,
{
    if n < m {
        lemma_group_error_stays(items, schema, n, m - 1);
    }
}

/// Once an element of a filter fails, the filter fails with that error.
proof fn lemma_elements_error_stays(items: Seq<Value>, schema: &Schema, n: int, m: int)
    requires
        n <= m,
        parsed_elements(items, schema, n) is Err,
    ensures
        parsed_elements(items, schema, m) == parsed_elements(items, schema, n),
    decreases m - n,
{
    if n < m {
        lemma_elements_error_stays(items, schema, n, m - 1);
    }
}

fn parse_element(item: &Value, schema: &Schema) -> (parsed: Result<
    FacetFilterElement,
    FacetFilterError,
>)
    requires
        schema.wf(),
    ensures
        match parsed {
            Ok(element) => parsed_element(*item, schema) == Ok::<ElementView, ErrorView>(element@),
            Err(error) => parsed_element(*item, schema) == Err::<ElementView, ErrorView>(error@),
        },
{
    match item.as_str() {
        Some(text) => match parse_term(text, schema) {
            Err(error) => Err(error),
            Ok(term) => Ok(FacetFilterElement::Term(term)),
        },
        None => match item.as_array() {
            None => Err(FacetFilterError::ExpectedStringOrArray(value_debug(item))),
            Some(inner) => match parse_group(inner, schema) {
                Err(error) => Err(error),
                Ok(terms) => Ok(FacetFilterElement::Group(terms)),
            },
        },
    }
}

/// Reads a facet filter from a JSON value.
///
/// The value must be an array. Each of its elements must be a term, or an
/// array of terms. The first element that is neither, or that holds what is no
/// term, decides the error.
pub fn facet_filter_from_value(value: &Value, schema: &Schema) -> (parsed: Result<
    FacetFilter,
    FacetFilterError,
>)
    requires
        schema.wf(),
    ensures
        outcome(parsed) == parsed_filter(*value, schema),
{
    match value.as_array() {
        None => Err(FacetFilterError::ExpectedArray(value_debug(value))),
        Some(items) => {
            let mut filter: Vec<FacetFilterElement> = Vec::new();
            let mut i: usize = 0;
            assert(filter_view(filter@) =~= Seq::<ElementView>::empty());
            while i < items.len()
                invariant
                    i <= items.len(),
                    schema.wf(),
                    json_items(*value) == Some(items@),
                    parsed_elements(items@, schema, i as int) == Ok::<Seq<ElementView>, ErrorView>(
                        filter_view(filter@),
                    ),
                decreases items.len() - i,
            {
                match parse_element(&items[i], schema) {
                    Err(error) => {
                        proof {
                            assert(parsed_elements(items@, schema, i + 1) == Err::<
                                Seq<ElementView>,
                                ErrorView,
                            >(error@));
                            lemma_elements_error_stays(
                                items@,
                                schema,
                                i + 1,
                                items.len() as int,
                            );
                        }
                        return Err(error);
                    },
                    Ok(element) => {
                        let ghost before = filter@;
                        let ghost added = element@;
                        filter.push(element);
                        assert(filter_view(filter@) =~= filter_view(before).push(added));
                    },
                }
                i += 1;
            }
            Ok(filter)
        },
    }
}

/// Reads a facet filter from the expression a client sent.
///
/// The expression must be JSON, and then what `facet_filter_from_value` asks
/// for: `["a:1", "b:2"]` asks for both, `[["a:1", "a:2"]]` for one of the two.
pub fn parse_facet_filters(expr: &str, schema: &Schema) -> (parsed: Result<
    FacetFilter,
    FacetFilterError,
>)
    requires
        schema.wf(),
    ensures
        outcome(parsed) == parsed_expression(expr@, schema),
{
    match parse_value(expr) {
        Err(error) => Err(FacetFilterError::InvalidJson(error_text(&error))),
        Ok(value) => facet_filter_from_value(&value, schema),
    }
}

/// The characters of each name.
pub open spec fn names_view(names: Seq<String>) -> Seq<Seq<char>> {
    names.map_values(|name: String| name@)
}

/// The names that the first `n` items of a list of facets are, or the error
/// of the first item that is no string.
pub open spec fn facet_names_upto(items: Seq<Value>, n: int) -> Result<Seq<Seq<char>>, ErrorView>
    decreases n,
{
    if n <= 0 {
        Ok(Seq::empty())
    } else {
        match facet_names_upto(items, n - 1) {
            Err(error) => Err(error),
            Ok(names) => match json_text(items[n - 1]) {
                None => Err(ErrorView::ExpectedString(json_debug(items[n - 1]))),
                Some(name) => Ok(names.push(name)),
            },
        }
    }
}

/// The facets that the expression `expr` lists: it must be JSON, an array,
/// and each item of the array a string, which is taken as a field name.
pub open spec fn parsed_facets(expr: Seq<char>) -> Result<Seq<Seq<char>>, ErrorView> {
    match json_parse(expr) {
        Err(error) => Err(ErrorView::InvalidJson(json_error_text(error))),
        Ok(value) => match json_items(value) {
            None => Err(ErrorView::ExpectedArray(json_debug(value))),
            Some(items) => facet_names_upto(items, items.len() as int),
        },
    }
}

/// Once an item of a list of facets fails, the list fails with that error.
proof fn lemma_facet_names_error_stays(items: Seq<Value>, n: int, m: int)
    requires
        n <= m,
        facet_names_upto(items, n) is Err,
    ensures
        facet_names_upto(items, m) == facet_names_upto(items, n),
    decreases m - n,
{
    if n < m {
        lemma_facet_names_error_stays(items, n, m - 1);
    }
}

/// Reads the list of facets that a client asks the distribution of: a JSON
/// array of field names.
pub fn parse_facets(expr: &str) -> (parsed: Result<Vec<String>, FacetFilterError>)
    ensures
        match parsed {
            Ok(names) => parsed_facets(expr@) == Ok::<Seq<Seq<char>>, ErrorView>(
                names_view(names@),
            ),
            Err(error) => parsed_facets(expr@) == Err::<Seq<Seq<char>>, ErrorView>(error@),
        },
{
    match parse_value(expr) {
        Err(error) => Err(FacetFilterError::InvalidJson(error_text(&error))),
        Ok(value) => match value.as_array() {
            None => Err(FacetFilterError::ExpectedArray(value_debug(&value))),
            Some(items) => {
                let mut names: Vec<String> = Vec::new();
                let mut i: usize = 0;
                assert(names_view(names@) =~= Seq::<Seq<char>>::empty());
                while i < items.len()
                    invariant
                        i <= items.len(),
                        json_parse(expr@) == Ok::<Value, serde_json::Error>(value),
                        json_items(value) == Some(items@),
                        facet_names_upto(items@, i as int) == Ok::<Seq<Seq<char>>, ErrorView>(
                            names_view(names@),
                        ),
                    decreases items.len() - i,
                {
                    match items[i].as_str() {
                        None => {
                            proof {
                                assert(facet_names_upto(items@, i + 1) == Err::<
                                    Seq<Seq<char>>,
                                    ErrorView,
                                >(ErrorView::ExpectedString(json_debug(items@[i as int]))));
                                lemma_facet_names_error_stays(items@, i + 1, items.len() as int);
                            }
                            return Err(FacetFilterError::ExpectedString(value_debug(&items[i])));
                        },
                        Some(name) => {
                            let ghost before = names@;
                            names.push(name.to_owned());
                            assert(names_view(names@) =~= names_view(before).push(name@));
                        },
                    }
                    i += 1;
                }
                Ok(names)
            },
        },
    }
}

} // verus!
