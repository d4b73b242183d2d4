//! Search requests as clients write them: lists of field names in one string,
//! read into what a search asks for.
//!
//! A list names its fields between commas. `*` stands for every field that the
//! request may hand out. In the list of fields to crop, a field may be followed
//! by a colon and the context to keep around its match, as in `title:10,*`.

use vstd::prelude::*;
use crate::facet_filter::{
    names_view, outcome, parse_facet_filters, parse_facets, parsed_expression, parsed_facets,
    ErrorView, FacetFilter, FacetFilterError,
};
use crate::names::{NameMap, NameSet};
use crate::schema::Schema;
use crate::search::SearchBuilder;
use crate::text::chars_of;

verus! {

/// The context kept around a match where the request names none.
pub const DEFAULT_CROP_LENGTH: usize = 200;

/// A search request, as it comes in the query of a URL.
pub struct SearchQuery {
    pub q: String,
    pub offset: Option<usize>,
    pub limit: Option<usize>,
    pub attributes_to_retrieve: Option<String>,
    pub attributes_to_crop: Option<String>,
    pub crop_length: Option<usize>,
    pub attributes_to_highlight: Option<String>,
    pub filters: Option<String>,
    pub matches: Option<bool>,
    pub facet_filters: Option<String>,
    /// The fields whose distribution over the hits is asked for, as a JSON
    /// array of names.
    pub facets: Option<String>,
}

/// What a request asks for: the search, the facet filter if it has one, and
/// the facets to count if it names any.
pub struct SearchRequest {
    pub builder: SearchBuilder,
    pub facet_filters: Option<FacetFilter>,
    pub facets: Option<Vec<String>>,
}

/// Whether `c` is one of the decimal digits `0` to `9`.
pub open spec fn decimal_digit(c: char) -> bool {
    0x30 <= c as u32 <= 0x39
}

/// The number that the digits `digits` write, the first digit counting most.
pub open spec fn digits_value(digits: Seq<char>) -> int
    decreases digits.len(),
{
    if digits.len() == 0 {
        0
    } else {
        10 * digits_value(digits.drop_last()) + (digits.last() as u32 - 0x30)
    }
}

/// `text` without the `+` that may stand before its digits.
pub open spec fn unsigned_digits(text: Seq<char>) -> Seq<char> {
    if text.len() > 0 && text[0] == '+' {
        text.subrange(1, text.len() as int)
    } else {
        text
    }
}

/// The number that `text` writes: decimal digits, at least one, with at most
/// a `+` before them and nothing else around them, for a number that `u64`
/// holds. Any other text writes none.
pub open spec fn decimal_u64(text: Seq<char>) -> Option<u64> {
    let digits = unsigned_digits(text);
    if digits.len() > 0 && (forall|i: int| 0 <= i < digits.len() ==> decimal_digit(#[trigger] digits[i]))
        && digits_value(digits) <= u64::MAX {
        Some(digits_value(digits) as u64)
    } else {
        None
    }
}

/// `str::parse` for `u64` reads decimal digits with an optional `+` before
/// them; it fails on an empty text, on a sign without digits, on any other
/// character, and on a number too large for `u64`.
#[verifier::external_body]
fn parse_u64(text: &str) -> (number: Option<u64>)
    ensures
        number == decimal_u64(text@),
{
    text.parse::<u64>().ok()
}

/// The name that stands for every field: `*`.
pub open spec fn star() -> Seq<char> {
    seq!['*']
}

/// The pieces of `text` between its separators. A text without separator is
/// one piece; a separator at an end leaves an empty piece there.
pub open spec fn split(text: Seq<char>, separator: char) -> Seq<Seq<char>>
    decreases text.len(),
{
    if text.len() == 0 {
        seq![Seq::empty()]
    } else {
        let before = split(text.drop_last(), separator);
        if text.last() == separator {
            before.push(Seq::empty())
        } else {
            before.drop_last().push(before.last().push(text.last()))
        }
    }
}

/// The characters of each string.
pub open spec fn texts(strings: Seq<String>) -> Seq<Seq<char>> {
    strings.map_values(|s: String| s@)
}

/// The length that a selector of fields to crop names after its colon, where
/// it names one that fits in `usize`.
pub open spec fn named_length(parts: Seq<Seq<char>>) -> Option<usize> {
    if parts.len() >= 2 {
        match decimal_u64(parts[1]) {
            Some(n) => if n <= usize::MAX {
                Some(n as usize)
            } else {
                None
            },
            None => None,
        }
    } else {
        None
    }
}

/// The fields that a request may hand out: those it names that may be shown,
/// or all that may be shown where it names none or names `*`.
pub open spec fn restricted_names(selector: Option<Seq<char>>, available: Set<Seq<char>>) -> Set<
    Seq<char>,
> {
    match selector {
        None => available,
        Some(list) => if split(list, ',').contains(star()) {
            available
        } else {
            split(list, ',').to_set().intersect(available)
        },
    }
}

/// The fields that the search is told to hand out: those the request names
/// that may be shown, if there is one and the request does not name `*`.
pub open spec fn retrieved_names(selector: Option<Seq<char>>, available: Set<Seq<char>>) -> Option<
    Set<Seq<char>>,
> {
    match selector {
        None => None,
        Some(list) => if split(list, ',').contains(star()) || split(list, ',').to_set().intersect(
            available,
        ) =~= Set::<Seq<char>>::empty() {
            None
        } else {
            Some(split(list, ',').to_set().intersect(available))
        },
    }
}

/// `lengths` after one selector of the list of fields to crop was read: `*`
/// gives its length to every restricted field; a field that may be shown gets
/// the length; any other selector is passed over.
pub open spec fn crop_step(
    lengths: Map<Seq<char>, usize>,
    selector: Seq<char>,
    default_length: usize,
    restricted: Set<Seq<char>>,
    available: Set<Seq<char>>,
) -> Map<Seq<char>, usize> {
    let parts = split(selector, ':');
    let length = match named_length(parts) {
        Some(n) => n,
        None => default_length,
    };
    if parts[0] == star() {
        Map::new(
            |name: Seq<char>| restricted.contains(name) || lengths.dom().contains(name),
            |name: Seq<char>|
                if restricted.contains(name) {
                    length
                } else {
                    lengths[name]
                },
        )
    } else if available.contains(parts[0]) {
        lengths.insert(parts[0], length)
    } else {
        lengths
    }
}

/// The fields to crop, each with its context, after the first `n` selectors
/// were read in turn.
pub open spec fn crop_lengths(
    selectors: Seq<Seq<char>>,
    n: int,
    default_length: usize,
    restricted: Set<Seq<char>>,
    available: Set<Seq<char>>,
) -> Map<Seq<char>, usize>
    decreases n,
{
    if n <= 0 {
        Map::empty()
    } else {
        crop_step(
            crop_lengths(selectors, n - 1, default_length, restricted, available),
            selectors[n - 1],
            default_length,
            restricted,
            available,
        )
    }
}

/// The fields to highlight after the first `n` selectors were read: `*` adds
/// every restricted field, a field that may be shown adds itself.
pub open spec fn highlight_names(
    selectors: Seq<Seq<char>>,
    n: int,
    restricted: Set<Seq<char>>,
    available: Set<Seq<char>>,
) -> Set<Seq<char>>
    decreases n,
{
    if n <= 0 {
        Set::empty()
    } else {
        let before = highlight_names(selectors, n - 1, restricted, available);
        if selectors[n - 1] == star() {
            before.union(restricted)
        } else if available.contains(selectors[n - 1]) {
            before.insert(selectors[n - 1])
        } else {
            before
        }
    }
}

/// The names of a set, if there is one.
pub open spec fn names_of(set: Option<NameSet>) -> Option<Set<Seq<char>>> {
    match set {
        Some(names) => Some(names@),
        None => None,
    }
}

/// The entries of a map, if there is one.
pub open spec fn lengths_of(map: Option<NameMap<usize>>) -> Option<Map<Seq<char>, usize>> {
    match map {
        Some(lengths) => Some(lengths@),
        None => None,
    }
}

/// The characters of a string, if there is one.
pub open spec fn text_of(text: Option<String>) -> Option<Seq<char>> {
    match text {
        Some(t) => Some(t@),
        None => None,
    }
}

/// Whether `request` is what the query `params` asks for under `schema`.
pub open spec fn asks_for(params: &SearchQuery, schema: &Schema, request: &SearchRequest) -> bool {
    let available = schema.displayed_names();
    let restricted = restricted_names(text_of(params.attributes_to_retrieve), available);
    let builder = request.builder;
    &&& builder.wf()
    &&& builder.query@ == params.q@
    &&& builder.offset == match params.offset {
        Some(offset) => offset,
        None => 0,
    }
    &&& builder.limit == match params.limit {
        Some(limit) => limit,
        None => 20,
    }
    &&& names_of(builder.attributes_to_retrieve) == retrieved_names(
        text_of(params.attributes_to_retrieve),
        available,
    )
    &&& lengths_of(builder.attributes_to_crop) == match params.attributes_to_crop {
        Some(list) => Some(
            crop_lengths(
                split(list@, ','),
                split(list@, ',').len() as int,
                match params.crop_length {
                    Some(length) => length,
                    None => DEFAULT_CROP_LENGTH,
                },
                restricted,
                available,
            ),
        ),
        None => None,
    }
    &&& names_of(builder.attributes_to_highlight) == match params.attributes_to_highlight {
        Some(list) => Some(
            highlight_names(
                split(list@, ','),
                split(list@, ',').len() as int,
                restricted,
                available,
            ),
        ),
        None => None,
    }
    &&& text_of(builder.filters) == text_of(params.filters)
    &&& builder.matches == (params.matches == Some(true))
    &&& match params.facet_filters {
        Some(expr) => request.facet_filters matches Some(filter) && outcome(
            Ok::<FacetFilter, FacetFilterError>(filter),
        ) == parsed_expression(expr@, schema),
        None => request.facet_filters is None,
    }
    &&& match params.facets {
        Some(expr) => request.facets matches Some(names) && parsed_facets(expr@) == Ok::<
            Seq<Seq<char>>,
            ErrorView,
        >(names_view(names@)),
        None => request.facets is None,
    }
}

/// Why the query `params` cannot be read, if it cannot: the error of its
/// facet filter, or else the error of its list of facets.
pub open spec fn refusal(params: &SearchQuery, schema: &Schema) -> Option<ErrorView> {
    let filter_error: Option<ErrorView> = match params.facet_filters {
        Some(expr) => match parsed_expression(expr@, schema) {
            Err(error) => Some(error),
            Ok(_) => None,
        },
        None => None,
    };
    let facets_error: Option<ErrorView> = match params.facets {
        Some(expr) => match parsed_facets(expr@) {
            Err(error) => Some(error),
            Ok(_) => None,
        },
        None => None,
    };
    if filter_error is Some {
        filter_error
    } else {
        facets_error
    }
}

/// The pieces of `text` between its separators.
pub fn split_text(text: &str, separator: char) -> (pieces: Vec<String>)
    ensures
        texts(pieces@) == split(text@, separator),
        pieces@.len() >= 1,
{
    let chars = chars_of(text);
    let mut done: Vec<String> = Vec::new();
    let mut current = String::new();
    let mut i: usize = 0;
    proof {
        assert(chars@.take(0) =~= Seq::<char>::empty());
        assert(texts(done@).push(current@) =~= seq![Seq::<char>::empty()]);
    }
    while i < chars.len()
        invariant
            i <= chars.len(),
            split(chars@.take(i as int), separator) == texts(done@).push(current@),
        decreases chars.len() - i,
    {
        let c = chars[i];
        let ghost before = split(chars@.take(i as int), separator);
        let ghost done_before = done@;
        let ghost current_before = current@;
        proof {
            assert(chars@.take(i + 1).drop_last() =~= chars@.take(i as int));
            assert(chars@.take(i + 1).last() == c);
        }
        if c == separator {
            done.push(current);
            current = String::new();
            proof {
                assert(texts(done@) =~= texts(done_before).push(current_before));
                assert(texts(done@).push(current@) =~= before.push(Seq::<char>::empty()));
            }
        } else {
            current.push(c);
            proof {
                assert(before.drop_last() =~= texts(done_before));
                assert(before.last() == current_before);
                assert(texts(done@).push(current@) =~= before.drop_last().push(
                    before.last().push(c),
                ));
            }
        }
        i += 1;
    }
    proof {
        assert(chars@.take(chars.len() as int) =~= chars@);
    }
    let ghost done_before = done@;
    let ghost last = current@;
    done.push(current);
    assert(texts(done@) =~= texts(done_before).push(last));
    done
}

fn is_star(name: &str) -> (star: bool)
    ensures
        star == (name@ == self::star()),
{
    proof {
        reveal_strlit("*");
        assert("*"@ =~= self::star());
    }
    name.eq("*")
}

/// The fields that a request may hand out, and the fields that the search is
/// told to hand out. `available` holds the fields that may be shown.
pub fn retrievable_attributes(selector: Option<&str>, available: NameSet) -> (attributes: (
    NameSet,
    Option<NameSet>,
))
    requires
        available.wf(),
    ensures
        attributes.0.wf(),
        attributes.0@ == restricted_names(
            match selector {
                Some(list) => Some(list@),
                None => None,
            },
            available@,
        ),
        attributes.1 matches Some(names) ==> names.wf(),
        names_of(attributes.1) == retrieved_names(
            match selector {
                Some(list) => Some(list@),
                None => None,
            },
            available@,
        ),
{
    match selector {
        None => (available, None),
        Some(list) => {
            let pieces = split_text(list, ',');
            let mut any_star = false;
            let mut k: usize = 0;
            while k < pieces.len()
                invariant
                    k <= pieces.len(),
                    any_star == texts(pieces@).take(k as int).contains(star()),
                decreases pieces.len() - k,
            {
                let ghost before = texts(pieces@).take(k as int);
                if is_star(pieces[k].as_str()) {
                    any_star = true;
                }
                proof {
                    assert(texts(pieces@).take(k + 1) =~= before.push(texts(pieces@)[k as int]));
                    vstd::seq_lib::lemma_seq_contains_after_push(
                        before,
                        texts(pieces@)[k as int],
                        star(),
                    );
                }
                k += 1;
            }
            assert(texts(pieces@).take(pieces.len() as int) =~= texts(pieces@));
            if any_star {
                (available, None)
            } else {
                let mut restricted = NameSet::new();
                let mut retrieved = NameSet::new();
                let mut i: usize = 0;
                assert(texts(pieces@).take(0).to_set().intersect(available@) =~= restricted@);
                while i < pieces.len()
                    invariant
                        i <= pieces.len(),
                        restricted.wf(),
                        retrieved.wf(),
                        retrieved@ == restricted@,
                        restricted.names().len() == retrieved.names().len(),
                        restricted@ == texts(pieces@).take(i as int).to_set().intersect(available@),
                    decreases pieces.len() - i,
                {
                    let ghost before = texts(pieces@).take(i as int);
                    let ghost name = texts(pieces@)[i as int];
                    proof {
                        assert(texts(pieces@).take(i + 1) =~= before.push(name));
                        before.lemma_push_to_set_commute(name);
                    }
                    if available.contains(pieces[i].as_str()) {
                        restricted.insert(pieces[i].clone());
                        retrieved.insert(pieces[i].clone());
                    }
                    assert(restricted@ =~= before.push(name).to_set().intersect(available@));
                    i += 1;
                }
                let retrieved = if restricted.len() == 0 {
                    proof {
                        if exists|name: Seq<char>| restricted@.contains(name) {
                            let name = choose|name: Seq<char>| restricted@.contains(name);
                            assert(restricted.names().contains(name));
                        }
                        assert(restricted@ =~= Set::<Seq<char>>::empty());
                    }
                    None
                } else {
                    proof {
                        assert(restricted@.contains(restricted.names()[0]));
                    }
                    Some(retrieved)
                };
                (restricted, retrieved)
            }
        },
    }
}

fn length_of(parts: &Vec<String>) -> (length: Option<usize>)
    ensures
        length == named_length(texts(parts@)),
{
    if parts.len() >= 2 {
        match parse_u64(parts[1].as_str()) {
            Some(n) => {
                if n <= usize::MAX as u64 {
                    Some(n as usize)
                } else {
                    None
                }
            },
            None => None,
        }
    } else {
        None
    }
}

/// The fields to crop that the list `selector` names, each with its context.
///
/// A selector is a field name, or a name, a colon and a length; without a
/// length that can be read, the context is `default_length`. `*` names every
/// field of `restricted`. A name is passed over where `available` lacks it.
/// Selectors are read in turn, and a later one overrules an earlier one.
pub fn crop_attributes(
    selector: &str,
    default_length: usize,
    restricted: &NameSet,
    available: &NameSet,
) -> (lengths: NameMap<usize>)
    requires
        restricted.wf(),
        available.wf(),
    ensures
        lengths.wf(),
        lengths@ == crop_lengths(
            split(selector@, ','),
            split(selector@, ',').len() as int,
            default_length,
            restricted@,
            available@,
        ),
{
    let pieces = split_text(selector, ',');
    let mut lengths: NameMap<usize> = NameMap::new();
    let mut i: usize = 0;
    assert(lengths@ =~= Map::<Seq<char>, usize>::empty());
    while i < pieces.len()
        invariant
            i <= pieces.len(),
            restricted.wf(),
            available.wf(),
            lengths.wf(),
            texts(pieces@) == split(selector@, ','),
            lengths@ == crop_lengths(
                texts(pieces@),
                i as int,
                default_length,
                restricted@,
                available@,
            ),
        decreases pieces.len() - i,
    {
        let parts = split_text(pieces[i].as_str(), ':');
        let length = match length_of(&parts) {
            Some(n) => n,
            None => default_length,
        };
        let ghost before = lengths@;
        assert(texts(parts@)[0] == parts@[0]@);
        if is_star(parts[0].as_str()) {
            let mut k: usize = 0;
            while k < restricted.len()
                invariant
                    k <= restricted.names().len(),
                    restricted.wf(),
                    lengths.wf(),
                    lengths@ == Map::new(
                        |name: Seq<char>|
                            restricted.names().take(k as int).contains(name)
                                || before.dom().contains(name),
                        |name: Seq<char>|
                            if restricted.names().take(k as int).contains(name) {
                                length
                            } else {
                                before[name]
                            },
                    ),
                decreases restricted.names().len() - k,
            {
                let ghost held = lengths@;
                let ghost name = restricted.names()[k as int];
                lengths.insert(restricted.name(k).to_owned(), length);
                proof {
                    assert(restricted.names().take(k + 1) =~= restricted.names().take(
                        k as int,
                    ).push(name));
                    assert forall|other: Seq<char>|
                        restricted.names().take(k + 1).contains(other)
                            <==> restricted.names().take(k as int).contains(other) || other
                            == name by {
                        vstd::seq_lib::lemma_seq_contains_after_push(
                            restricted.names().take(k as int),
                            name,
                            other,
                        );
                    }
                    let wanted = Map::new(
                        |name: Seq<char>|
                            restricted.names().take(k + 1).contains(name) || before.dom().contains(
                                name,
                            ),
                        |name: Seq<char>|
                            if restricted.names().take(k + 1).contains(name) {
                                length
                            } else {
                                before[name]
                            },
                    );
                    assert(lengths@ == held.insert(name, length));
                    assert forall|other: Seq<char>|
                        wanted.dom().contains(other) <==> lengths@.dom().contains(other) by {
                        assert(restricted.names().take(k + 1).contains(other)
                            <==> restricted.names().take(k as int).contains(other) || other
                            == name);
                    }
                    assert forall|other: Seq<char>| wanted.dom().contains(other) implies wanted[other]
                        == lengths@[other] by {
                        assert(restricted.names().take(k + 1).contains(other)
                            <==> restricted.names().take(k as int).contains(other) || other
                            == name);
                    }
                    assert(lengths@ =~= wanted);
                }
                k += 1;
            }
            proof {
                assert(restricted.names().take(restricted.names().len() as int)
                    =~= restricted.names());
                assert(lengths@ =~= crop_step(
                    before,
                    texts(pieces@)[i as int],
                    default_length,
                    restricted@,
                    available@,
                ));
            }
        } else if available.contains(parts[0].as_str()) {
            lengths.insert(parts[0].clone(), length);
        }
        i += 1;
    }
    lengths
}

/// The fields to highlight that the list `selector` names: `*` names every
/// field of `restricted`; a name is passed over where `available` lacks it.
pub fn highlight_attributes(selector: &str, restricted: &NameSet, available: &NameSet) -> (names:
    NameSet)
    requires
        restricted.wf(),
        available.wf(),
    ensures
        names.wf(),
        names@ == highlight_names(
            split(selector@, ','),
            split(selector@, ',').len() as int,
            restricted@,
            available@,
        ),
{
    let pieces = split_text(selector, ',');
    let mut names = NameSet::new();
    let mut i: usize = 0;
    assert(names@ =~= Set::<Seq<char>>::empty());
    while i < pieces.len()
        invariant
            i <= pieces.len(),
            restricted.wf(),
            available.wf(),
            names.wf(),
            texts(pieces@) == split(selector@, ','),
            names@ == highlight_names(texts(pieces@), i as int, restricted@, available@),
        decreases pieces.len() - i,
    {
        let ghost before = names@;
        if is_star(pieces[i].as_str()) {
            let mut k: usize = 0;
            assert(before.union(restricted.names().take(0).to_set()) =~= before);
            while k < restricted.len()
                invariant
                    k <= restricted.names().len(),
                    restricted.wf(),
                    names.wf(),
                    names@ == before.union(restricted.names().take(k as int).to_set()),
                decreases restricted.names().len() - k,
            {
                proof {
                    assert(restricted.names().take(k + 1) =~= restricted.names().take(
                        k as int,
                    ).push(restricted.names()[k as int]));
                    restricted.names().take(k as int).lemma_push_to_set_commute(
                        restricted.names()[k as int],
                    );
                }
                names.insert(restricted.name(k).to_owned());
                assert(names@ =~= before.union(restricted.names().take(k + 1).to_set()));
                k += 1;
            }
            assert(restricted.names().take(restricted.names().len() as int)
                =~= restricted.names());
        } else if available.contains(pieces[i].as_str()) {
            names.insert(pieces[i].clone());
        }
        i += 1;
    }
    names
}

/// Reads a search request.
///
/// The lists of fields are read as `retrievable_attributes`, `crop_attributes`
/// and `highlight_attributes` state, against the fields that the schema may
/// show. Fails where the request has a facet filter that is none, with the
/// error of `parse_facet_filters`, and else where it has a list of facets that
/// is none, with the error of `parse_facets`.
pub fn search_with_url_query(params: &SearchQuery, schema: &Schema) -> (request: Result<
    SearchRequest,
    FacetFilterError,
>)
    requires
        schema.wf(),
    ensures
        match request {
            Ok(request) => refusal(params, schema) is None && asks_for(params, schema, &request),
            Err(error) => refusal(params, schema) == Some(error@),
        },
{
    let mut builder = SearchBuilder::new(params.q.clone());
    if let Some(offset) = params.offset {
        builder.offset = offset;
    }
    if let Some(limit) = params.limit {
        builder.limit = limit;
    }
    let available = schema.displayed_name();
    let selector = match &params.attributes_to_retrieve {
        Some(list) => Some(list.as_str()),
        None => None,
    };
    let (restricted, retrieved) = retrievable_attributes(selector, schema.displayed_name());
    builder.attributes_to_retrieve = retrieved;

    let facet_filters = match &params.facet_filters {
        Some(expr) => match parse_facet_filters(expr.as_str(), schema) {
            Ok(filter) => Some(filter),
            Err(error) => {
                return Err(error);
            },
        },
        None => None,
    };
    let facets = match &params.facets {
        Some(expr) => match parse_facets(expr.as_str()) {
            Ok(names) => Some(names),
            Err(error) => {
                return Err(error);
            },
        },
        None => None,
    };

    if let Some(list) = &params.attributes_to_crop {
        let default_length = match params.crop_length {
            Some(length) => length,
            None => DEFAULT_CROP_LENGTH,
        };
        builder.attributes_to_crop = Some(
            crop_attributes(list.as_str(), default_length, &restricted, &available),
        );
    }
    if let Some(list) = &params.attributes_to_highlight {
        builder.attributes_to_highlight = Some(
            highlight_attributes(list.as_str(), &restricted, &available),
        );
    }
    if let Some(filters) = &params.filters {
        builder.filters = Some(filters.clone());
    }
    if let Some(matches) = params.matches {
        if matches {
            builder.matches = true;
        }
    }
    Ok(SearchRequest { builder, facet_filters, facets })
}

} // verus!
