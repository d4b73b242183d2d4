use facet_search::facet_filter::{FacetFilterElement, FacetFilterError};
use facet_search::names::{NameMap, NameSet};
use facet_search::query::{
    crop_attributes, highlight_attributes, retrievable_attributes, search_with_url_query,
    split_text, SearchQuery, DEFAULT_CROP_LENGTH,
};
use facet_search::schema::{FieldId, Schema};

fn schema() -> Schema {
    let mut schema = Schema::new();
    schema.insert("title", true, false);
    schema.insert("description", true, false);
    schema.insert("secret", false, false);
    schema.insert("price", true, true);
    schema
}

fn names(list: &[&str]) -> NameSet {
    let mut set = NameSet::new();
    for name in list {
        set.insert(name.to_string());
    }
    set
}

fn lengths(list: &[(&str, usize)]) -> Vec<(String, usize)> {
    let mut all: Vec<(String, usize)> = list.iter().map(|(n, l)| (n.to_string(), *l)).collect();
    all.sort();
    all
}

fn entries(map: &NameMap<usize>) -> Vec<(String, usize)> {
    let mut all: Vec<(String, usize)> =
        (0..map.len()).map(|i| (map.name(i).to_string(), *map.value(i))).collect();
    all.sort();
    all
}

fn members(set: &NameSet) -> Vec<String> {
    let mut all: Vec<String> = (0..set.len()).map(|i| set.name(i).to_string()).collect();
    all.sort();
    all
}

fn list(items: &[&str]) -> Vec<String> {
    let mut all: Vec<String> = items.iter().map(|s| s.to_string()).collect();
    all.sort();
    all
}

fn query(q: &str) -> SearchQuery {
    SearchQuery {
        q: q.to_string(),
        offset: None,
        limit: None,
        attributes_to_retrieve: None,
        attributes_to_crop: None,
        crop_length: None,
        attributes_to_highlight: None,
        filters: None,
        matches: None,
        facet_filters: None,
        facets: None,
    }
}

#[test]
fn text_is_split_at_each_separator() {
    assert_eq!(split_text("a,b,,c", ','), vec!["a", "b", "", "c"]);
    assert_eq!(split_text("", ','), vec![""]);
    assert_eq!(split_text("abc", ','), vec!["abc"]);
    assert_eq!(split_text("a,", ','), vec!["a", ""]);
    assert_eq!(split_text(",a", ','), vec!["", "a"]);
    assert_eq!(split_text(",", ','), vec!["", ""]);
    assert_eq!(split_text("title:10", ':'), vec!["title", "10"]);
    assert_eq!(split_text("prix,é:1", ','), vec!["prix", "é:1"]);
    for text in ["", "a", "a,b", ",,", "x,y,z,", "no separator"] {
        let expected: Vec<String> = text.split(',').map(str::to_string).collect();
        assert_eq!(split_text(text, ','), expected);
    }
}

#[test]
fn named_fields_restrict_what_is_handed_out() {
    let (restricted, retrieved) = retrievable_attributes(
        Some("title,secret,unknown,price,title"),
        schema().displayed_name(),
    );
    assert_eq!(members(&restricted), list(&["price", "title"]));
    assert_eq!(members(&retrieved.unwrap()), list(&["price", "title"]));
}

#[test]
fn a_star_or_no_list_hands_out_all_that_may_be_shown() {
    for selector in [None, Some("*"), Some("title,*"), Some("*,unknown")] {
        let (restricted, retrieved) = retrievable_attributes(selector, schema().displayed_name());
        assert_eq!(members(&restricted), list(&["description", "price", "title"]));
        assert!(retrieved.is_none());
    }
}

#[test]
fn a_list_without_a_field_that_may_be_shown_restricts_to_nothing() {
    for selector in ["secret", "", "unknown,secret", " title"] {
        let (restricted, retrieved) =
            retrievable_attributes(Some(selector), schema().displayed_name());
        assert_eq!(restricted.len(), 0);
        assert!(retrieved.is_none());
    }
}

#[test]
fn crop_selectors_name_fields_and_lengths() {
    let available = schema().displayed_name();
    let restricted = names(&["title", "price"]);
    let crop = |selector: &str| entries(&crop_attributes(selector, 200, &restricted, &available));

    assert_eq!(crop("title:10"), lengths(&[("title", 10)]));
    assert_eq!(crop("title"), lengths(&[("title", 200)]));
    assert_eq!(crop("description:7,title:3"), lengths(&[("description", 7), ("title", 3)]));
    assert_eq!(crop("*"), lengths(&[("title", 200), ("price", 200)]));
    assert_eq!(crop("*:7"), lengths(&[("title", 7), ("price", 7)]));
    assert_eq!(crop("secret:3,unknown,"), lengths(&[]));
    assert_eq!(crop(""), lengths(&[]));
}

#[test]
fn a_later_crop_selector_overrules_an_earlier_one() {
    let available = schema().displayed_name();
    let restricted = names(&["title", "price"]);
    let crop = |selector: &str| entries(&crop_attributes(selector, 200, &restricted, &available));

    assert_eq!(crop("title:10,*"), lengths(&[("title", 200), ("price", 200)]));
    assert_eq!(crop("*,title:10"), lengths(&[("title", 10), ("price", 200)]));
    assert_eq!(crop("title:1,title:2"), lengths(&[("title", 2)]));
    assert_eq!(
        crop("description:4,*:9"),
        lengths(&[("description", 4), ("title", 9), ("price", 9)])
    );
}

#[test]
fn a_crop_length_that_cannot_be_read_is_the_default() {
    let available = schema().displayed_name();
    let restricted = names(&["title"]);
    let crop = |selector: &str| entries(&crop_attributes(selector, 33, &restricted, &available));

    assert_eq!(crop("title:abc"), lengths(&[("title", 33)]));
    assert_eq!(crop("title:"), lengths(&[("title", 33)]));
    assert_eq!(crop("title: 5"), lengths(&[("title", 33)]));
    assert_eq!(crop("title:-5"), lengths(&[("title", 33)]));
    assert_eq!(crop("title:99999999999999999999999"), lengths(&[("title", 33)]));
    // only what stands between the first and the second colon is the length
    assert_eq!(crop("title:5:9"), lengths(&[("title", 5)]));
    assert_eq!(crop("title::9"), lengths(&[("title", 33)]));
    assert_eq!(crop("title:+5"), lengths(&[("title", 5)]));
    assert_eq!(crop("title:007"), lengths(&[("title", 7)]));
    assert_eq!(crop("title:0"), lengths(&[("title", 0)]));
}

#[test]
fn highlight_selectors_name_fields() {
    let available = schema().displayed_name();
    let restricted = names(&["title", "price"]);
    let highlight = |selector: &str| members(&highlight_attributes(selector, &restricted, &available));

    assert_eq!(highlight("title"), list(&["title"]));
    assert_eq!(highlight("description,title,description"), list(&["description", "title"]));
    assert_eq!(highlight("*"), list(&["title", "price"]));
    assert_eq!(highlight("description,*"), list(&["description", "title", "price"]));
    assert_eq!(highlight("secret,unknown,,title:3"), list(&[]));
    assert_eq!(highlight(""), list(&[]));
}

#[test]
fn an_empty_request_is_the_default_search() {
    let request = search_with_url_query(&query("dune"), &schema()).unwrap();
    let builder = request.builder;
    assert_eq!(builder.query, "dune");
    assert_eq!(builder.offset, 0);
    assert_eq!(builder.limit, 20);
    assert!(builder.attributes_to_retrieve.is_none());
    assert!(builder.attributes_to_crop.is_none());
    assert!(builder.attributes_to_highlight.is_none());
    assert!(builder.filters.is_none());
    assert!(!builder.matches);
    assert!(request.facet_filters.is_none());
    assert!(request.facets.is_none());
}

#[test]
fn a_full_request_is_read() {
    let mut params = query("dune");
    params.offset = Some(10);
    params.limit = Some(5);
    params.attributes_to_retrieve = Some("title,price,secret".to_string());
    params.attributes_to_crop = Some("description:12,*".to_string());
    params.attributes_to_highlight = Some("*,description".to_string());
    params.filters = Some("price > 3".to_string());
    params.matches = Some(true);
    params.facet_filters = Some(r#"["title:Dune", ["price:1", "price:2"]]"#.to_string());
    params.facets = Some(r#"["price", "title"]"#.to_string());

    let request = search_with_url_query(&params, &schema()).unwrap();
    let builder = request.builder;
    assert_eq!(builder.query, "dune");
    assert_eq!(builder.offset, 10);
    assert_eq!(builder.limit, 5);
    assert_eq!(members(&builder.attributes_to_retrieve.unwrap()), list(&["price", "title"]));
    assert_eq!(
        entries(&builder.attributes_to_crop.unwrap()),
        lengths(&[
            ("description", 12),
            ("title", DEFAULT_CROP_LENGTH),
            ("price", DEFAULT_CROP_LENGTH)
        ])
    );
    assert_eq!(
        members(&builder.attributes_to_highlight.unwrap()),
        list(&["description", "price", "title"])
    );
    assert_eq!(builder.filters, Some("price > 3".to_string()));
    assert!(builder.matches);
    assert_eq!(request.facets, Some(vec!["price".to_string(), "title".to_string()]));
    assert_eq!(
        request.facet_filters,
        Some(vec![
            FacetFilterElement::Term((FieldId(0), "Dune".to_string())),
            FacetFilterElement::Group(vec![
                (FieldId(3), "1".to_string()),
                (FieldId(3), "2".to_string())
            ]),
        ])
    );
}

#[test]
fn the_crop_length_of_the_request_is_the_default_context() {
    let mut params = query("dune");
    params.attributes_to_crop = Some("title,price:3".to_string());
    params.crop_length = Some(50);
    params.matches = Some(false);
    let request = search_with_url_query(&params, &schema()).unwrap();
    assert_eq!(
        entries(&request.builder.attributes_to_crop.unwrap()),
        lengths(&[("title", 50), ("price", 3)])
    );
    assert!(!request.builder.matches);
}

#[test]
fn a_bad_facet_filter_fails_the_request() {
    let mut params = query("dune");
    params.facet_filters = Some(r#"["nothing:1"]"#.to_string());
    assert_eq!(
        search_with_url_query(&params, &schema()).err(),
        Some(FacetFilterError::UnknownAttribute("nothing".to_string()))
    );
    params.facet_filters = Some(r#"["title"]"#.to_string());
    assert_eq!(
        search_with_url_query(&params, &schema()).err(),
        Some(FacetFilterError::MalformedTerm("title".to_string()))
    );
    params.facet_filters = Some("title:1".to_string());
    assert!(matches!(
        search_with_url_query(&params, &schema()).err(),
        Some(FacetFilterError::InvalidJson(_))
    ));
}

#[test]
fn a_bad_list_of_facets_fails_the_request() {
    let mut params = query("dune");
    params.facets = Some(r#"{"price": 1}"#.to_string());
    assert_eq!(
        search_with_url_query(&params, &schema()).err(),
        Some(FacetFilterError::ExpectedArray("Object {\"price\": Number(1)}".to_string()))
    );
    params.facets = Some(r#"["price", 1]"#.to_string());
    assert_eq!(
        search_with_url_query(&params, &schema()).err(),
        Some(FacetFilterError::ExpectedString("Number(1)".to_string()))
    );
    // the facet filter is read first, and its error decides
    params.facet_filters = Some(r#"["nothing:1"]"#.to_string());
    assert_eq!(
        search_with_url_query(&params, &schema()).err(),
        Some(FacetFilterError::UnknownAttribute("nothing".to_string()))
    );
}

#[test]
fn a_crop_length_is_read_as_a_decimal_number() {
    let available = schema().displayed_name();
    let restricted = names(&["title"]);
    let crop = |selector: &str| entries(&crop_attributes(selector, 33, &restricted, &available));
    assert_eq!(crop("title:10"), lengths(&[("title", 10)]));
    assert_eq!(crop("title:18446744073709551615"), lengths(&[("title", usize::MAX)]));
    assert_eq!(crop("title:18446744073709551616"), lengths(&[("title", 33)]));
    assert_eq!(crop("title:+"), lengths(&[("title", 33)]));
    assert_eq!(crop("title:++1"), lengths(&[("title", 33)]));
    assert_eq!(crop("title:1_000"), lengths(&[("title", 33)]));
    assert_eq!(crop("title:12a"), lengths(&[("title", 33)]));
    assert_eq!(crop("title:١٢"), lengths(&[("title", 33)]));
    assert_eq!(crop("title:+0012"), lengths(&[("title", 12)]));
}
