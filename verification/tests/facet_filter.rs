use facet_search::facet_filter::{
    facet_filter_from_value, parse_facet_filters, parse_facets, parse_term, FacetFilterElement,
    FacetFilterError,
};
use facet_search::schema::{FieldId, Schema};
use serde_json::Value;

fn schema() -> Schema {
    let mut schema = Schema::new();
    schema.insert("a", true, false);
    schema.insert("b", true, false);
    schema.insert("color", true, false);
    schema
}

fn term(field: u16, value: &str) -> (FieldId, String) {
    (FieldId(field), value.to_string())
}

#[test]
fn two_terms_are_two_elements() {
    let filter = parse_facet_filters(r#"["a:1","b:2"]"#, &schema()).unwrap();
    assert_eq!(
        filter,
        vec![FacetFilterElement::Term(term(0, "1")), FacetFilterElement::Term(term(1, "2"))]
    );
}

#[test]
fn an_inner_array_is_one_group() {
    let filter = parse_facet_filters(r#"[["a:1","a:2"]]"#, &schema()).unwrap();
    assert_eq!(filter, vec![FacetFilterElement::Group(vec![term(0, "1"), term(0, "2")])]);
}

#[test]
fn a_term_without_colon_is_malformed() {
    assert_eq!(
        parse_facet_filters(r#"["a1"]"#, &schema()),
        Err(FacetFilterError::MalformedTerm("a1".to_string()))
    );
    assert_eq!(
        parse_facet_filters(r#"[["a:1", "b"]]"#, &schema()),
        Err(FacetFilterError::MalformedTerm("b".to_string()))
    );
}

#[test]
fn a_term_of_an_unknown_field_is_refused() {
    assert_eq!(
        parse_facet_filters(r#"["x:1"]"#, &schema()),
        Err(FacetFilterError::UnknownAttribute("x".to_string()))
    );
    assert_eq!(
        parse_facet_filters(r#"["a:1", ["b:2", "y:3"], "z:4"]"#, &schema()),
        Err(FacetFilterError::UnknownAttribute("y".to_string()))
    );
}

#[test]
fn a_term_is_cut_at_its_first_colon() {
    assert_eq!(parse_term("color:dark:red", &schema()), Ok(term(2, "dark:red")));
    assert_eq!(parse_term("a: 1 ", &schema()), Ok(term(0, " 1 ")));
    assert_eq!(parse_term("b::", &schema()), Ok(term(1, ":")));
    assert_eq!(parse_term("color:bleu pâle", &schema()), Ok(term(2, "bleu pâle")));
}

#[test]
fn a_term_without_value_is_malformed() {
    assert_eq!(parse_term("a:", &schema()), Err(FacetFilterError::MalformedTerm("a:".to_string())));
    assert_eq!(parse_term("", &schema()), Err(FacetFilterError::MalformedTerm("".to_string())));
    // the field is looked up before the value
    assert_eq!(parse_term("x:", &schema()), Err(FacetFilterError::UnknownAttribute("x".to_string())));
    assert_eq!(parse_term(":1", &schema()), Err(FacetFilterError::UnknownAttribute("".to_string())));
}

#[test]
fn mixed_terms_and_groups_keep_their_order() {
    let filter =
        parse_facet_filters(r#"["a:1", ["b:2", "color:red"], [], "color:blue"]"#, &schema()).unwrap();
    assert_eq!(
        filter,
        vec![
            FacetFilterElement::Term(term(0, "1")),
            FacetFilterElement::Group(vec![term(1, "2"), term(2, "red")]),
            FacetFilterElement::Group(vec![]),
            FacetFilterElement::Term(term(2, "blue")),
        ]
    );
    assert_eq!(parse_facet_filters("[]", &schema()), Ok(vec![]));
}

#[test]
fn what_is_no_json_is_refused() {
    let parsed = parse_facet_filters(r#"["a:1""#, &schema());
    assert!(matches!(parsed, Err(FacetFilterError::InvalidJson(_))));
    if let Err(FacetFilterError::InvalidJson(message)) = parsed {
        assert!(!message.is_empty());
        assert_ne!(message, r#"["a:1""#);
    }
    assert!(matches!(parse_facet_filters("", &schema()), Err(FacetFilterError::InvalidJson(_))));
}

#[test]
fn json_of_the_wrong_shape_is_refused() {
    assert_eq!(
        parse_facet_filters(r#""a:1""#, &schema()),
        Err(FacetFilterError::ExpectedArray("String(\"a:1\")".to_string()))
    );
    assert_eq!(
        parse_facet_filters(r#"{"a": 1}"#, &schema()),
        Err(FacetFilterError::ExpectedArray("Object {\"a\": Number(1)}".to_string()))
    );
    assert_eq!(
        parse_facet_filters(r#"["a:1", 3]"#, &schema()),
        Err(FacetFilterError::ExpectedStringOrArray("Number(3)".to_string()))
    );
    assert_eq!(
        parse_facet_filters(r#"[["a:1", ["b:2"]]]"#, &schema()),
        Err(FacetFilterError::ExpectedString("Array [String(\"b:2\")]".to_string()))
    );
    assert_eq!(
        parse_facet_filters(r#"[[null]]"#, &schema()),
        Err(FacetFilterError::ExpectedString("Null".to_string()))
    );
}

#[test]
fn the_first_error_decides() {
    assert_eq!(
        parse_facet_filters(r#"["a", "x:1", 3]"#, &schema()),
        Err(FacetFilterError::MalformedTerm("a".to_string()))
    );
    assert_eq!(
        parse_facet_filters(r#"[3, "a", "x:1"]"#, &schema()),
        Err(FacetFilterError::ExpectedStringOrArray("Number(3)".to_string()))
    );
}

#[test]
fn a_filter_is_read_from_a_json_value() {
    let value = Value::Array(vec![
        Value::String("b:2".to_string()),
        Value::Array(vec![Value::String("a:x".to_string())]),
    ]);
    assert_eq!(
        facet_filter_from_value(&value, &schema()),
        Ok(vec![FacetFilterElement::Term(term(1, "2")), FacetFilterElement::Group(vec![term(0, "x")])])
    );
    assert_eq!(
        facet_filter_from_value(&Value::Null, &schema()),
        Err(FacetFilterError::ExpectedArray("Null".to_string()))
    );
    let flag = Value::Bool(true);
    assert_eq!(
        facet_filter_from_value(&Value::Array(vec![flag.clone()]), &schema()),
        Err(FacetFilterError::ExpectedStringOrArray(format!("{:?}", flag)))
    );
}

#[test]
fn errors_say_what_is_wrong() {
    assert_eq!(
        FacetFilterError::UnknownAttribute("x".to_string()).message(),
        "could not find attribute \"x\" in index"
    );
    assert_eq!(
        FacetFilterError::MalformedTerm("a1".to_string()).message(),
        "invalid facet: a1, facets should be \"facetName:facetvalue\""
    );
    assert_eq!(
        FacetFilterError::ExpectedArray("Null".to_string()).message(),
        "expected Array, found: Null"
    );
    assert_eq!(
        FacetFilterError::ExpectedStringOrArray("Number(3)".to_string()).message(),
        "expected String or Array, found: Number(3)"
    );
    assert_eq!(
        FacetFilterError::ExpectedString("Bool(true)".to_string()).message(),
        "expected String, found: Bool(true)"
    );
    assert_eq!(
        parse_facet_filters(r#"{"a": [1]}"#, &schema()).unwrap_err().message(),
        "expected Array, found: Object {\"a\": Array [Number(1)]}"
    );
    assert_eq!(FacetFilterError::InvalidJson("EOF".to_string()).message(), "EOF");
    let parsed = parse_facet_filters("[", &schema());
    assert_eq!(parsed.unwrap_err().message(), "EOF while parsing a list at line 1 column 1");
}

#[test]
fn the_parser_says_what_is_wrong_with_the_json() {
    assert_eq!(
        parse_facet_filters(r#"["a:1""#, &schema()),
        Err(FacetFilterError::InvalidJson("EOF while parsing a list at line 1 column 6".to_string()))
    );
    assert_eq!(
        parse_facet_filters("", &schema()),
        Err(FacetFilterError::InvalidJson("EOF while parsing a value at line 1 column 0".to_string()))
    );
}

#[test]
fn a_list_of_facets_is_an_array_of_names() {
    assert_eq!(
        parse_facets(r#"["color", "size", "color", ""]"#),
        Ok(vec!["color".to_string(), "size".to_string(), "color".to_string(), "".to_string()])
    );
    assert_eq!(parse_facets("[]"), Ok(vec![]));
}

#[test]
fn what_is_no_array_of_names_is_no_list_of_facets() {
    assert_eq!(
        parse_facets(r#""color""#),
        Err(FacetFilterError::ExpectedArray("String(\"color\")".to_string()))
    );
    assert_eq!(
        parse_facets(r#"["color", 3, null]"#),
        Err(FacetFilterError::ExpectedString("Number(3)".to_string()))
    );
    assert_eq!(
        parse_facets(r#"["color", ["size"]]"#),
        Err(FacetFilterError::ExpectedString("Array [String(\"size\")]".to_string()))
    );
    assert_eq!(
        parse_facets("[color]"),
        Err(FacetFilterError::InvalidJson("expected value at line 1 column 2".to_string()))
    );
}
