use facet_search::criteria::{unresolved_rules, Criterion, RankingRule};
use facet_search::highlight::Highlight;
use facet_search::matches::MatchPosition;
use facet_search::names::{NameMap, NameSet};
use facet_search::schema::{FieldId, Schema};
use facet_search::search::{Candidate, IndexSearchExt, SearchBuilder};
use indexmap::IndexMap;
use serde_json::Value;

fn schema() -> Schema {
    let mut schema = Schema::new();
    schema.insert("title", true, false);
    schema.insert("description", true, false);
    schema.insert("secret", false, false);
    schema.insert("price", true, true);
    schema
}

fn names(list: &[&str]) -> NameSet {
    let mut set = NameSet::new();
    for name in list {
        set.insert(name.to_string());
    }
    set
}

fn text(value: &str) -> Value {
    Value::String(value.to_string())
}

fn book() -> Candidate {
    let mut document: IndexMap<String, Value> = IndexMap::new();
    document.insert("id".to_string(), Value::from(1));
    document.insert("title".to_string(), text("Fondation (Isaac ASIMOV)"));
    document.insert("description".to_string(), text("Seldon crée la Fondation."));
    document.insert("secret".to_string(), text("hidden"));
    Candidate {
        document,
        highlights: vec![
            Highlight { attribute: 1, char_index: 15, char_length: 9 },
            Highlight { attribute: 0, char_index: 0, char_length: 9 },
        ],
    }
}

fn keys(document: &IndexMap<String, Value>) -> Vec<String> {
    document.keys().cloned().collect()
}

#[test]
fn a_new_search_has_the_defaults() {
    let builder = SearchBuilder::new("asimov".to_string());
    assert_eq!(builder.query, "asimov");
    assert_eq!(builder.offset, 0);
    assert_eq!(builder.limit, 20);
    assert!(builder.attributes_to_crop.is_none());
    assert!(builder.attributes_to_retrieve.is_none());
    assert!(builder.attributes_to_highlight.is_none());
    assert!(builder.filters.is_none());
    assert!(!builder.matches);
    assert_eq!(builder.window(), (0, 20));
}

#[test]
fn the_setters_set_their_field() {
    let mut builder = SearchBuilder::new("q".to_string());
    assert_eq!(builder.offset(7).offset, 7);
    assert_eq!(builder.limit(3).limit, 3);
    assert_eq!(builder.window(), (7, 10));
    let mut crop = NameMap::new();
    crop.insert("title".to_string(), 5);
    assert_eq!(builder.attributes_to_crop(crop.clone()).attributes_to_crop, Some(crop));
    assert_eq!(
        builder.attributes_to_retrieve(names(&["title"])).attributes_to_retrieve,
        Some(names(&["title"]))
    );
    assert_eq!(
        builder.attributes_to_highlight(names(&["a", "b"])).attributes_to_highlight,
        Some(names(&["a", "b"]))
    );
    assert_eq!(builder.filters("price > 3".to_string()).filters, Some("price > 3".to_string()));
    assert!(builder.get_matches().matches);
    assert_eq!(builder.offset, 7);
    assert_eq!(builder.limit, 3);
    assert_eq!(builder.query, "q");
}

#[test]
fn retrievable_fields_add_up() {
    let mut builder = SearchBuilder::new("q".to_string());
    builder.add_retrievable_field("title".to_string());
    assert_eq!(builder.attributes_to_retrieve, Some(names(&["title"])));
    builder.add_retrievable_field("price".to_string());
    builder.add_retrievable_field("title".to_string());
    assert_eq!(builder.attributes_to_retrieve, Some(names(&["title", "price"])));
}

#[test]
fn the_window_stops_at_the_greatest_number() {
    let mut builder = SearchBuilder::new("q".to_string());
    builder.offset(usize::MAX - 5);
    builder.limit(20);
    assert_eq!(builder.window(), (usize::MAX - 5, usize::MAX));
    builder.limit(5);
    assert_eq!(builder.window(), (usize::MAX - 5, usize::MAX));
    builder.limit(4);
    assert_eq!(builder.window(), (usize::MAX - 5, usize::MAX - 1));
}

#[test]
fn formatted_attributes_follow_what_is_asked() {
    let schema = schema();
    let mut builder = SearchBuilder::new("q".to_string());
    assert_eq!(builder.formatted_attributes(&schema).len(), 0);

    builder.attributes_to_highlight(names(&["title"]));
    assert_eq!(
        builder.formatted_attributes(&schema),
        names(&["title", "description", "price"])
    );

    builder.attributes_to_retrieve(names(&["price"]));
    assert_eq!(builder.formatted_attributes(&schema), names(&["title"]));

    let mut crop = NameMap::new();
    crop.insert("description".to_string(), 10);
    crop.insert("title".to_string(), 10);
    builder.attributes_to_crop(crop);
    assert_eq!(builder.formatted_attributes(&schema), names(&["title", "description"]));
}

#[test]
fn a_plain_search_hands_out_the_documents() {
    let builder = SearchBuilder::new("fondation".to_string());
    let result = builder.search(&schema(), &vec![book(), book()], 42, 3);
    assert_eq!(result.hits.len(), 2);
    assert_eq!(result.offset, 0);
    assert_eq!(result.limit, 20);
    assert_eq!(result.nb_hits, 42);
    assert!(!result.exhaustive_nb_hits);
    assert_eq!(result.processing_time_ms, 3);
    assert_eq!(result.query, "fondation");
    let hit = &result.hits[1];
    assert_eq!(hit.document, book().document);
    assert!(hit.formatted.is_empty());
    assert!(hit.matches_info.is_none());
}

#[test]
fn a_search_highlights_and_reports_matches() {
    let mut builder = SearchBuilder::new("fondation".to_string());
    builder.attributes_to_highlight(names(&["title"]));
    builder.get_matches();
    let result = builder.search(&schema(), &vec![book()], 1, 0);
    let hit = &result.hits[0];

    assert_eq!(hit.document, book().document);
    let mut formatted: IndexMap<String, Value> = IndexMap::new();
    formatted.insert("title".to_string(), text("<em>Fondation</em> (Isaac ASIMOV)"));
    formatted.insert("description".to_string(), text("Seldon crée la Fondation."));
    assert_eq!(hit.formatted, formatted);
    assert_eq!(keys(&hit.formatted), vec!["title", "description"]);

    let infos = hit.matches_info.as_ref().unwrap();
    assert_eq!(infos.len(), 2);
    assert_eq!(infos.get("title"), Some(&vec![MatchPosition { start: 0, length: 9 }]));
    assert_eq!(infos.get("description"), Some(&vec![MatchPosition { start: 15, length: 9 }]));
}

#[test]
fn a_search_crops_then_highlights() {
    let mut builder = SearchBuilder::new("fondation".to_string());
    builder.attributes_to_retrieve(names(&["title"]));
    let mut crop = NameMap::new();
    crop.insert("title".to_string(), 5);
    builder.attributes_to_crop(crop);
    builder.attributes_to_highlight(names(&["title"]));
    builder.get_matches();
    let result = builder.search(&schema(), &vec![book()], 1, 0);
    let hit = &result.hits[0];

    let mut document: IndexMap<String, Value> = IndexMap::new();
    document.insert("title".to_string(), text("Fondation (Isaac ASIMOV)"));
    assert_eq!(hit.document, document);
    let mut formatted: IndexMap<String, Value> = IndexMap::new();
    formatted.insert("title".to_string(), text("<em>Fondation</em>"));
    assert_eq!(hit.formatted, formatted);
    let infos = hit.matches_info.as_ref().unwrap();
    assert_eq!(infos.len(), 1);
    assert_eq!(infos.get("title"), Some(&vec![MatchPosition { start: 0, length: 9 }]));
}

#[test]
fn ranking_rules_become_criteria() {
    let builder = SearchBuilder::new("q".to_string());
    let rules = vec![
        RankingRule::Typo,
        RankingRule::Desc("price".to_string()),
        RankingRule::Words,
        RankingRule::Asc("title".to_string()),
        RankingRule::Proximity,
        RankingRule::Asc("unknown".to_string()),
        RankingRule::Attribute,
        RankingRule::WordsPosition,
        RankingRule::Asc("price".to_string()),
        RankingRule::Exactness,
    ];
    assert_eq!(
        builder.get_criteria(Some(&rules), &schema()),
        Some(vec![
            Criterion::Typo,
            Criterion::SortByAttr { field_id: FieldId(3), reversed: true },
            Criterion::Words,
            Criterion::Proximity,
            Criterion::Attribute,
            Criterion::WordsPosition,
            Criterion::SortByAttr { field_id: FieldId(3), reversed: false },
            Criterion::Exactness,
            Criterion::DocumentId,
        ])
    );
}

#[test]
fn without_ranking_rules_there_is_no_chain() {
    let builder = SearchBuilder::new("q".to_string());
    assert_eq!(builder.get_criteria(None, &schema()), None);
    assert_eq!(builder.get_criteria(Some(&vec![]), &schema()), Some(vec![Criterion::DocumentId]));
}

#[test]
fn rules_that_cannot_be_resolved_are_named() {
    let rules = vec![
        RankingRule::Typo,
        RankingRule::Desc("price".to_string()),
        RankingRule::Asc("title".to_string()),
        RankingRule::Proximity,
        RankingRule::Desc("unknown".to_string()),
        RankingRule::Asc("price".to_string()),
    ];
    assert_eq!(unresolved_rules(&rules, &schema()), vec![2, 4]);
    assert_eq!(unresolved_rules(&vec![RankingRule::Words], &schema()), Vec::<usize>::new());
    assert_eq!(unresolved_rules(&vec![], &schema()), Vec::<usize>::new());
}

#[test]
fn a_search_names_the_spans_it_could_not_highlight() {
    let schema = schema();
    let mut builder = SearchBuilder::new("fondation".to_string());
    builder.attributes_to_highlight(names(&["title", "description"]));
    let mut candidate = book();
    candidate.highlights.push(Highlight { attribute: 0, char_index: 4, char_length: 9 });
    candidate.highlights.push(Highlight { attribute: 1, char_index: 20, char_length: 9 });
    candidate.highlights.push(Highlight { attribute: 2, char_index: 0, char_length: 99 });
    let formatted_names = builder.formatted_attributes(&schema);
    assert_eq!(
        builder.skipped_highlights(&schema, &formatted_names, &candidate),
        vec![
            ("description".to_string(), MatchPosition { start: 20, length: 9 }),
            ("title".to_string(), MatchPosition { start: 4, length: 9 }),
        ]
    );
    let plain = SearchBuilder::new("fondation".to_string());
    let none = plain.formatted_attributes(&schema);
    assert_eq!(
        plain.skipped_highlights(&schema, &none, &candidate),
        Vec::<(String, MatchPosition)>::new()
    );
}

#[test]
fn a_search_started_on_a_schema_has_the_defaults() {
    let schema = schema();
    let builder = schema.new_search("asimov".to_string());
    assert_eq!(builder.query, "asimov");
    assert_eq!(builder.offset, 0);
    assert_eq!(builder.limit, 20);
    assert!(builder.attributes_to_crop.is_none());
    assert!(builder.attributes_to_retrieve.is_none());
    assert!(builder.attributes_to_highlight.is_none());
    assert!(builder.filters.is_none());
    assert!(!builder.matches);
    // the schema is as it was
    assert_eq!(schema.len(), 4);
    assert_eq!(schema.id("price"), Some(FieldId(3)));
}
