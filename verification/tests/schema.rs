use facet_search::names::{NameMap, NameSet};
use facet_search::schema::{FieldId, Schema, MAX_FIELDS};

#[test]
fn fields_are_numbered_in_the_order_of_insertion() {
    let mut schema = Schema::new();
    assert_eq!(schema.len(), 0);
    assert_eq!(schema.insert("title", true, false), Some(FieldId(0)));
    assert_eq!(schema.insert("body", false, true), Some(FieldId(1)));
    assert_eq!(schema.insert("title", false, false), Some(FieldId(0)));
    assert_eq!(schema.len(), 2);
    assert_eq!(schema.id("title"), Some(FieldId(0)));
    assert_eq!(schema.id("body"), Some(FieldId(1)));
    assert_eq!(schema.id("Title"), None);
    assert_eq!(schema.name(FieldId(0)), Some("title"));
    assert_eq!(schema.name(FieldId(1)), Some("body"));
    assert_eq!(schema.name(FieldId(2)), None);
}

#[test]
fn names_and_numbers_determine_each_other() {
    let mut schema = Schema::new();
    for name in ["a", "b", "c", "d"] {
        schema.insert(name, true, true);
    }
    for i in 0..4u16 {
        let name = schema.name(FieldId(i)).unwrap().to_string();
        assert_eq!(schema.id(&name), Some(FieldId(i)));
    }
}

#[test]
fn marks_are_kept() {
    let mut schema = Schema::new();
    schema.insert("title", true, false);
    schema.insert("secret", false, false);
    schema.insert("price", false, true);
    assert!(schema.is_displayed(FieldId(0)));
    assert!(!schema.is_displayed(FieldId(1)));
    assert!(!schema.is_displayed(FieldId(9)));
    assert!(!schema.is_ranked(FieldId(0)));
    assert!(schema.is_ranked(FieldId(2)));
    assert!(!schema.is_ranked(FieldId(9)));
    // a mark once set stays
    schema.insert("title", false, true);
    assert!(schema.is_displayed(FieldId(0)));
    assert!(schema.is_ranked(FieldId(0)));
    schema.insert("secret", true, false);
    assert!(schema.is_displayed(FieldId(1)));
}

#[test]
fn displayed_names_are_those_marked() {
    let mut schema = Schema::new();
    schema.insert("title", true, false);
    schema.insert("secret", false, false);
    schema.insert("body", true, false);
    let shown = schema.displayed_name();
    assert_eq!(shown.len(), 2);
    assert!(shown.contains("title"));
    assert!(shown.contains("body"));
    assert!(!shown.contains("secret"));
    assert_eq!(shown.name(0), "title");
    assert_eq!(shown.name(1), "body");
}

#[test]
fn a_full_schema_takes_no_new_field() {
    let mut schema = Schema::new();
    for i in 0..MAX_FIELDS {
        assert_eq!(schema.insert(&format!("f{}", i), false, false), Some(FieldId(i as u16)));
    }
    assert_eq!(schema.len(), 65536);
    assert_eq!(schema.insert("one more", true, true), None);
    assert_eq!(schema.len(), 65536);
    assert_eq!(schema.insert("f65535", true, false), Some(FieldId(65535)));
    assert!(schema.is_displayed(FieldId(65535)));
}

#[test]
fn name_set_holds_each_name_once() {
    let mut set = NameSet::new();
    assert!(set.insert("b".to_string()));
    assert!(set.insert("a".to_string()));
    assert!(!set.insert("b".to_string()));
    assert_eq!(set.len(), 2);
    assert!(set.contains("a"));
    assert!(!set.contains("c"));
    assert_eq!(set.name(0), "b");
    assert_eq!(set.name(1), "a");
}

#[test]
fn name_map_replaces_in_place() {
    let mut map: NameMap<usize> = NameMap::new();
    map.insert("title".to_string(), 10);
    map.insert("body".to_string(), 20);
    map.insert("title".to_string(), 30);
    assert_eq!(map.len(), 2);
    assert_eq!(map.get("title"), Some(&30));
    assert_eq!(map.get("body"), Some(&20));
    assert_eq!(map.get("none"), None);
    assert_eq!(map.index_of("body"), Some(1));
    assert_eq!(map.index_of("none"), None);
    assert_eq!(map.name(0), "title");
    assert_eq!(*map.value(0), 30);
}
