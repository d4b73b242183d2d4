use facet_search::crop::{aligned_crop, crop_document, crop_text, sort_matches};
use facet_search::highlight::Highlight;
use facet_search::names::NameMap;
use facet_search::schema::Schema;
use indexmap::IndexMap;
use serde_json::Value;

const FOUNDATION: &str = r#"En ce début de trentième millénaire, l'Empire n'a jamais été aussi puissant, aussi étendu à travers toute la galaxie. C'est dans sa capitale, Trantor, que l'éminent savant Hari Seldon invente la psychohistoire, une science toute nouvelle, à base de psychologie et de mathématiques, qui lui permet de prédire l'avenir... C'est-à-dire l'effondrement de l'Empire d'ici cinq siècles et au-delà, trente mille années de chaos et de ténèbres. Pour empêcher cette catastrophe et sauver la civilisation, Seldon crée la Fondation."#;

fn cut(text: &str, start: usize, length: usize) -> String {
    text.chars().skip(start).take(length).collect::<String>().trim().to_string()
}

fn span(attribute: u16, char_index: u16, char_length: u16) -> Highlight {
    Highlight { attribute, char_index, char_length }
}

#[test]
fn aligned_crops() {
    let text = FOUNDATION;

    // simple test
    let (start, length) = aligned_crop(&text, 6, 2);
    let cropped = text.chars().skip(start).take(length).collect::<String>().trim().to_string();
    assert_eq!("début", cropped);

    // first word test
    let (start, length) = aligned_crop(&text, 0, 1);
    let cropped = text.chars().skip(start).take(length).collect::<String>().trim().to_string();
    assert_eq!("En", cropped);
    // last word test
    let (start, length) = aligned_crop(&text, 510, 2);
    let cropped = text.chars().skip(start).take(length).collect::<String>().trim().to_string();
    assert_eq!("Fondation", cropped);

    // CJK tests
    let text = "this isのス foo myタイリ test";

    // mixed charset
    let (start, length) = aligned_crop(&text, 5, 3);
    let cropped = text.chars().skip(start).take(length).collect::<String>().trim().to_string();
    assert_eq!("isのス", cropped);

    // split regular word / CJK word, no space
    let (start, length) = aligned_crop(&text, 7, 1);
    let cropped = text.chars().skip(start).take(length).collect::<String>().trim().to_string();
    assert_eq!("のス", cropped);
}

#[test]
fn aligned_crop_gives_exact_windows() {
    let text = "this isのス foo myタイリ test";
    assert_eq!(aligned_crop(text, 5, 3), (4, 6));
    assert_eq!(aligned_crop(text, 7, 1), (7, 2));
    assert_eq!(aligned_crop(FOUNDATION, 6, 2), (5, 6));
    assert_eq!(aligned_crop(FOUNDATION, 0, 1), (0, 2));
}

#[test]
fn crop_without_context_is_the_matched_token() {
    assert_eq!(aligned_crop("hello world", 6, 0), (6, 6));
    assert_eq!(aligned_crop("hello world", 0, 0), (0, 6));
    assert_eq!(cut("hello world", 6, 6), "world");
    // a space at the match: no word component, so one character
    assert_eq!(aligned_crop("hello world", 5, 0), (5, 1));
}

#[test]
fn crop_without_context_of_cjk_is_never_empty() {
    assert_eq!(aligned_crop("のス", 0, 0), (0, 1));
    assert_eq!(aligned_crop("のス", 1, 0), (1, 1));
    assert_eq!(cut("のス", 1, 1), "ス");
    // past the end of the text the window still has length one
    assert_eq!(aligned_crop("ab", 7, 0), (7, 1));
    assert_eq!(aligned_crop("", 0, 0), (0, 1));
}

#[test]
fn crop_windows_beyond_machine_integers_are_held_within_them() {
    assert_eq!(aligned_crop("abc", 1, usize::MAX), (0, usize::MAX));
    assert_eq!(aligned_crop("abc", 1, usize::MAX / 2 + 1), (0, usize::MAX));
    assert_eq!(aligned_crop("abc", 1, usize::MAX / 2), (0, usize::MAX - 1));
    assert_eq!(aligned_crop("abc", usize::MAX, 0), (usize::MAX, 1));
    assert_eq!(aligned_crop("abc", usize::MAX, 1), (usize::MAX - 1, 1));
}

#[test]
fn crop_never_cuts_a_word() {
    let text = "alpha beta gamma delta";
    // the start lands inside "alpha", the end inside "gamma"
    let (start, length) = aligned_crop(text, 8, 4);
    assert_eq!((start, length), (5, 11));
    assert_eq!(cut(text, start, length), "beta gamma");
}

#[test]
fn crop_keeps_cjk_characters_apart_from_latin_words() {
    let text = "abのスcd";
    // the end lands right after "の": a CJK character extends no word
    assert_eq!(aligned_crop(text, 2, 1), (2, 2));
    assert_eq!(cut(text, 2, 2), "のス");
    // the start lands after "の", which ends no word; the end lands inside "cd"
    assert_eq!(aligned_crop(text, 4, 1), (3, 3));
    assert_eq!(cut(text, 3, 3), "スcd");
}

#[test]
fn crop_text_remaps_matches_inside_the_window() {
    let text = "this isのス foo myタイリ test";
    let matches = vec![span(0, 5, 2), span(0, 14, 2)];
    let (cropped, kept) = crop_text(text, &matches, 3);
    assert_eq!(cropped, "isのス");
    assert_eq!(kept, vec![span(0, 1, 2)]);
}

#[test]
fn crop_text_keeps_every_match_that_fits() {
    let text = "one two three four";
    // window around index 4 with context 5: [0, 10) grown to the end of "three"
    let matches = vec![span(2, 4, 3), span(2, 0, 3), span(2, 8, 5), span(2, 14, 4)];
    let (cropped, kept) = crop_text(text, &matches, 5);
    assert_eq!(cropped, "one two three");
    assert_eq!(kept, vec![span(2, 4, 3), span(2, 0, 3), span(2, 8, 5)]);
}

#[test]
fn crop_text_without_matches_crops_the_start() {
    let (cropped, kept) = crop_text("hello world", &Vec::new(), 2);
    assert_eq!(cropped, "hello");
    assert_eq!(kept, Vec::<Highlight>::new());
}

#[test]
fn crop_text_with_a_huge_context_keeps_everything() {
    let matches = vec![span(0, 6, 5)];
    let (cropped, kept) = crop_text("  hello world  ", &matches, usize::MAX);
    assert_eq!(cropped, "hello world");
    assert_eq!(kept, vec![span(0, 6, 5)]);
}

#[test]
fn crop_text_drops_a_match_before_the_window() {
    // the start moves past the word that the match stands in
    let text = "abcdefgh xyz";
    let (cropped, kept) = crop_text(text, &vec![span(0, 4, 2)], 2);
    assert_eq!(cropped, "xyz");
    assert_eq!(kept, Vec::<Highlight>::new());
}

#[test]
fn sort_matches_orders_by_index_then_length_then_field() {
    let mut matches = vec![span(1, 5, 2), span(0, 5, 2), span(3, 1, 9), span(2, 5, 1), span(0, 0, 4)];
    sort_matches(&mut matches);
    assert_eq!(
        matches,
        vec![span(0, 0, 4), span(3, 1, 9), span(2, 5, 1), span(0, 5, 2), span(1, 5, 2)]
    );
}

#[test]
fn crop_document_crops_text_fields_and_moves_matches() {
    let mut schema = Schema::new();
    schema.insert("title", true, false);
    schema.insert("year", true, false);
    let mut document: IndexMap<String, Value> = IndexMap::new();
    document.insert("title".to_string(), Value::String("Fondation (Isaac ASIMOV)".to_string()));
    document.insert("year".to_string(), Value::from(1951));
    let mut matches = vec![span(1, 0, 4), span(0, 11, 5)];
    let mut fields = NameMap::new();
    fields.insert("title".to_string(), 3);
    fields.insert("year".to_string(), 3);
    fields.insert("unknown".to_string(), 3);

    crop_document(&mut document, &mut matches, &schema, &fields);

    let mut expected: IndexMap<String, Value> = IndexMap::new();
    expected.insert("title".to_string(), Value::String("(Isaac".to_string()));
    expected.insert("year".to_string(), Value::from(1951));
    assert_eq!(document, expected);
    // the match in "year" stays, sorted; the match in "title" is counted from
    // the window's start and goes to the end
    assert_eq!(matches, vec![span(1, 0, 4), span(0, 2, 5)]);
}

#[test]
fn crop_document_without_fields_only_sorts() {
    let schema = Schema::new();
    let mut document: IndexMap<String, Value> = IndexMap::new();
    document.insert("title".to_string(), Value::String("some text".to_string()));
    let before = document.clone();
    let mut matches = vec![span(0, 5, 4), span(0, 0, 4)];
    crop_document(&mut document, &mut matches, &schema, &NameMap::new());
    assert_eq!(document, before);
    assert_eq!(matches, vec![span(0, 0, 4), span(0, 5, 4)]);
}
