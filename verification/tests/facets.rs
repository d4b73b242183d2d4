use facet_search::facets::{FacetError, FacetKey, Facets, FACET_KEY_LEN, FACET_VALUE_MAX_LEN};
use facet_search::postings::{DocumentId, Postings};
use facet_search::schema::FieldId;

fn ids(numbers: &[u64]) -> Vec<DocumentId> {
    numbers.iter().map(|n| DocumentId(*n)).collect()
}

fn key(field: u16, value: &str) -> FacetKey {
    FacetKey::new(FieldId(field), value.to_string())
}

fn encoded(field: u16, value: &str) -> Vec<u8> {
    FacetKey::bytes_encode(&key(field, value)).unwrap()
}

#[test]
fn facet_key_has_the_documented_layout() {
    let bytes = encoded(0x0102, "red");
    assert_eq!(bytes.len(), FACET_KEY_LEN);
    assert_eq!(bytes.len(), 256);
    assert_eq!(&bytes[..5], &[1, 2, b'r', b'e', b'd']);
    assert!(bytes[5..255].iter().all(|b| *b == 0));
    assert_eq!(bytes[255], 3);

    let empty = encoded(7, "");
    assert_eq!(&empty[..2], &[0, 7]);
    assert!(empty[2..].iter().all(|b| *b == 0));
}

#[test]
fn facet_key_encoding_is_deterministic() {
    assert_eq!(encoded(3, "blue"), encoded(3, "blue"));
    assert_eq!(key(3, "blue").field_id(), FieldId(3));
}

#[test]
fn facet_key_encoding_is_injective() {
    let keys = [
        encoded(1, "a"),
        encoded(1, "a\0"),
        encoded(1, "a\0\0"),
        encoded(1, "b"),
        encoded(2, "a"),
        encoded(256, "a"),
        encoded(1, ""),
        encoded(1, "é"),
    ];
    for i in 0..keys.len() {
        for j in 0..keys.len() {
            assert_eq!(keys[i] == keys[j], i == j);
        }
    }
}

#[test]
fn facet_key_round_trip() {
    for (field, value) in [(0, ""), (1, "red"), (65535, "日本語"), (258, "a\0b")] {
        let first = key(field, value);
        let bytes = FacetKey::bytes_encode(&first).unwrap();
        let decoded = FacetKey::bytes_decode(&bytes).unwrap();
        assert_eq!(decoded, first);
        assert_eq!(decoded.field_id(), FieldId(field));
        assert_eq!(FacetKey::bytes_encode(&decoded).unwrap(), bytes);
    }
}

#[test]
fn facet_value_length_is_validated() {
    let longest = "x".repeat(FACET_VALUE_MAX_LEN);
    let too_long = "x".repeat(FACET_VALUE_MAX_LEN + 1);
    assert!(key(1, &longest).is_encodable());
    assert_eq!(FacetKey::bytes_encode(&key(1, &longest)).unwrap()[255], 253);
    assert!(!key(1, &too_long).is_encodable());
    assert_eq!(FacetKey::bytes_encode(&key(1, &too_long)), None);
    // the limit counts bytes: 127 two-byte characters are one byte too many
    let accents = "é".repeat(127);
    assert_eq!(FacetKey::bytes_encode(&key(1, &accents)), None);
    assert!(key(1, &"é".repeat(126)).is_encodable());
}

#[test]
fn facet_key_decoding_rejects_what_is_no_key() {
    let good = encoded(1, "red");
    assert!(FacetKey::bytes_decode(&good).is_some());
    assert_eq!(FacetKey::bytes_decode(&good[..255]), None);
    assert_eq!(FacetKey::bytes_decode(&[]), None);
    let mut longer = good.clone();
    longer.push(0);
    assert_eq!(FacetKey::bytes_decode(&longer), None);
    let mut bad_length = good.clone();
    bad_length[255] = 254;
    assert_eq!(FacetKey::bytes_decode(&bad_length), None);
    let mut bad_padding = good.clone();
    bad_padding[100] = 1;
    assert_eq!(FacetKey::bytes_decode(&bad_padding), None);
    // a shorter length leaves bytes of the value in the padding
    let mut shorter = good.clone();
    shorter[255] = 2;
    assert_eq!(FacetKey::bytes_decode(&shorter), None);
}

#[test]
fn facet_keys_sort_by_field_then_value() {
    let mut pairs: Vec<(u16, &str)> = vec![
        (2, "a"),
        (1, "b"),
        (1, "a"),
        (1, "ab"),
        (1, ""),
        (1, "a\0"),
        (256, ""),
        (255, "zzz"),
        (1, "é"),
        (1, "z"),
        (1, "aa"),
    ];
    let mut keys: Vec<Vec<u8>> = pairs.iter().map(|(f, v)| encoded(*f, v)).collect();
    keys.sort();
    pairs.sort_by(|a, b| (a.0, a.1.as_bytes()).cmp(&(b.0, b.1.as_bytes())));
    let expected: Vec<Vec<u8>> = pairs.iter().map(|(f, v)| encoded(*f, v)).collect();
    assert_eq!(keys, expected);
}

#[test]
fn postings_are_sorted_and_unique() {
    assert_eq!(Postings::from_dirty(ids(&[3, 1, 2])).ids(), &ids(&[1, 2, 3]));
    assert_eq!(Postings::from_dirty(ids(&[5, 3, 5, 1, 3, 5])).ids(), &ids(&[1, 3, 5]));
    assert_eq!(Postings::from_dirty(ids(&[])).ids(), &ids(&[]));
    assert_eq!(Postings::from_dirty(ids(&[u64::MAX, 0, u64::MAX])).ids(), &ids(&[0, u64::MAX]));
    assert_eq!(Postings::new().len(), 0);
    let postings = Postings::from_dirty(ids(&[9, 4]));
    assert_eq!(postings.len(), 2);
    assert!(postings.contains(DocumentId(4)));
    assert!(!postings.contains(DocumentId(5)));
}

#[test]
fn postings_bytes_are_little_endian_numbers() {
    let postings = Postings::from_dirty(ids(&[258, 1]));
    assert_eq!(postings.to_bytes(), vec![1, 0, 0, 0, 0, 0, 0, 0, 2, 1, 0, 0, 0, 0, 0, 0]);
    assert_eq!(Postings::new().to_bytes(), Vec::<u8>::new());
}

#[test]
fn postings_round_trip() {
    let postings = Postings::from_dirty(ids(&[7, 0, u64::MAX, 1 << 40, 7]));
    let back = Postings::from_bytes(&postings.to_bytes()).unwrap();
    assert_eq!(back, postings);
    assert_eq!(back.ids(), &ids(&[0, 7, 1 << 40, u64::MAX]));
    assert_eq!(Postings::from_bytes(&[]).unwrap().len(), 0);
}

#[test]
fn postings_from_bytes_rejects_what_is_no_postings() {
    assert_eq!(Postings::from_bytes(&[1, 0, 0, 0, 0, 0, 0]), None);
    assert_eq!(Postings::from_bytes(&[1, 0, 0, 0, 0, 0, 0, 0, 9]), None);
    // out of order
    assert_eq!(Postings::from_bytes(&[2, 0, 0, 0, 0, 0, 0, 0, 1, 0, 0, 0, 0, 0, 0, 0]), None);
    // repeated
    assert_eq!(Postings::from_bytes(&[2, 0, 0, 0, 0, 0, 0, 0, 2, 0, 0, 0, 0, 0, 0, 0]), None);
}

#[test]
fn put_then_get_returns_the_sorted_set() {
    let mut facets = Facets::new();
    let red = key(1, "red");
    assert_eq!(facets.put_facets(&red, &Postings::from_dirty(ids(&[3, 1, 2]))), Ok(()));
    let found = facets.document_ids(&red).unwrap().unwrap();
    assert_eq!(found.ids(), &ids(&[1, 2, 3]));
    assert_eq!(facets.len(), 1);
}

#[test]
fn get_of_an_absent_key_is_empty() {
    let mut facets = Facets::new();
    assert_eq!(facets.document_ids(&key(1, "red")), Ok(None));
    facets.put_facets(&key(1, "red"), &Postings::from_dirty(ids(&[1]))).unwrap();
    assert_eq!(facets.document_ids(&key(1, "blue")), Ok(None));
    assert_eq!(facets.document_ids(&key(2, "red")), Ok(None));
}

#[test]
fn put_overwrites_and_does_not_merge() {
    let mut facets = Facets::new();
    let red = key(1, "red");
    facets.put_facets(&red, &Postings::from_dirty(ids(&[1, 2, 3]))).unwrap();
    facets.put_facets(&key(1, "blue"), &Postings::from_dirty(ids(&[8]))).unwrap();
    facets.put_facets(&red, &Postings::from_dirty(ids(&[9]))).unwrap();
    assert_eq!(facets.document_ids(&red).unwrap().unwrap().ids(), &ids(&[9]));
    assert_eq!(facets.document_ids(&key(1, "blue")).unwrap().unwrap().ids(), &ids(&[8]));
    assert_eq!(facets.len(), 2);
}

#[test]
fn put_of_a_value_too_long_fails_and_changes_nothing() {
    let mut facets = Facets::new();
    let long = key(1, &"x".repeat(254));
    assert_eq!(
        facets.put_facets(&long, &Postings::from_dirty(ids(&[1]))),
        Err(FacetError::ValueTooLong)
    );
    assert_eq!(facets.len(), 0);
    assert_eq!(facets.document_ids(&long), Err(FacetError::ValueTooLong));
}

#[test]
fn update_collapses_duplicate_document_ids() {
    let mut facets = Facets::new();
    let done = facets.update(vec![
        (key(1, "red"), ids(&[5, 3, 5, 1, 3])),
        (key(2, "big"), ids(&[2, 2, 2])),
    ]);
    assert_eq!(done, Ok(()));
    assert_eq!(facets.document_ids(&key(1, "red")).unwrap().unwrap().ids(), &ids(&[1, 3, 5]));
    assert_eq!(facets.document_ids(&key(2, "big")).unwrap().unwrap().ids(), &ids(&[2]));
    let (stored_key, stored_value) = facets.record(0);
    assert_eq!(stored_key, &encoded(1, "red"));
    assert_eq!(
        stored_value,
        &vec![1, 0, 0, 0, 0, 0, 0, 0, 3, 0, 0, 0, 0, 0, 0, 0, 5, 0, 0, 0, 0, 0, 0, 0]
    );
}

#[test]
fn update_takes_the_last_entry_of_a_key() {
    let mut facets = Facets::new();
    facets.put_facets(&key(1, "red"), &Postings::from_dirty(ids(&[40]))).unwrap();
    facets
        .update(vec![(key(1, "red"), ids(&[2, 1])), (key(1, "red"), ids(&[7]))])
        .unwrap();
    assert_eq!(facets.document_ids(&key(1, "red")).unwrap().unwrap().ids(), &ids(&[7]));
    assert_eq!(facets.len(), 1);
}

#[test]
fn update_is_all_or_nothing() {
    let mut facets = Facets::new();
    facets.put_facets(&key(1, "red"), &Postings::from_dirty(ids(&[1]))).unwrap();
    let done = facets.update(vec![
        (key(1, "red"), ids(&[2])),
        (key(1, &"y".repeat(300)), ids(&[3])),
        (key(1, "blue"), ids(&[4])),
    ]);
    assert_eq!(done, Err(FacetError::ValueTooLong));
    assert_eq!(facets.len(), 1);
    assert_eq!(facets.document_ids(&key(1, "red")).unwrap().unwrap().ids(), &ids(&[1]));
    assert_eq!(facets.document_ids(&key(1, "blue")), Ok(None));
}

#[test]
fn stored_bytes_that_are_no_postings_are_reported() {
    let mut facets = Facets::new();
    facets.put(encoded(1, "red"), vec![1, 2, 3]);
    assert_eq!(facets.document_ids(&key(1, "red")), Err(FacetError::Corrupted));
    facets.put(encoded(1, "red"), vec![4, 0, 0, 0, 0, 0, 0, 0]);
    assert_eq!(facets.document_ids(&key(1, "red")).unwrap().unwrap().ids(), &ids(&[4]));
}
