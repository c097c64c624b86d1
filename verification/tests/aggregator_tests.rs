use sentiment_counter::codec::{decode, encode};
use sentiment_counter::document::CounterDocument;
use sentiment_counter::label::Label;
use sentiment_counter::store::update_document;

#[test]
fn increment_from_empty() {
    let d = CounterDocument::new();
    let d2 = d.increment(Label::Positive);
    assert_eq!(d2.get_count(Label::Positive), 1);
    assert_eq!(d2.get_count(Label::Negative), 0);
}

#[test]
fn increment_changes_only_its_label() {
    let d = CounterDocument::from_parts(Some(2), Some(5));
    let d2 = d.increment(Label::Positive);
    assert_eq!(d2.get_count(Label::Positive), 6);
    assert_eq!(d2.get_count(Label::Negative), 2);
    let d3 = d2.increment(Label::Negative);
    assert_eq!(d3.get_count(Label::Negative), 3);
    assert_eq!(d3.get_count(Label::Positive), 6);
}

#[test]
fn increment_keeps_absent_label_absent() {
    let d = CounterDocument::from_parts(None, Some(1));
    let d2 = d.increment(Label::Positive);
    assert_eq!(encode(&d2), b"Positive,2\n".to_vec());
}

#[test]
fn get_count_of_absent_label_is_zero() {
    let d = CounterDocument::from_parts(Some(3), None);
    assert_eq!(d.get_count(Label::Positive), 0);
}

#[test]
fn update_document_increments_bytes() {
    let bytes = b"Negative,2\nPositive,5\n".to_vec();
    let out = update_document(&bytes, Label::Positive).unwrap();
    assert_eq!(out, b"Negative,2\nPositive,6\n".to_vec());
}

#[test]
fn update_document_creates_row_on_empty() {
    let bytes = b"".to_vec();
    let out = update_document(&bytes, Label::Negative).unwrap();
    assert_eq!(out, b"Negative,1\n".to_vec());
}

#[test]
fn update_document_rejects_malformed_bytes() {
    let bytes = b"bogus\n".to_vec();
    assert!(update_document(&bytes, Label::Positive).is_err());
}

#[test]
fn update_document_rejects_count_at_limit() {
    let bytes = b"Positive,18446744073709551615\n".to_vec();
    assert!(update_document(&bytes, Label::Positive).is_err());
    // the other label still has room
    let out = update_document(&bytes, Label::Negative).unwrap();
    let d = decode(&out).unwrap();
    assert_eq!(d.get_count(Label::Negative), 1);
    assert_eq!(d.get_count(Label::Positive), u64::MAX);
}
