use sentiment_counter::codec::{decode, encode};
use sentiment_counter::document::CounterDocument;
use sentiment_counter::errors::LambdaError;
use sentiment_counter::label::Label;

#[test]
fn round_trip_empty_document() {
    let d = CounterDocument::new();
    let bytes = encode(&d);
    assert_eq!(bytes, b"".to_vec());
    let d2 = decode(&bytes).unwrap();
    assert!(d2 == d);
}

#[test]
fn round_trip_two_labels() {
    let d = CounterDocument::from_parts(Some(2), Some(5));
    let bytes = encode(&d);
    assert_eq!(bytes, b"Negative,2\nPositive,5\n".to_vec());
    let d2 = decode(&bytes).unwrap();
    assert!(d2 == d);
}

#[test]
fn round_trip_single_label() {
    let d = CounterDocument::from_parts(None, Some(41));
    let bytes = encode(&d);
    assert_eq!(bytes, b"Positive,41\n".to_vec());
    let d2 = decode(&bytes).unwrap();
    assert!(d2 == d);
}

#[test]
fn encode_is_deterministic_and_idempotent() {
    let d = CounterDocument::from_parts(Some(7), Some(9));
    let once = encode(&d);
    let twice = encode(&d);
    assert_eq!(once, twice);
    let reencoded = encode(&decode(&once).unwrap());
    assert_eq!(once, reencoded);
}

#[test]
fn decode_reads_counts() {
    let bytes = b"Negative,2\nPositive,5\n".to_vec();
    let d = decode(&bytes).unwrap();
    assert_eq!(d.get_count(Label::Negative), 2);
    assert_eq!(d.get_count(Label::Positive), 5);
}

#[test]
fn decode_collapses_duplicate_labels() {
    let bytes = b"Positive,1\nPositive,2\nNegative,4\n".to_vec();
    let d = decode(&bytes).unwrap();
    assert_eq!(d.get_count(Label::Positive), 3);
    assert_eq!(d.get_count(Label::Negative), 4);
    // re-encoding is canonical: sorted, one row per label
    assert_eq!(encode(&d), b"Negative,4\nPositive,3\n".to_vec());
}

#[test]
fn decode_accepts_leading_zeros() {
    let bytes = b"Positive,007\n".to_vec();
    let d = decode(&bytes).unwrap();
    assert_eq!(d.get_count(Label::Positive), 7);
}

#[test]
fn decode_empty_bytes_is_empty_document() {
    let bytes = b"".to_vec();
    let d = decode(&bytes).unwrap();
    assert_eq!(d.get_count(Label::Positive), 0);
    assert_eq!(d.get_count(Label::Negative), 0);
}

#[test]
fn decode_rejects_unknown_label() {
    let bytes = b"Neutral,1\n".to_vec();
    assert!(matches!(decode(&bytes), Err(LambdaError::EncodingError)));
}

#[test]
fn decode_rejects_missing_newline() {
    let bytes = b"Positive,1".to_vec();
    assert!(matches!(decode(&bytes), Err(LambdaError::EncodingError)));
}

#[test]
fn decode_rejects_empty_count() {
    let bytes = b"Positive,\n".to_vec();
    assert!(matches!(decode(&bytes), Err(LambdaError::EncodingError)));
}

#[test]
fn decode_rejects_non_digit_count() {
    let bytes = b"Positive,1x\n".to_vec();
    assert!(matches!(decode(&bytes), Err(LambdaError::EncodingError)));
}

#[test]
fn decode_rejects_missing_comma() {
    let bytes = b"Positive;1\n".to_vec();
    assert!(matches!(decode(&bytes), Err(LambdaError::EncodingError)));
}

#[test]
fn decode_rejects_count_beyond_u64() {
    let bytes = b"Positive,18446744073709551616\n".to_vec();
    assert!(matches!(decode(&bytes), Err(LambdaError::EncodingError)));
}

#[test]
fn decode_accepts_count_at_u64_max() {
    let bytes = b"Positive,18446744073709551615\n".to_vec();
    let d = decode(&bytes).unwrap();
    assert_eq!(d.get_count(Label::Positive), u64::MAX);
}

#[test]
fn decode_rejects_summed_total_beyond_u64() {
    let bytes = b"Positive,18446744073709551615\nPositive,1\n".to_vec();
    assert!(matches!(decode(&bytes), Err(LambdaError::EncodingError)));
}

#[test]
fn decode_rejects_non_utf8_garbage() {
    let bytes = vec![0xffu8, 0xfe, 0x00, 0x0a];
    assert!(matches!(decode(&bytes), Err(LambdaError::EncodingError)));
}
