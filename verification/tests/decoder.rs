use utf8_stream::decode::Decoded;
use utf8_stream::decoders::utf8::{utf8_check, validate_next, validate_next_bulk};
use utf8_stream::decoders::Utf8;
use utf8_stream::errors::DecodeErrorKind;

#[test]
fn ascii_is_passed_through_whole() {
    let mut d = Utf8::new();
    let input = b"hello, world".to_vec();
    match d.decode(&input).unwrap() {
        Decoded::InPlace(len) => assert_eq!(len, input.len()),
        other => panic!("expected InPlace, got {:?}", other),
    }
}

#[test]
fn empty_input_on_fresh_decoder_is_empty_pass_through() {
    let mut d = Utf8::new();
    match d.decode(&[]).unwrap() {
        Decoded::InPlace(len) => assert_eq!(len, 0),
        other => panic!("expected InPlace, got {:?}", other),
    }
}

#[test]
fn split_three_byte_sequence_is_stitched() {
    // the currency sign U+20AC split across two chunks
    let mut d = Utf8::new();
    match d.decode(&[0xE2, 0x82]).unwrap() {
        Decoded::Materialized(consumed, out) => {
            assert_eq!(consumed, 2);
            assert!(out.is_empty());
        }
        other => panic!("expected Materialized, got {:?}", other),
    }
    match d.decode(&[0xAC]).unwrap() {
        Decoded::Materialized(consumed, out) => {
            assert_eq!(consumed, 1);
            assert_eq!(out, vec![0xE2, 0x82, 0xAC]);
        }
        other => panic!("expected Materialized, got {:?}", other),
    }
}

#[test]
fn ascii_then_invalid_lead_passes_prefix_then_fails() {
    let mut d = Utf8::new();
    match d.decode(&[0x41, 0x42, 0xFF]).unwrap() {
        Decoded::InPlace(len) => assert_eq!(len, 2),
        other => panic!("expected InPlace, got {:?}", other),
    }
    let err = d.decode(&[0xFF]).unwrap_err();
    assert_eq!(err.kind(), DecodeErrorKind::InvalidInput);
}

#[test]
fn truncated_sequence_then_end_of_stream_is_partial_input() {
    let mut d = Utf8::new();
    match d.decode(&[0xE2, 0x82]).unwrap() {
        Decoded::Materialized(consumed, out) => {
            assert_eq!(consumed, 2);
            assert!(out.is_empty());
        }
        other => panic!("expected Materialized, got {:?}", other),
    }
    let err = d.decode(&[]).unwrap_err();
    assert_eq!(err.kind(), DecodeErrorKind::PartialInput);
}

#[test]
fn bad_continuation_byte_is_invalid_input() {
    // a 2-byte leading byte followed by a byte outside its continuation range
    let mut d = Utf8::new();
    match d.decode(&[0x41, 0xC2, 0x20]).unwrap() {
        Decoded::InPlace(len) => assert_eq!(len, 1),
        other => panic!("expected InPlace, got {:?}", other),
    }
    let err = d.decode(&[0xC2, 0x20]).unwrap_err();
    assert_eq!(err.kind(), DecodeErrorKind::InvalidInput);
}

#[test]
fn bad_continuation_inside_stitched_sequence_rolls_back() {
    let mut d = Utf8::new();
    match d.decode(&[0xE2]).unwrap() {
        Decoded::Materialized(consumed, out) => {
            assert_eq!(consumed, 1);
            assert!(out.is_empty());
        }
        other => panic!("expected Materialized, got {:?}", other),
    }
    let err = d.decode(&[0x20]).unwrap_err();
    assert_eq!(err.kind(), DecodeErrorKind::InvalidInput);
    // the partial state was rolled back, not extended by the bad byte;
    // end-of-stream still reports the dangling partial sequence
    let err = d.decode(&[]).unwrap_err();
    assert_eq!(err.kind(), DecodeErrorKind::PartialInput);
}

#[test]
fn output_is_exposed_until_consume() {
    let mut d = Utf8::new();
    d.decode(&[0xC3]).unwrap();
    assert!(d.output().is_empty());
    match d.decode(&[0xA9]).unwrap() {
        Decoded::Materialized(consumed, out) => {
            assert_eq!(consumed, 1);
            assert_eq!(out, vec![0xC3, 0xA9]);
        }
        other => panic!("expected Materialized, got {:?}", other),
    }
    assert_eq!(d.output(), vec![0xC3, 0xA9]);
    assert_eq!(d.output(), vec![0xC3, 0xA9]);
    d.consume();
    assert!(d.output().is_empty());
}

#[test]
fn reset_discards_partial_state() {
    let mut d = Utf8::new();
    d.decode(&[0xF0, 0x9D]).unwrap();
    d.reset();
    match d.decode(&[]).unwrap() {
        Decoded::InPlace(len) => assert_eq!(len, 0),
        other => panic!("expected InPlace, got {:?}", other),
    }
}

#[test]
fn validate_next_reports_lengths_prefixes_and_errors() {
    assert_eq!(validate_next(&[0x41]).unwrap(), 1);
    assert_eq!(validate_next(&[0xC3, 0xA9]).unwrap(), 2);
    assert_eq!(validate_next(&[0xE2, 0x82, 0xAC]).unwrap(), 3);
    assert_eq!(validate_next(&[0xF0, 0x9D, 0x84, 0x9E]).unwrap(), 4);
    // incomplete prefixes report length zero
    assert_eq!(validate_next(&[0xC3]).unwrap(), 0);
    assert_eq!(validate_next(&[0xE2, 0x82]).unwrap(), 0);
    assert_eq!(validate_next(&[0xF0, 0x9D, 0x84]).unwrap(), 0);
    // continuation bytes and impossible leading bytes cannot start a sequence
    assert!(validate_next(&[0x80]).is_err());
    assert!(validate_next(&[0xFF, 0x80]).is_err());
    // overlong encodings are rejected at the leading byte
    assert!(validate_next(&[0xC0, 0x80]).is_err());
    assert!(validate_next(&[0xC1, 0xBF]).is_err());
    assert!(validate_next(&[0xE0, 0x9F, 0x80]).is_err());
    assert!(validate_next(&[0xF0, 0x8F, 0x80, 0x80]).is_err());
    // the surrogate range is excluded
    assert!(validate_next(&[0xED, 0xA0, 0x80]).is_err());
    assert_eq!(validate_next(&[0xED, 0x9F, 0xBF]).unwrap(), 3);
    // nothing above U+10FFFF
    assert!(validate_next(&[0xF4, 0x90, 0x80, 0x80]).is_err());
    assert_eq!(validate_next(&[0xF4, 0x8F, 0xBF, 0xBF]).unwrap(), 4);
    assert!(validate_next(&[0xF5, 0x80, 0x80, 0x80]).is_err());
}

#[test]
fn validate_next_bulk_agrees_on_whole_windows() {
    assert_eq!(validate_next_bulk(&[0x41, 0x42, 0x43, 0x44]).unwrap(), 1);
    assert_eq!(validate_next_bulk(&[0xE2, 0x82, 0xAC, 0x41]).unwrap(), 3);
    assert!(validate_next_bulk(&[0xED, 0xA0, 0x80, 0x80]).is_err());
}

#[test]
fn utf8_check_accepts_and_rejects() {
    assert!(utf8_check("päivää €".as_bytes()));
    assert!(utf8_check(&[]));
    assert!(!utf8_check(&[0xE2, 0x82]));
    assert!(!utf8_check(&[0x41, 0xFF]));
    assert!(!utf8_check(&[0x82, 0x41]));
}

#[test]
fn decode_error_carries_its_fields() {
    let e = utf8_stream::errors::DecodeError::new(DecodeErrorKind::InvalidInput, 0, "bad bytes");
    assert_eq!(e.kind(), DecodeErrorKind::InvalidInput);
    assert_eq!(e.skip_len(), 0);
    assert_eq!(e.description(), "bad bytes");
}

#[test]
fn decoded_constructors_wrap_their_values() {
    match Decoded::some(3, vec![1, 2, 3]).unwrap() {
        Decoded::Materialized(consumed, out) => {
            assert_eq!(consumed, 3);
            assert_eq!(out, vec![1, 2, 3]);
        }
        other => panic!("expected Materialized, got {:?}", other),
    }
    match Decoded::in_place(7).unwrap() {
        Decoded::InPlace(len) => assert_eq!(len, 7),
        other => panic!("expected InPlace, got {:?}", other),
    }
}
