use utf8_stream::decoders::Utf8;
use utf8_stream::errors::DecodeErrorKind;
use utf8_stream::read::Reader;
use utf8_stream::source::ChunkSource;

fn reader_over(chunks: Vec<Vec<u8>>) -> Reader<ChunkSource> {
    Reader::new(ChunkSource::new(chunks), Utf8::new())
}

fn read_all(chunks: Vec<Vec<u8>>) -> Result<Vec<u8>, DecodeErrorKind> {
    let mut r = reader_over(chunks);
    let mut buf = Vec::new();
    match r.read_to_end(&mut buf) {
        Ok(n) => {
            assert_eq!(n, buf.len());
            Ok(buf)
        }
        Err(e) => Err(e.kind()),
    }
}

#[test]
fn whole_valid_buffer_decodes_to_itself() {
    let text = "grüße, 世界! 𝄞 clef €";
    let got = read_all(vec![text.as_bytes().to_vec()]).unwrap();
    assert_eq!(got, text.as_bytes());
}

#[test]
fn every_two_chunk_split_matches_the_whole_decode() {
    let text = "héllo € 日本語 𝄞 end";
    let bytes = text.as_bytes();
    let whole = read_all(vec![bytes.to_vec()]).unwrap();
    for k in 0..=bytes.len() {
        let chunks = vec![bytes[..k].to_vec(), bytes[k..].to_vec()];
        let got = read_all(chunks).unwrap();
        assert_eq!(got, whole, "split at offset {}", k);
    }
}

#[test]
fn single_byte_chunks_match_the_whole_decode() {
    let text = "aé€𝄞é日a";
    let bytes = text.as_bytes();
    let whole = read_all(vec![bytes.to_vec()]).unwrap();
    let chunks: Vec<Vec<u8>> = bytes.iter().map(|b| vec![*b]).collect();
    assert_eq!(read_all(chunks).unwrap(), whole);
}

#[test]
fn empty_chunks_in_the_middle_are_transparent() {
    let got = read_all(vec![vec![0x41], vec![], vec![0x42], vec![]]).unwrap();
    assert_eq!(got, b"AB".to_vec());
}

#[test]
fn truncated_stream_reports_partial_input() {
    let err = read_all(vec![vec![0xE2, 0x82]]).unwrap_err();
    assert_eq!(err, DecodeErrorKind::PartialInput);
    let err = read_all(vec![vec![0x41], vec![0xF0, 0x9D, 0x84]]).unwrap_err();
    assert_eq!(err, DecodeErrorKind::PartialInput);
}

#[test]
fn invalid_bytes_report_invalid_input_after_the_valid_prefix() {
    let mut r = reader_over(vec![vec![0x41, 0x42, 0xFF, 0x43]]);
    let mut buf = Vec::new();
    let err = r.read_to_end(&mut buf).unwrap_err();
    assert_eq!(err.kind(), DecodeErrorKind::InvalidInput);
    // the validated prefix was still delivered
    assert_eq!(buf, b"AB".to_vec());
}

#[test]
fn invalid_continuation_across_chunks_reports_invalid_input() {
    let err = read_all(vec![vec![0xE2], vec![0x20, 0x20]]).unwrap_err();
    assert_eq!(err, DecodeErrorKind::InvalidInput);
}

#[test]
fn fill_buf_and_consume_walk_the_stream() {
    let text = "a€b";
    let mut r = reader_over(vec![text.as_bytes().to_vec()]);
    let mut got = Vec::new();
    loop {
        let v = r.fill_buf().unwrap();
        if v.is_empty() {
            break;
        }
        // consume one byte at a time: partial consumption must be honored
        got.push(v[0]);
        r.consume(1);
    }
    assert_eq!(got, text.as_bytes());
}

#[test]
fn fill_buf_returns_the_same_bytes_until_consumed() {
    let mut r = reader_over(vec![b"abc".to_vec()]);
    let first = r.fill_buf().unwrap();
    let second = r.fill_buf().unwrap();
    assert_eq!(first, second);
    r.consume(first.len());
    let after = r.fill_buf().unwrap();
    assert!(after.is_empty());
}

#[test]
fn read_respects_its_limit() {
    let mut r = reader_over(vec![b"abcdef".to_vec()]);
    let v = r.read(4).unwrap();
    assert_eq!(v, b"abcd".to_vec());
    let v = r.read(0).unwrap();
    assert!(v.is_empty());
    let v = r.read(100).unwrap();
    assert_eq!(v, b"ef".to_vec());
    let v = r.read(100).unwrap();
    assert!(v.is_empty());
}

#[test]
fn read_to_string_decodes_across_chunks() {
    let text = "päivää €uro 𝄞";
    let bytes = text.as_bytes();
    let mid = bytes.len() / 2;
    let mut r = reader_over(vec![bytes[..mid].to_vec(), bytes[mid..].to_vec()]);
    let mut s = String::from("pre|");
    let n = r.read_to_string(&mut s).unwrap();
    assert_eq!(n, bytes.len());
    assert_eq!(s, format!("pre|{}", text));
}

#[test]
fn read_to_string_after_partial_char_read_is_rejected() {
    // consume one byte of a two-byte character, then ask for a string
    let mut r = reader_over(vec!["é".as_bytes().to_vec(), b"xy".to_vec()]);
    let v = r.fill_buf().unwrap();
    assert_eq!(v, "é".as_bytes().to_vec());
    r.consume(1);
    let mut s = String::new();
    let err = r.read_to_string(&mut s).unwrap_err();
    assert_eq!(err.kind(), DecodeErrorKind::InvalidInput);
    assert!(s.is_empty());
}

#[test]
fn read_to_string_delivers_valid_prefix_before_failing() {
    let mut r = reader_over(vec![vec![0x41, 0xC3, 0xA9, 0xFF]]);
    let mut s = String::new();
    let err = r.read_to_string(&mut s).unwrap_err();
    assert_eq!(err.kind(), DecodeErrorKind::InvalidInput);
    assert_eq!(s, "Aé");
}

#[test]
fn read_to_end_reports_partial_tail_after_delivering_prefix() {
    let mut r = reader_over(vec![b"ok".to_vec(), vec![0xE2, 0x82]]);
    let mut buf = Vec::new();
    let err = r.read_to_end(&mut buf).unwrap_err();
    assert_eq!(err.kind(), DecodeErrorKind::PartialInput);
    assert_eq!(buf, b"ok".to_vec());
}

#[test]
fn split_sequences_across_many_chunks_stitch_back_together() {
    // every chunking of a stream that interleaves widths 1 through 4
    let text = "a€𝄞é";
    let bytes = text.as_bytes();
    for step in 1..=bytes.len() {
        let chunks: Vec<Vec<u8>> = bytes.chunks(step).map(|c| c.to_vec()).collect();
        assert_eq!(read_all(chunks).unwrap(), bytes, "chunk size {}", step);
    }
}
