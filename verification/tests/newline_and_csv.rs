//! Newline framing for JSON Lines and CSV: line splitting, the final
//! unterminated line, header handling, bounds, and chunk invariance.

use bytes::BytesMut;
use reqwest_streams::error::StreamBodyKind;
use reqwest_streams::newline_codec::{
    csv_decode_chunks, lines_decode_chunks, CsvLineCodec, NewlineCodec,
};

fn one_chunk(bytes: &[u8]) -> Vec<Vec<u8>> {
    vec![bytes.to_vec()]
}

fn byte_chunks(bytes: &[u8]) -> Vec<Vec<u8>> {
    bytes.iter().map(|b| vec![*b]).collect()
}

#[test]
fn lines_split_on_lf() {
    let input = b"{\"a\":1}\n{\"a\":2}\n";
    let (frames, err) = lines_decode_chunks(&one_chunk(input), 1024);
    assert!(err.is_none());
    assert_eq!(frames.len(), 2);
    assert_eq!(frames[0], b"{\"a\":1}".to_vec());
    assert_eq!(frames[1], b"{\"a\":2}".to_vec());
}

#[test]
fn final_line_without_newline_is_emitted() {
    let input = b"first\nsecond";
    let (frames, err) = lines_decode_chunks(&one_chunk(input), 1024);
    assert!(err.is_none());
    assert_eq!(frames.len(), 2);
    assert_eq!(frames[0], b"first".to_vec());
    assert_eq!(frames[1], b"second".to_vec());
}

#[test]
fn lines_chunking_is_irrelevant() {
    let input = b"alpha\nbeta\ngamma";
    let whole = lines_decode_chunks(&one_chunk(input), 1024);
    let split = lines_decode_chunks(&byte_chunks(input), 1024);
    assert_eq!(whole.0, split.0);
    assert!(whole.1.is_none() && split.1.is_none());
}

#[test]
fn line_frames_deserialize_as_json_values() {
    let input = b"{\"a\":1}\n{\"a\":2}";
    let (frames, err) = lines_decode_chunks(&one_chunk(input), 1024);
    assert!(err.is_none());
    for (i, frame) in frames.iter().enumerate() {
        let v: serde_json::Value = serde_json::from_slice(frame).unwrap();
        assert_eq!(v["a"], serde_json::Value::from((i + 1) as i64));
    }
}

#[test]
fn overlong_line_is_max_len_error() {
    let input = b"0123456789abcdef\n";
    let (frames, err) = lines_decode_chunks(&one_chunk(input), 10);
    assert_eq!(frames.len(), 0);
    assert_eq!(err.unwrap().kind(), StreamBodyKind::MaxLenReachedError);
    let (frames2, err2) = lines_decode_chunks(&byte_chunks(input), 10);
    assert_eq!(frames2.len(), 0);
    assert_eq!(err2.unwrap().kind(), StreamBodyKind::MaxLenReachedError);
}

#[test]
fn line_of_exactly_max_length_is_accepted() {
    let input = b"0123456789\n";
    let (frames, err) = lines_decode_chunks(&one_chunk(input), 10);
    assert!(err.is_none());
    assert_eq!(frames, vec![b"0123456789".to_vec()]);
}

#[test]
fn newline_codec_scans_incrementally() {
    let mut codec = NewlineCodec::new_with_max_length(1024);
    let mut buf = BytesMut::new();
    buf.extend_from_slice(b"par");
    assert!(codec.decode(&mut buf).unwrap().is_none());
    buf.extend_from_slice(b"tial\nrest");
    assert_eq!(codec.decode(&mut buf).unwrap().unwrap(), b"partial".to_vec());
    assert!(codec.decode(&mut buf).unwrap().is_none());
    assert_eq!(codec.decode_eof(&mut buf).unwrap().unwrap(), b"rest".to_vec());
}

#[test]
fn csv_without_header_emits_every_row() {
    let input = b"v1,v2\nv3,v4\n";
    let (frames, err) = csv_decode_chunks(&one_chunk(input), 1024, false);
    assert!(err.is_none());
    assert_eq!(frames.len(), 2);
    assert_eq!(frames[0], b"v1,v2".to_vec());
    assert_eq!(frames[1], b"v3,v4".to_vec());
}

#[test]
fn csv_with_header_never_emits_the_header_row() {
    let input = b"h1,h2\nv1,v2\nv3,v4";
    let (frames, err) = csv_decode_chunks(&one_chunk(input), 1024, true);
    assert!(err.is_none());
    assert_eq!(frames.len(), 2);
    assert_eq!(frames[0], b"v1,v2".to_vec());
    assert_eq!(frames[1], b"v3,v4".to_vec());
    // same outcome delivered byte by byte
    let (frames2, err2) = csv_decode_chunks(&byte_chunks(input), 1024, true);
    assert!(err2.is_none());
    assert_eq!(frames, frames2);
}

#[test]
fn csv_rows_parse_with_the_csv_reader() {
    let input = b"name;city\nalice;paris\nbob;rome";
    let (frames, err) = csv_decode_chunks(&one_chunk(input), 1024, true);
    assert!(err.is_none());
    let mut rows: Vec<Vec<String>> = Vec::new();
    for frame in &frames {
        let mut reader = csv::ReaderBuilder::new()
            .delimiter(b';')
            .has_headers(false)
            .from_reader(frame.as_slice());
        for record in reader.records() {
            let record = record.unwrap();
            rows.push(record.iter().map(|f| f.to_string()).collect());
        }
    }
    assert_eq!(
        rows,
        vec![
            vec!["alice".to_string(), "paris".to_string()],
            vec!["bob".to_string(), "rome".to_string()],
        ]
    );
}

#[test]
fn csv_overlong_row_is_max_len_error() {
    let input = b"v1,v2,v3,v4,v5\n";
    let (frames, err) = csv_decode_chunks(&one_chunk(input), 5, false);
    assert_eq!(frames.len(), 0);
    assert_eq!(err.unwrap().kind(), StreamBodyKind::MaxLenReachedError);
}

#[test]
fn csv_flushed_final_line_is_still_the_header() {
    // the whole input is one unterminated line: with a header expected it is
    // consumed, never emitted
    let input = b"h1,h2";
    let (frames, err) = csv_decode_chunks(&one_chunk(input), 1024, true);
    assert!(err.is_none());
    assert_eq!(frames.len(), 0);
}

#[test]
fn csv_codec_skips_header_incrementally() {
    let mut codec = CsvLineCodec::new_with_max_length(1024, true);
    let mut buf = BytesMut::new();
    buf.extend_from_slice(b"h1,h2\nv1,v2\n");
    // the first complete line is the header: consumed, nothing emitted
    assert!(codec.decode(&mut buf).unwrap().is_none());
    assert_eq!(codec.decode(&mut buf).unwrap().unwrap(), b"v1,v2".to_vec());
}

#[test]
fn empty_input_yields_no_lines() {
    let (frames, err) = lines_decode_chunks(&Vec::new(), 1024);
    assert!(err.is_none());
    assert!(frames.is_empty());
    let (csv_frames, csv_err) = csv_decode_chunks(&Vec::new(), 1024, true);
    assert!(csv_err.is_none());
    assert!(csv_frames.is_empty());
}

#[test]
fn empty_lines_are_emitted_as_empty_frames() {
    let input = b"\n\nx\n";
    let (frames, err) = lines_decode_chunks(&one_chunk(input), 16);
    assert!(err.is_none());
    assert_eq!(frames, vec![Vec::new(), Vec::new(), b"x".to_vec()]);
}
