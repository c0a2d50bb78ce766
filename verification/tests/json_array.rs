//! JSON array framing: object extraction, string handling, errors, and
//! chunk-boundary invariance.

use bytes::BytesMut;
use reqwest_streams::error::StreamBodyKind;
use reqwest_streams::json_array_codec::{json_array_decode_chunks, JsonArrayCodec};

fn one_chunk(bytes: &[u8]) -> Vec<Vec<u8>> {
    vec![bytes.to_vec()]
}

fn byte_chunks(bytes: &[u8]) -> Vec<Vec<u8>> {
    bytes.iter().map(|b| vec![*b]).collect()
}

#[test]
fn two_objects_single_chunk() {
    let input = b"[{\"a\":1},{\"a\":2}]";
    let (frames, err) = json_array_decode_chunks(&one_chunk(input), 1024);
    assert!(err.is_none());
    assert_eq!(frames.len(), 2);
    assert_eq!(frames[0], b"{\"a\":1}".to_vec());
    assert_eq!(frames[1], b"{\"a\":2}".to_vec());
}

#[test]
fn two_objects_byte_by_byte() {
    let input = b"[{\"a\":1},{\"a\":2}]";
    let (frames, err) = json_array_decode_chunks(&byte_chunks(input), 1024);
    assert!(err.is_none());
    assert_eq!(frames.len(), 2);
    assert_eq!(frames[0], b"{\"a\":1}".to_vec());
    assert_eq!(frames[1], b"{\"a\":2}".to_vec());
}

#[test]
fn frames_deserialize_as_json_values() {
    let input = b"[{\"a\":1},{\"a\":2}]";
    let (frames, err) = json_array_decode_chunks(&one_chunk(input), 1024);
    assert!(err.is_none());
    let v0: serde_json::Value = serde_json::from_slice(&frames[0]).unwrap();
    let v1: serde_json::Value = serde_json::from_slice(&frames[1]).unwrap();
    assert_eq!(v0, serde_json::from_str::<serde_json::Value>("{\"a\":1}").unwrap());
    assert_eq!(v1, serde_json::from_str::<serde_json::Value>("{\"a\":2}").unwrap());
}

#[test]
fn braces_and_brackets_inside_strings_are_data() {
    // the string holds '{', '}', ',', '[' and an escaped quote
    let input = b"[{\"a\":\"}{,[\\\"\"},{\"b\":2}]";
    let (frames, err) = json_array_decode_chunks(&one_chunk(input), 1024);
    assert!(err.is_none());
    assert_eq!(frames.len(), 2);
    assert_eq!(frames[0], b"{\"a\":\"}{,[\\\"\"}".to_vec());
    assert_eq!(frames[1], b"{\"b\":2}".to_vec());
    let v: serde_json::Value = serde_json::from_slice(&frames[0]).unwrap();
    assert_eq!(v["a"], serde_json::Value::String("}{,[\"".to_string()));
}

#[test]
fn escaped_backslash_before_closing_quote() {
    // "x\\" ends the string: the second backslash is itself escaped
    let input = b"[{\"a\":\"x\\\\\"},{\"b\":2}]";
    let (frames, err) = json_array_decode_chunks(&one_chunk(input), 1024);
    assert!(err.is_none());
    assert_eq!(frames.len(), 2);
    assert_eq!(frames[0], b"{\"a\":\"x\\\\\"}".to_vec());
}

#[test]
fn second_top_level_array_open_is_codec_error() {
    let input = b"[[";
    let (frames, err) = json_array_decode_chunks(&one_chunk(input), 1024);
    assert_eq!(frames.len(), 0);
    assert_eq!(err.unwrap().kind(), StreamBodyKind::CodecError);
}

#[test]
fn stray_top_level_comma_is_codec_error() {
    let input = b"[,";
    let (frames, err) = json_array_decode_chunks(&one_chunk(input), 1024);
    assert_eq!(frames.len(), 0);
    assert_eq!(err.unwrap().kind(), StreamBodyKind::CodecError);
}

#[test]
fn comma_after_object_is_accepted() {
    let input = b"[{\"a\":1},{\"a\":2},{\"a\":3}]";
    let (frames, err) = json_array_decode_chunks(&one_chunk(input), 1024);
    assert!(err.is_none());
    assert_eq!(frames.len(), 3);
}

#[test]
fn stray_object_close_is_codec_error() {
    let input = b"[}";
    let (frames, err) = json_array_decode_chunks(&one_chunk(input), 1024);
    assert_eq!(frames.len(), 0);
    assert_eq!(err.unwrap().kind(), StreamBodyKind::CodecError);
}

#[test]
fn oversized_object_is_max_len_error() {
    let mut input: Vec<u8> = b"[{\"a\":\"".to_vec();
    input.extend(std::iter::repeat(b'x').take(64));
    input.extend_from_slice(b"\"}]");
    let (frames, err) = json_array_decode_chunks(&one_chunk(&input), 10);
    assert_eq!(frames.len(), 0);
    assert_eq!(err.unwrap().kind(), StreamBodyKind::MaxLenReachedError);
    // the same bytes delivered one at a time give the same outcome
    let (frames2, err2) = json_array_decode_chunks(&byte_chunks(&input), 10);
    assert_eq!(frames2.len(), 0);
    assert_eq!(err2.unwrap().kind(), StreamBodyKind::MaxLenReachedError);
}

#[test]
fn incomplete_trailing_object_yields_nothing() {
    let input = b"[{\"a\":1},{\"b\":";
    let (frames, err) = json_array_decode_chunks(&one_chunk(input), 1024);
    assert!(err.is_none());
    assert_eq!(frames.len(), 1);
    assert_eq!(frames[0], b"{\"a\":1}".to_vec());
}

#[test]
fn codec_emits_one_frame_per_attempt() {
    let mut codec = JsonArrayCodec::new_with_max_length(1024);
    let mut buf = BytesMut::new();
    buf.extend_from_slice(b"[{\"a\":1},{\"a\":2}]");
    let first = codec.decode(&mut buf).unwrap().unwrap();
    assert_eq!(first, b"{\"a\":1}".to_vec());
    let second = codec.decode(&mut buf).unwrap().unwrap();
    assert_eq!(second, b"{\"a\":2}".to_vec());
    assert!(codec.decode(&mut buf).unwrap().is_none());
}

#[test]
fn empty_buffer_awaits_input() {
    let mut codec = JsonArrayCodec::new_with_max_length(16);
    let mut buf = BytesMut::new();
    assert!(codec.decode(&mut buf).unwrap().is_none());
}

#[test]
fn empty_input_yields_no_objects() {
    let (frames, err) = json_array_decode_chunks(&Vec::new(), 1024);
    assert!(err.is_none());
    assert!(frames.is_empty());
}

#[test]
fn nested_objects_form_one_frame() {
    let input = b"[{\"a\":{\"b\":{\"c\":3}}}]";
    let (frames, err) = json_array_decode_chunks(&one_chunk(input), 1024);
    assert!(err.is_none());
    assert_eq!(frames, vec![b"{\"a\":{\"b\":{\"c\":3}}}".to_vec()]);
}
