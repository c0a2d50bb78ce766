//! Protobuf length-prefixed framing: message extraction, bounds, corrupt
//! headers, and chunk invariance.

use bytes::BytesMut;
use reqwest_streams::error::StreamBodyKind;
use reqwest_streams::protobuf_len_codec::{protobuf_decode_chunks, ProtobufLenPrefixCodec};
use reqwest_streams::varint::encode_varint;

fn frame(payload: &[u8]) -> Vec<u8> {
    let mut out = encode_varint(payload.len() as u64);
    out.extend_from_slice(payload);
    out
}

fn one_chunk(bytes: &[u8]) -> Vec<Vec<u8>> {
    vec![bytes.to_vec()]
}

fn byte_chunks(bytes: &[u8]) -> Vec<Vec<u8>> {
    bytes.iter().map(|b| vec![*b]).collect()
}

#[test]
fn three_messages_round_trip() {
    let payloads: Vec<Vec<u8>> = vec![b"first".to_vec(), b"second!".to_vec(), b"x".to_vec()];
    let mut stream: Vec<u8> = Vec::new();
    for p in &payloads {
        stream.extend(frame(p));
    }
    let (frames, err) = protobuf_decode_chunks(&one_chunk(&stream), 1024);
    assert!(err.is_none());
    assert_eq!(frames, payloads);
    let (frames2, err2) = protobuf_decode_chunks(&byte_chunks(&stream), 1024);
    assert!(err2.is_none());
    assert_eq!(frames2, payloads);
}

#[test]
fn prost_encoded_stream_round_trips() {
    // frame each payload with prost's own varint encoder
    let payloads: Vec<Vec<u8>> = vec![vec![0u8; 200], vec![7u8; 3]];
    let mut stream: Vec<u8> = Vec::new();
    for p in &payloads {
        prost::encoding::encode_varint(p.len() as u64, &mut stream);
        stream.extend_from_slice(p);
    }
    let (frames, err) = protobuf_decode_chunks(&one_chunk(&stream), 1024);
    assert!(err.is_none());
    assert_eq!(frames, payloads);
}

#[test]
fn oversized_second_message_stops_the_stream() {
    // three messages; the bound admits the first but not the second
    let first = b"tiny".to_vec();
    let second = vec![9u8; 64];
    let third = b"after".to_vec();
    let mut stream: Vec<u8> = Vec::new();
    stream.extend(frame(&first));
    stream.extend(frame(&second));
    stream.extend(frame(&third));
    let (frames, err) = protobuf_decode_chunks(&one_chunk(&stream), 10);
    assert_eq!(frames, vec![first.clone()]);
    assert_eq!(err.unwrap().kind(), StreamBodyKind::MaxLenReachedError);
    // the same outcome however the bytes are cut
    let (frames2, err2) = protobuf_decode_chunks(&byte_chunks(&stream), 10);
    assert_eq!(frames2, vec![first]);
    assert_eq!(err2.unwrap().kind(), StreamBodyKind::MaxLenReachedError);
}

#[test]
fn ten_continuation_bytes_are_a_codec_error() {
    let stream = vec![0x80u8; 10];
    let (frames, err) = protobuf_decode_chunks(&one_chunk(&stream), 1024);
    assert_eq!(frames.len(), 0);
    assert_eq!(err.unwrap().kind(), StreamBodyKind::CodecError);
}

#[test]
fn overflowing_length_header_is_a_codec_error() {
    // ten bytes whose last contributes more than two bits
    let mut stream = vec![0xffu8; 9];
    stream.push(0x7f);
    let (frames, err) = protobuf_decode_chunks(&one_chunk(&stream), 1024);
    assert_eq!(frames.len(), 0);
    assert_eq!(err.unwrap().kind(), StreamBodyKind::CodecError);
}

#[test]
fn incomplete_trailing_message_yields_nothing() {
    let mut stream = frame(b"whole");
    stream.extend(encode_varint(50));
    stream.extend_from_slice(b"only-part");
    let (frames, err) = protobuf_decode_chunks(&one_chunk(&stream), 1024);
    assert!(err.is_none());
    assert_eq!(frames, vec![b"whole".to_vec()]);
}

#[test]
fn codec_consumes_header_then_payload() {
    let mut codec = ProtobufLenPrefixCodec::new_with_max_length(1024);
    let mut buf = BytesMut::new();
    buf.extend_from_slice(&frame(b"abc"));
    // first attempt consumes the length header
    assert!(codec.decode(&mut buf).unwrap().is_none());
    // second attempt yields the payload
    assert_eq!(codec.decode(&mut buf).unwrap().unwrap(), b"abc".to_vec());
    assert!(codec.decode(&mut buf).unwrap().is_none());
}

#[test]
fn multi_byte_header_waits_for_payload() {
    let payload = vec![3u8; 300];
    let stream = frame(&payload);
    let mut codec = ProtobufLenPrefixCodec::new_with_max_length(1024);
    let mut buf = BytesMut::new();
    // header only: consumed, no frame yet
    buf.extend_from_slice(&stream[..2]);
    assert!(codec.decode(&mut buf).unwrap().is_none());
    assert!(codec.decode(&mut buf).unwrap().is_none());
    // payload arrives in two pieces
    buf.extend_from_slice(&stream[2..150]);
    assert!(codec.decode(&mut buf).unwrap().is_none());
    buf.extend_from_slice(&stream[150..]);
    assert_eq!(codec.decode(&mut buf).unwrap().unwrap(), payload);
}

#[test]
fn zero_length_message_yields_one_empty_frame() {
    // a zero length header declares an empty message: its zero payload
    // bytes are still handed over as one empty frame
    let mut stream: Vec<u8> = vec![0x00];
    stream.extend(frame(b"next"));
    let (frames, err) = protobuf_decode_chunks(&one_chunk(&stream), 1024);
    assert!(err.is_none());
    assert_eq!(frames, vec![Vec::new(), b"next".to_vec()]);
}

#[test]
fn trailing_zero_length_message_is_emitted() {
    let mut stream = frame(b"payload");
    stream.push(0x00);
    let (frames, err) = protobuf_decode_chunks(&one_chunk(&stream), 1024);
    assert!(err.is_none());
    assert_eq!(frames, vec![b"payload".to_vec(), Vec::new()]);
}

#[test]
fn oversized_declared_length_alone_is_an_error() {
    // the declared length crosses the bound: the failure comes before any
    // payload byte arrives
    let stream = encode_varint(100);
    let (frames, err) = protobuf_decode_chunks(&one_chunk(&stream), 10);
    assert!(frames.is_empty());
    assert_eq!(err.unwrap().kind(), StreamBodyKind::MaxLenReachedError);
}

#[test]
fn empty_input_yields_nothing() {
    let (frames, err) = protobuf_decode_chunks(&Vec::new(), 1024);
    assert!(err.is_none());
    assert!(frames.is_empty());
}
