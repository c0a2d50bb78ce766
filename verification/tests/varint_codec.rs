//! Varint encode/decode behaviour, cross-checked against prost's encoder.

use reqwest_streams::error::StreamBodyKind;
use reqwest_streams::varint::{decode_varint_slice, encode_varint};

fn round_trip_values() -> Vec<u64> {
    vec![0, 1, 127, 128, 4294967295, 18446744073709551615]
}

#[test]
fn varint_encode_decode_identity() {
    for value in round_trip_values() {
        let enc = encode_varint(value);
        let (decoded, used) = decode_varint_slice(&enc).unwrap();
        assert_eq!(decoded, value);
        assert_eq!(used, enc.len());
    }
}

#[test]
fn varint_encoding_matches_prost() {
    for value in round_trip_values() {
        let enc = encode_varint(value);
        let mut expected: Vec<u8> = Vec::new();
        prost::encoding::encode_varint(value, &mut expected);
        assert_eq!(enc, expected);
    }
}

#[test]
fn varint_decode_ignores_trailing_bytes() {
    let mut enc = encode_varint(300);
    let used_expected = enc.len();
    enc.push(0x01);
    enc.push(0x7f);
    let (decoded, used) = decode_varint_slice(&enc).unwrap();
    assert_eq!(decoded, 300);
    assert_eq!(used, used_expected);
}

#[test]
fn varint_ten_bytes_with_continuation_is_codec_error() {
    // ten continuation bytes followed by a terminator: no varint within the
    // ten-byte width
    let mut bytes: Vec<u8> = vec![0x80; 10];
    bytes.push(0x01);
    let err = decode_varint_slice(&bytes).unwrap_err();
    assert_eq!(err.kind(), StreamBodyKind::CodecError);
}

#[test]
fn varint_overflowing_tenth_byte_is_codec_error() {
    // the tenth byte may only contribute its two low bits
    let mut bytes: Vec<u8> = vec![0x80; 9];
    bytes.push(0x02);
    let err = decode_varint_slice(&bytes).unwrap_err();
    assert_eq!(err.kind(), StreamBodyKind::CodecError);
}

#[test]
fn varint_max_value_boundary() {
    // u64::MAX encodes to ten bytes whose last byte is exactly 0x01
    let enc = encode_varint(u64::MAX);
    assert_eq!(enc.len(), 10);
    assert_eq!(enc[9], 0x01);
}
