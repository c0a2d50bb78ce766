//! Arrow IPC stream framing: record batches through the incremental reader,
//! and the bound on undecoded accumulation.

use arrow::array::{Int64Array, RecordBatch, StringArray};
use arrow::datatypes::{DataType, Field, Schema};
use bytes::BytesMut;
use reqwest_streams::arrow_ipc_len_codec::ArrowIpcCodec;
use reqwest_streams::error::StreamBodyKind;
use std::sync::Arc;

fn test_schema() -> Arc<Schema> {
    Arc::new(Schema::new(vec![
        Field::new("id", DataType::Int64, false),
        Field::new("city", DataType::Utf8, false),
    ]))
}

fn test_batch(ids: Vec<i64>, cities: Vec<&str>) -> RecordBatch {
    RecordBatch::try_new(
        test_schema(),
        vec![
            Arc::new(Int64Array::from(ids)),
            Arc::new(StringArray::from(cities)),
        ],
    )
    .unwrap()
}

fn encode_stream(batches: &[RecordBatch]) -> Vec<u8> {
    let mut out: Vec<u8> = Vec::new();
    let mut writer = arrow::ipc::writer::StreamWriter::try_new(&mut out, &test_schema()).unwrap();
    for batch in batches {
        writer.write(batch).unwrap();
    }
    writer.finish().unwrap();
    drop(writer);
    out
}

fn drain(codec: &mut ArrowIpcCodec, buf: &mut BytesMut, got: &mut Vec<RecordBatch>) -> Option<
    reqwest_streams::error::StreamBodyError,
> {
    loop {
        let before = buf.len();
        match codec.decode(buf) {
            Ok(Some(record)) => got.push(record.batch),
            Ok(None) => {
                if buf.len() == before {
                    return None;
                }
            },
            Err(e) => return Some(e),
        }
    }
}

#[test]
fn batches_round_trip_in_one_chunk() {
    let batches = vec![
        test_batch(vec![1, 2, 3], vec!["a", "b", "c"]),
        test_batch(vec![4, 5, 6], vec!["d", "e", "f"]),
    ];
    let bytes = encode_stream(&batches);
    let mut codec = ArrowIpcCodec::new_with_max_length(1024 * 1024);
    let mut buf = BytesMut::new();
    buf.extend_from_slice(&bytes);
    let mut got: Vec<RecordBatch> = Vec::new();
    assert!(drain(&mut codec, &mut buf, &mut got).is_none());
    assert_eq!(got, batches);
}

#[test]
fn batches_round_trip_byte_by_byte() {
    let batches = vec![test_batch(vec![10, 20], vec!["x", "y"])];
    let bytes = encode_stream(&batches);
    let mut codec = ArrowIpcCodec::new_with_max_length(1024 * 1024);
    let mut buf = BytesMut::new();
    let mut got: Vec<RecordBatch> = Vec::new();
    for b in &bytes {
        buf.extend_from_slice(&[*b]);
        assert!(drain(&mut codec, &mut buf, &mut got).is_none());
    }
    assert_eq!(got, batches);
}

#[test]
fn accumulated_undecoded_bytes_hit_the_bound() {
    let batches = vec![test_batch(vec![1, 2, 3], vec!["aaaa", "bbbb", "cccc"])];
    let bytes = encode_stream(&batches);
    let mut codec = ArrowIpcCodec::new_with_max_length(10);
    let mut buf = BytesMut::new();
    let mut got: Vec<RecordBatch> = Vec::new();
    let mut failure = None;
    for b in &bytes {
        buf.extend_from_slice(&[*b]);
        if let Some(e) = drain(&mut codec, &mut buf, &mut got) {
            failure = Some(e);
            break;
        }
    }
    assert!(got.is_empty());
    assert_eq!(failure.unwrap().kind(), StreamBodyKind::MaxLenReachedError);
}
