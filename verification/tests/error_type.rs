//! The streaming error type: construction and accessors.

use reqwest_streams::error::{StreamBodyError, StreamBodyKind};

#[test]
fn error_carries_kind_source_and_message() {
    let e = StreamBodyError::new(
        StreamBodyKind::CodecError,
        Some("inner cause".to_string()),
        Some("outer message".to_string()),
    );
    assert_eq!(e.kind(), StreamBodyKind::CodecError);
    assert_eq!(e.source().unwrap(), "inner cause");
    assert_eq!(e.message().unwrap(), "outer message");
}

#[test]
fn error_without_source_or_message() {
    let e = StreamBodyError::new(StreamBodyKind::InputOutputError, None, None);
    assert_eq!(e.kind(), StreamBodyKind::InputOutputError);
    assert!(e.source().is_none());
    assert!(e.message().is_none());
}

#[test]
fn kinds_are_distinguishable() {
    let max = StreamBodyError::new(StreamBodyKind::MaxLenReachedError, None, None);
    assert!(matches!(max.kind(), StreamBodyKind::MaxLenReachedError));
    assert!(!matches!(max.kind(), StreamBodyKind::CodecError));
}
