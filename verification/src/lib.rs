//! Incremental framing decoders for streamed response bodies.
//!
//! A response body arrives as a sequence of byte chunks cut at arbitrary
//! positions. Each decoder in this crate consumes a growing byte buffer and
//! extracts complete frames (one self-contained record's bytes) as soon as
//! enough bytes are present, while enforcing a configured maximum record
//! size. Supported framings: JSON array splitting, newline-delimited lines
//! (JSON Lines and CSV), Protobuf length-prefixed messages, and Apache Arrow
//! IPC stream messages.

use vstd::prelude::*;

pub mod arrow_ipc_len_codec;
pub mod byte_buf;
pub mod chunking;
pub mod error;
pub mod json_array_codec;
pub mod newline_codec;
pub mod protobuf_len_codec;
pub mod varint;

verus! {

/// Alias for the [`Result`] type returned by streaming decoders.
pub type StreamBodyResult<T> = core::result::Result<T, crate::error::StreamBodyError>;

} // verus!
