//! Framing for the Apache Arrow IPC streaming format.
//!
//! Arrow frames its own messages (a schema, then record batches, each behind
//! a little-endian length and an optional continuation marker), so this
//! decoder does not identify frame boundaries itself: it hands the buffered
//! bytes to arrow's incremental stream reader and keeps only two duties —
//! advancing the buffer by exactly what the reader consumed, and holding the
//! total of still-undecoded buffered bytes to the configured bound. What the
//! decoder does with each possible report from the reader is fixed exactly
//! by [`ArrowIpcCodec::apply_decoder_outcome`].

use vstd::prelude::*;

use crate::byte_buf::{buf_advance, buf_copy_range, buf_len, buf_bytes};
use crate::error::{StreamBodyError, StreamBodyKind};

verus! {

#[verifier::external_type_specification]
#[verifier::external_body]
pub struct ExStreamDecoder(arrow::ipc::reader::StreamDecoder);

/// A completed Arrow record batch, carried opaquely through the library.
/// Verus refuses `arrow::array::RecordBatch` itself (its columns are trait
/// objects), so the batch travels in this opaque holder; its one public
/// field hands the batch to unverified callers unchanged.
#[verifier::external_body]
pub struct ArrowRecordBatch {
    /// The batch as arrow produced it.
    pub batch: arrow::array::RecordBatch,
}

/// Relies on `arrow::ipc::reader::StreamDecoder::new`: a fresh incremental
/// reader for the Arrow IPC streaming format.
#[verifier::external_body]
fn arrow_decoder_new() -> arrow::ipc::reader::StreamDecoder {
    arrow::ipc::reader::StreamDecoder::new()
}

/// Relies on `arrow::ipc::reader::StreamDecoder::decode`: feeds the bytes to
/// the incremental reader, which consumes some prefix of them — never more
/// than it was given — and reports a completed record batch once one is
/// assembled.
#[verifier::external_body]
fn arrow_decoder_decode(
    dec: &mut arrow::ipc::reader::StreamDecoder,
    bytes: &Vec<u8>,
) -> (r: Result<(Option<ArrowRecordBatch>, usize), String>)
    ensures
        r matches Ok(p) ==> p.1 <= bytes@.len(),
{
    let mut buffer = arrow::buffer::Buffer::from(bytes.as_slice());
    match dec.decode(&mut buffer) {
        Ok(rec) => Ok((rec.map(|batch| ArrowRecordBatch { batch }), bytes.len() - buffer.len())),
        Err(e) => Err(e.to_string()),
    }
}

/// Incremental decoder for the Arrow IPC streaming format: it hands the
/// buffer to arrow's stream reader and enforces the configured bound on the
/// bytes buffered without a completed record.
pub struct ArrowIpcCodec {
    max_length: usize,
    decoder: arrow::ipc::reader::StreamDecoder,
    current_obj_len: usize,
}

impl ArrowIpcCodec {
    /// The configured bound on the undecoded bytes accumulated for one
    /// record.
    pub closed spec fn max_len(&self) -> nat {
        self.max_length as nat
    }

    /// How many bytes have been fed without completing a record.
    pub closed spec fn pending(&self) -> nat {
        self.current_obj_len as nat
    }

    /// Creates a decoder that fails once more than `max_length` bytes
    /// accumulate without completing a record.
    pub fn new_with_max_length(max_length: usize) -> (c: Self)
        ensures
            c.max_len() == max_length as nat,
            c.pending() == 0,
    {
        ArrowIpcCodec { max_length, decoder: arrow_decoder_new(), current_obj_len: 0 }
    }

    /// How many bytes have been fed without completing a record, for
    /// callers that must check the accumulation against the bound before
    /// decoding.
    pub fn pending_len(&self) -> (n: usize)
        ensures
            n as nat == self.pending(),
    {
        self.current_obj_len
    }

    /// The configured bound, for callers that must check the accumulation
    /// against it before decoding.
    pub fn length_limit(&self) -> (n: usize)
        ensures
            n as nat == self.max_len(),
    {
        self.max_length
    }

    /// Interprets one report from arrow's reader over the currently
    /// buffered bytes: the accounting and buffer bookkeeping that this
    /// decoder owns, with the result fixed for every value of the report.
    ///
    /// A reader failure is a codec error carrying its message, with nothing
    /// consumed. No record means the buffered bytes join the undecoded
    /// accumulation: if that would cross the bound, a max-length error with
    /// nothing consumed; otherwise the buffer advances by what the reader
    /// consumed. A completed record resets the accumulation, advances the
    /// buffer by what the reader consumed, and is emitted as it is.
    pub fn apply_decoder_outcome(
        &mut self,
        buf: &mut bytes::BytesMut,
        outcome: Result<(Option<ArrowRecordBatch>, usize), String>,
    ) -> (r: Result<Option<ArrowRecordBatch>, StreamBodyError>)
        requires
            old(self).pending() <= old(self).max_len(),
            outcome matches Ok(p) ==> p.1 <= buf_bytes(*old(buf)).len(),
        ensures
            final(self).max_len() == old(self).max_len(),
            final(self).pending() <= final(self).max_len(),
            ({
                let bs = buf_bytes(*old(buf));
                let bs2 = buf_bytes(*final(buf));
                match outcome {
                    Err(msg) => (r matches Err(e) && e.spec_kind() == StreamBodyKind::CodecError
                        && e.spec_source() == Some(msg@)) && bs2 == bs && final(self).pending()
                        == old(self).pending(),
                    Ok(p) => match p.0 {
                        None => if old(self).pending() + bs.len() > old(self).max_len() {
                            (r matches Err(e) && e.spec_kind()
                                == StreamBodyKind::MaxLenReachedError) && bs2 == bs && final(self).pending() == old(self).pending()
                        } else {
                            r matches Ok(None) && final(self).pending() == old(self).pending()
                                + bs.len() && bs2 == bs.skip(p.1 as int)
                        },
                        Some(rec) => (r matches Ok(Some(rec2)) && rec2 == rec) && final(self).pending() == 0 && bs2 == bs.skip(p.1 as int),
                    },
                }
            }),
    {
        let buf_length = buf_len(buf);
        match outcome {
            Err(msg) => Err(StreamBodyError::new(
                StreamBodyKind::CodecError,
                Some(msg),
                Some("Decode arrow IPC record error".to_string()),
            )),
            Ok((maybe_record, consumed)) => {
                if maybe_record.is_none() {
                    if buf_length > self.max_length || self.current_obj_len > self.max_length
                        - buf_length {
                        return Err(StreamBodyError::new(
                            StreamBodyKind::MaxLenReachedError,
                            None,
                            Some("Object length exceeds the maximum length".to_string()),
                        ));
                    }
                    self.current_obj_len = self.current_obj_len + buf_length;
                } else {
                    self.current_obj_len = 0;
                }
                buf_advance(buf, consumed);
                Ok(maybe_record)
            },
        }
    }

    /// Attempts to extract one record batch from the buffer.
    ///
    /// An empty buffer awaits input with nothing changed. Otherwise the
    /// buffered bytes are fed to arrow's reader and its report is settled by
    /// [`Self::apply_decoder_outcome`]: whatever the reader answers, the
    /// undecoded accumulation never silently passes the bound, a max-length
    /// error arises only on genuine excess, and the buffer only ever loses
    /// a prefix of what it held.
    pub fn decode(&mut self, buf: &mut bytes::BytesMut) -> (r: Result<
        Option<ArrowRecordBatch>,
        StreamBodyError,
    >)
        requires
            old(self).pending() <= old(self).max_len(),
        ensures
            final(self).max_len() == old(self).max_len(),
            final(self).pending() <= final(self).max_len(),
            ({
                let bs = buf_bytes(*old(buf));
                let bs2 = buf_bytes(*final(buf));
                &&& (bs.len() == 0 ==> (r matches Ok(None) && bs2 == bs && final(self).pending()
                    == old(self).pending()))
                &&& (r matches Ok(None) ==> final(self).pending() == old(self).pending()
                    + bs.len() && (exists|c: int| 0 <= c <= bs.len() && bs2 == #[trigger] bs.skip(
                    c,
                )))
                &&& (r matches Ok(Some(rec)) ==> final(self).pending() == 0 && (exists|c: int|
                    0 <= c <= bs.len() && bs2 == #[trigger] bs.skip(c)))
                &&& (r matches Err(e) ==> (e.spec_kind() == StreamBodyKind::MaxLenReachedError
                    || e.spec_kind() == StreamBodyKind::CodecError) && (e.spec_kind()
                    == StreamBodyKind::MaxLenReachedError ==> old(self).pending() + bs.len() > old(self).max_len()) && bs2 == bs)
            }),
    {
        let ghost bs = buf_bytes(*buf);
        let buf_length = buf_len(buf);
        if buf_length == 0 {
            proof {
                assert(bs == bs.skip(0));
            }
            return Ok(None);
        }
        let obj_bytes = buf_copy_range(buf, 0, buf_length);
        let outcome = arrow_decoder_decode(&mut self.decoder, &obj_bytes);
        let ghost out_spec = outcome;
        let r = self.apply_decoder_outcome(buf, outcome);
        proof {
            match out_spec {
                Err(_) => {},
                Ok(p) => {
                    if r matches Ok(_) {
                        assert(buf_bytes(*buf) == bs.skip(p.1 as int));
                        assert(exists|c: int|
                            0 <= c <= bs.len() && buf_bytes(*buf) == #[trigger] bs.skip(c));
                    }
                },
            }
        }
        r
    }

    /// One final decode attempt against whatever bytes remain at the end of
    /// the input: identical to `decode`.
    pub fn decode_eof(&mut self, buf: &mut bytes::BytesMut) -> (r: Result<
        Option<ArrowRecordBatch>,
        StreamBodyError,
    >)
        requires
            old(self).pending() <= old(self).max_len(),
        ensures
            final(self).max_len() == old(self).max_len(),
            final(self).pending() <= final(self).max_len(),
            ({
                let bs = buf_bytes(*old(buf));
                let bs2 = buf_bytes(*final(buf));
                &&& (bs.len() == 0 ==> (r matches Ok(None) && bs2 == bs && final(self).pending()
                    == old(self).pending()))
                &&& (r matches Ok(None) ==> final(self).pending() == old(self).pending()
                    + bs.len() && (exists|c: int| 0 <= c <= bs.len() && bs2 == #[trigger] bs.skip(
                    c,
                )))
                &&& (r matches Ok(Some(rec)) ==> final(self).pending() == 0 && (exists|c: int|
                    0 <= c <= bs.len() && bs2 == #[trigger] bs.skip(c)))
                &&& (r matches Err(e) ==> (e.spec_kind() == StreamBodyKind::MaxLenReachedError
                    || e.spec_kind() == StreamBodyKind::CodecError) && (e.spec_kind()
                    == StreamBodyKind::MaxLenReachedError ==> old(self).pending() + bs.len() > old(self).max_len()) && bs2 == bs)
            }),
    {
        self.decode(buf)
    }
}

} // verus!
