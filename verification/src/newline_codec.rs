//! Newline-delimited framing, shared by the JSON Lines and CSV formats.
//!
//! A frame is one line: the bytes before the next LF, which is consumed but
//! not emitted. A line longer than the configured bound is rejected, and the
//! pending unterminated bytes are rejected as soon as they alone exceed the
//! bound. At end of input a final line with no trailing LF is still emitted.
//! The CSV decoder adds one rule on top: when the stream's first line is a
//! header, that line is consumed and never emitted as data.

use vstd::prelude::*;

use crate::byte_buf::{buf_advance, buf_byte, buf_copy_range, buf_extend_from_slice, buf_len, buf_new, buf_bytes};
use crate::chunking::{chunks_bytes, frames_views, lemma_chunks_bytes_all, lemma_chunks_bytes_empty, lemma_chunks_bytes_step, lemma_frames_views_push};
use crate::error::{StreamBodyError, StreamBodyKind};

verus! {

/// What one decode attempt reports after scanning for a newline.
pub enum LineScanResult {
    /// No newline among the buffered bytes, which stay within the bound.
    More,
    /// The first unscanned newline stands at this position; the line is the
    /// bytes before it.
    Line(nat),
    /// The line being accumulated exceeds the bound.
    Fail,
}

/// Scans the buffer from position `i` for the first newline, holding the
/// accumulated length to the bound.
pub open spec fn line_scan(bytes: Seq<u8>, i: nat, max: nat) -> LineScanResult
    decreases bytes.len() - i when i <= bytes.len()
{
    if i >= bytes.len() {
        if bytes.len() > max {
            LineScanResult::Fail
        } else {
            LineScanResult::More
        }
    } else if bytes[i as int] == 0x0a {
        if i > max {
            LineScanResult::Fail
        } else {
            LineScanResult::Line(i)
        }
    } else {
        line_scan(bytes, i + 1, max)
    }
}

/// A reported newline lies in the buffer, within the bound, with no earlier
/// newline at or after the scan's start.
pub proof fn lemma_line_scan_line_bounds(bytes: Seq<u8>, i: nat, max: nat)
    requires
        i <= bytes.len(),
    ensures
        match line_scan(bytes, i, max) {
            LineScanResult::Line(j) => i <= j < bytes.len() && j <= max && bytes[j as int] == 0x0a,
            LineScanResult::More => bytes.len() <= max,
            LineScanResult::Fail => true,
        },
    decreases bytes.len() - i,
{
    if i < bytes.len() && bytes[i as int] != 0x0a {
        lemma_line_scan_line_bounds(bytes, i + 1, max);
    }
}

/// Once the scan position passes the bound, the scan can only fail.
pub proof fn lemma_line_scan_past_max(bytes: Seq<u8>, i: nat, max: nat)
    requires
        i <= bytes.len(),
        i > max,
    ensures
        line_scan(bytes, i, max) == LineScanResult::Fail,
    decreases bytes.len() - i,
{
    if i < bytes.len() && bytes[i as int] != 0x0a {
        lemma_line_scan_past_max(bytes, i + 1, max);
    }
}

/// Appending bytes at the buffer's tail never changes what an earlier scan
/// found: a line or an error stands as it is, and a scan that ran out of
/// bytes resumes from the old end.
pub proof fn lemma_line_scan_extend(a: Seq<u8>, ext: Seq<u8>, i: nat, max: nat)
    requires
        i <= a.len(),
    ensures
        match line_scan(a, i, max) {
            LineScanResult::More => line_scan(a + ext, i, max) == line_scan(
                a + ext,
                a.len(),
                max,
            ),
            LineScanResult::Line(j) => line_scan(a + ext, i, max) == LineScanResult::Line(j),
            LineScanResult::Fail => line_scan(a + ext, i, max) == LineScanResult::Fail,
        },
    decreases a.len() - i,
{
    if i >= a.len() {
        if a.len() > max {
            lemma_line_scan_past_max(a + ext, i, max);
        }
    } else {
        assert((a + ext)[i as int] == a[i as int]);
        if a[i as int] != 0x0a {
            lemma_line_scan_extend(a, ext, i + 1, max);
        }
    }
}

/// The lines and the outcome of draining a whole byte string through the
/// newline framing, resuming a scan at position `scanned`. A final
/// unterminated line is emitted at the end of the input.
pub open spec fn lines_run(scanned: nat, bytes: Seq<u8>, max: nat) -> (
    Seq<Seq<u8>>,
    Option<StreamBodyKind>,
)
    decreases bytes.len() when scanned <= bytes.len()
{
    match line_scan(bytes, scanned, max) {
        LineScanResult::Line(j) => if j < bytes.len() {
            let rec = lines_run(0, bytes.skip(j as int + 1), max);
            (seq![bytes.take(j as int)] + rec.0, rec.1)
        } else {
            (Seq::empty(), None)
        },
        LineScanResult::Fail => (Seq::empty(), Some(StreamBodyKind::MaxLenReachedError)),
        LineScanResult::More => if bytes.len() == 0 {
            (Seq::empty(), None)
        } else {
            (seq![bytes], None)
        },
    }
}

/// The lines and the outcome of the CSV framing: the newline framing, except
/// that while `pending` a first line — the header — is consumed and not
/// emitted.
pub open spec fn csv_run(scanned: nat, bytes: Seq<u8>, max: nat, pending: bool) -> (
    Seq<Seq<u8>>,
    Option<StreamBodyKind>,
)
    decreases bytes.len() when scanned <= bytes.len()
{
    if !pending {
        lines_run(scanned, bytes, max)
    } else {
        match line_scan(bytes, scanned, max) {
            LineScanResult::Line(j) => if j < bytes.len() {
                csv_run(0, bytes.skip(j as int + 1), max, false)
            } else {
                (Seq::empty(), None)
            },
            LineScanResult::Fail => (Seq::empty(), Some(StreamBodyKind::MaxLenReachedError)),
            LineScanResult::More => (Seq::empty(), None),
        }
    }
}

/// Law: no line that the newline framing ever emits is longer than the
/// configured bound.
pub proof fn lemma_lines_frames_bounded(scanned: nat, bytes: Seq<u8>, max: nat)
    requires
        scanned <= bytes.len(),
    ensures
        forall|i: int|
            0 <= i < lines_run(scanned, bytes, max).0.len() ==> #[trigger] lines_run(
                scanned,
                bytes,
                max,
            ).0[i].len() <= max,
    decreases bytes.len(),
{
    lemma_line_scan_line_bounds(bytes, scanned, max);
    match line_scan(bytes, scanned, max) {
        LineScanResult::Line(j) => {
            if j < bytes.len() {
                lemma_lines_frames_bounded(0, bytes.skip(j as int + 1), max);
                let res = lines_run(scanned, bytes, max).0;
                let rec = lines_run(0, bytes.skip(j as int + 1), max).0;
                assert(res == seq![bytes.take(j as int)] + rec);
                assert forall|i: int| 0 <= i < res.len() implies #[trigger] res[i].len() <= max by {
                    if i == 0 {
                        assert(res[0] == bytes.take(j as int));
                    } else {
                        assert(res[i] == rec[i - 1]);
                        assert(rec[i - 1].len() <= max);
                    }
                }
            }
        },
        _ => {},
    }
}

/// Law: what a newline-framed stream yields depends only on the
/// concatenation of the delivered chunks, never on where the chunk
/// boundaries fall.
pub proof fn lemma_lines_chunking_irrelevant(a: Seq<Vec<u8>>, b: Seq<Vec<u8>>, max: nat)
    requires
        chunks_bytes(a) == chunks_bytes(b),
    ensures
        lines_run(0, chunks_bytes(a), max) == lines_run(0, chunks_bytes(b), max),
{
}

/// Law: with a header expected, the CSV framing emits exactly the line
/// frames after the first; the header line is never emitted as data, and it
/// does not count towards the data frames. Errors are unchanged.
pub proof fn lemma_csv_header_skipped(bytes: Seq<u8>, max: nat)
    ensures
        csv_run(0, bytes, max, false) == lines_run(0, bytes, max),
        csv_run(0, bytes, max, true).1 == lines_run(0, bytes, max).1,
        lines_run(0, bytes, max).0.len() > 0 ==> csv_run(0, bytes, max, true).0 == lines_run(
            0,
            bytes,
            max,
        ).0.skip(1),
        lines_run(0, bytes, max).0.len() == 0 ==> csv_run(0, bytes, max, true).0
            == Seq::<Seq<u8>>::empty(),
{
    lemma_line_scan_line_bounds(bytes, 0, max);
    match line_scan(bytes, 0, max) {
        LineScanResult::Line(j) => {
            if j < bytes.len() {
                let rec = lines_run(0, bytes.skip(j as int + 1), max);
                assert(lines_run(0, bytes, max) == (seq![bytes.take(j as int)] + rec.0, rec.1));
                assert(csv_run(0, bytes, max, true) == csv_run(0, bytes.skip(j as int + 1), max, false));
                assert((seq![bytes.take(j as int)] + rec.0).skip(1) =~= rec.0);
            }
        },
        LineScanResult::More => {
            if bytes.len() > 0 {
                assert(lines_run(0, bytes, max).0 == seq![bytes]);
                assert(lines_run(0, bytes, max).0.skip(1) =~= Seq::<Seq<u8>>::empty());
            }
        },
        LineScanResult::Fail => {},
    }
}


/// The scan reports the first newline: bytes before it are not newlines.
pub proof fn lemma_line_scan_finds(bytes: Seq<u8>, i: nat, j: nat, max: nat)
    requires
        i <= j < bytes.len(),
        bytes[j as int] == 0x0a,
        forall|k: int| i <= k < j ==> bytes[k] != 0x0a,
        j <= max,
    ensures
        line_scan(bytes, i, max) == LineScanResult::Line(j),
    decreases j - i,
{
    if i < j {
        lemma_line_scan_finds(bytes, i + 1, j, max);
    }
}

/// Law: a line within the bound and without interior newlines, terminated
/// by one newline, always decodes back to itself, whatever the stream
/// carries after it.
pub proof fn lemma_lines_frame_round_trip(line: Seq<u8>, rest: Seq<u8>, max: nat)
    requires
        line.len() <= max,
        forall|i: int| 0 <= i < line.len() ==> line[i] != 0x0a,
    ensures
        lines_run(0, line + seq![0x0au8] + rest, max) == (
            seq![line] + lines_run(0, rest, max).0,
            lines_run(0, rest, max).1,
        ),
{
    let bytes = line + seq![0x0au8] + rest;
    let j = line.len();
    assert(bytes[j as int] == 0x0a);
    assert(forall|k: int| 0 <= k < j ==> bytes[k] == line[k]);
    lemma_line_scan_finds(bytes, 0, j, max);
    assert(bytes.take(j as int) =~= line);
    assert(bytes.skip(j as int + 1) =~= rest);
    assert(lines_run(0, bytes, max) == (
        seq![line] + lines_run(0, rest, max).0,
        lines_run(0, rest, max).1,
    ));
}


/// Law: what a CSV stream yields depends only on the concatenation of the
/// delivered chunks and the header flag, never on where the chunk
/// boundaries fall.
pub proof fn lemma_csv_chunking_irrelevant(
    a: Seq<Vec<u8>>,
    b: Seq<Vec<u8>>,
    max: nat,
    with_header: bool,
)
    requires
        chunks_bytes(a) == chunks_bytes(b),
    ensures
        csv_run(0, chunks_bytes(a), max, with_header) == csv_run(
            0,
            chunks_bytes(b),
            max,
            with_header,
        ),
{
}

/// Law: no data row that the CSV framing ever emits is longer than the
/// configured bound.
pub proof fn lemma_csv_frames_bounded(bytes: Seq<u8>, max: nat, with_header: bool)
    ensures
        forall|i: int|
            0 <= i < csv_run(0, bytes, max, with_header).0.len() ==> #[trigger] csv_run(
                0,
                bytes,
                max,
                with_header,
            ).0[i].len() <= max,
{
    lemma_lines_frames_bounded(0, bytes, max);
    lemma_csv_header_skipped(bytes, max);
    let res = csv_run(0, bytes, max, with_header).0;
    let ls = lines_run(0, bytes, max).0;
    assert forall|i: int| 0 <= i < res.len() implies #[trigger] res[i].len() <= max by {
        if with_header {
            if ls.len() > 0 {
                assert(res == ls.skip(1));
                assert(res[i] == ls[i + 1]);
                assert(ls[i + 1].len() <= max);
            } else {
                assert(res.len() == 0);
            }
        } else {
            assert(res == ls);
            assert(res[i] == ls[i]);
            assert(ls[i].len() <= max);
        }
    }
}

/// Incremental decoder for newline-delimited frames: it consumes a growing
/// byte buffer and emits each line's bytes, without the newline, as one
/// frame.
#[derive(Clone, Debug)]
pub struct NewlineCodec {
    max_length: usize,
    current_offset: usize,
}

impl NewlineCodec {
    /// The configured bound on one line's length.
    pub closed spec fn max_len(&self) -> nat {
        self.max_length as nat
    }

    /// How many buffered bytes the scanner has already passed over.
    pub closed spec fn offset(&self) -> nat {
        self.current_offset as nat
    }

    /// Creates a decoder that rejects any line longer than `max_length`
    /// bytes.
    pub fn new_with_max_length(max_length: usize) -> (c: Self)
        ensures
            c.max_len() == max_length as nat,
            c.offset() == 0,
    {
        NewlineCodec { max_length, current_offset: 0 }
    }

    /// How many buffered bytes the scanner has already passed over, for
    /// callers that must check it against the buffer before decoding.
    pub fn scanned(&self) -> (n: usize)
        ensures
            n as nat == self.offset(),
    {
        self.current_offset
    }

    /// Attempts to extract one line from the buffer.
    ///
    /// Scans from the position the previous attempt reached. Emits the bytes
    /// before the first newline and consumes them along with the newline.
    /// Fails with a max-length error when the accumulated line exceeds the
    /// bound.
    pub fn decode(&mut self, buf: &mut bytes::BytesMut) -> (r: Result<
        Option<Vec<u8>>,
        StreamBodyError,
    >)
        requires
            old(self).offset() <= buf_bytes(*old(buf)).len(),
        ensures
            final(self).max_len() == old(self).max_len(),
            ({
                let bs = buf_bytes(*old(buf));
                let bs2 = buf_bytes(*final(buf));
                match line_scan(bs, old(self).offset(), old(self).max_len()) {
                    LineScanResult::More => r matches Ok(None) && bs2 == bs && final(self).offset()
                        == bs.len(),
                    LineScanResult::Line(j) => (r matches Ok(Some(f)) && f@ == bs.take(j as int))
                        && bs2 == bs.skip(j as int + 1) && final(self).offset() == 0,
                    LineScanResult::Fail => (r matches Err(e) && e.spec_kind()
                        == StreamBodyKind::MaxLenReachedError) && bs2 == bs,
                }
            }),
    {
        let ghost bs = buf_bytes(*buf);
        let ghost i0 = self.offset();
        let ghost max = self.max_len();
        let len = buf_len(buf);
        let mut i = self.current_offset;
        while i < len
            invariant
                i0 == old(self).offset(),
                max == old(self).max_len(),
                bs == buf_bytes(*old(buf)),
                bs == buf_bytes(*buf),
                len == bs.len(),
                i0 <= i as nat <= bs.len(),
                self == old(self),
                line_scan(bs, i0, max) == line_scan(bs, i as nat, max),
            decreases len - i,
        {
            let b = buf_byte(buf, i);
            if b == 0x0a {
                if i > self.max_length {
                    return Err(StreamBodyError::new(
                        StreamBodyKind::MaxLenReachedError,
                        None,
                        Some("Max line length reached".to_string()),
                    ));
                }
                let line = buf_copy_range(buf, 0, i);
                buf_advance(buf, i + 1);
                self.current_offset = 0;
                return Ok(Some(line));
            }
            proof {
                assert(line_scan(bs, i as nat, max) == line_scan(bs, i as nat + 1, max));
            }
            i = i + 1;
        }
        if len > self.max_length {
            return Err(StreamBodyError::new(
                StreamBodyKind::MaxLenReachedError,
                None,
                Some("Max line length reached".to_string()),
            ));
        }
        self.current_offset = len;
        Ok(None)
    }

    /// One final decode attempt against whatever bytes remain at the end of
    /// the input: as `decode`, except that a non-empty buffer without a
    /// newline is emitted once as the final line.
    pub fn decode_eof(&mut self, buf: &mut bytes::BytesMut) -> (r: Result<
        Option<Vec<u8>>,
        StreamBodyError,
    >)
        requires
            old(self).offset() <= buf_bytes(*old(buf)).len(),
        ensures
            final(self).max_len() == old(self).max_len(),
            ({
                let bs = buf_bytes(*old(buf));
                let bs2 = buf_bytes(*final(buf));
                match line_scan(bs, old(self).offset(), old(self).max_len()) {
                    LineScanResult::More => if bs.len() == 0 {
                        r matches Ok(None) && bs2 == bs && final(self).offset() == 0
                    } else {
                        (r matches Ok(Some(f)) && f@ == bs) && bs2 == Seq::<u8>::empty() && final(self).offset() == 0
                    },
                    LineScanResult::Line(j) => (r matches Ok(Some(f)) && f@ == bs.take(j as int))
                        && bs2 == bs.skip(j as int + 1) && final(self).offset() == 0,
                    LineScanResult::Fail => (r matches Err(e) && e.spec_kind()
                        == StreamBodyKind::MaxLenReachedError) && bs2 == bs,
                }
            }),
    {
        let ghost bs = buf_bytes(*buf);
        match self.decode(buf) {
            Ok(Some(line)) => Ok(Some(line)),
            Ok(None) => {
                let len = buf_len(buf);
                if len == 0 {
                    self.current_offset = 0;
                    Ok(None)
                } else {
                    let line = buf_copy_range(buf, 0, len);
                    buf_advance(buf, len);
                    self.current_offset = 0;
                    proof {
                        assert(line@ =~= bs);
                        assert(buf_bytes(*buf) =~= Seq::<u8>::empty());
                    }
                    Ok(Some(line))
                }
            },
            Err(e) => Err(e),
        }
    }
}

/// Incremental decoder for CSV lines: newline framing plus the header rule.
/// While a header is expected and not yet seen, the first complete line is
/// consumed without being emitted.
#[derive(Clone, Debug)]
pub struct CsvLineCodec {
    inner: NewlineCodec,
    with_header: bool,
    header_skipped: bool,
}

impl CsvLineCodec {
    /// The configured bound on one line's length.
    pub closed spec fn max_len(&self) -> nat {
        self.inner.max_len()
    }

    /// How many buffered bytes the scanner has already passed over.
    pub closed spec fn offset(&self) -> nat {
        self.inner.offset()
    }

    /// A header line is still owed and will be consumed, not emitted.
    pub closed spec fn header_pending(&self) -> bool {
        self.with_header && !self.header_skipped
    }

    /// Creates a decoder that rejects any line longer than `max_length`
    /// bytes; when `with_header` holds, the stream's first line is consumed
    /// as the header.
    pub fn new_with_max_length(max_length: usize, with_header: bool) -> (c: Self)
        ensures
            c.max_len() == max_length as nat,
            c.offset() == 0,
            c.header_pending() == with_header,
    {
        CsvLineCodec {
            inner: NewlineCodec::new_with_max_length(max_length),
            with_header,
            header_skipped: false,
        }
    }

    /// How many buffered bytes the scanner has already passed over, for
    /// callers that must check it against the buffer before decoding.
    pub fn scanned(&self) -> (n: usize)
        ensures
            n as nat == self.offset(),
    {
        self.inner.scanned()
    }

    /// Attempts to extract one data line from the buffer.
    ///
    /// As the newline decoder, except that the first complete line is
    /// consumed without being emitted while a header is pending.
    pub fn decode(&mut self, buf: &mut bytes::BytesMut) -> (r: Result<
        Option<Vec<u8>>,
        StreamBodyError,
    >)
        requires
            old(self).offset() <= buf_bytes(*old(buf)).len(),
        ensures
            final(self).max_len() == old(self).max_len(),
            ({
                let bs = buf_bytes(*old(buf));
                let bs2 = buf_bytes(*final(buf));
                match line_scan(bs, old(self).offset(), old(self).max_len()) {
                    LineScanResult::More => r matches Ok(None) && bs2 == bs && final(self).offset()
                        == bs.len() && final(self).header_pending() == old(self).header_pending(),
                    LineScanResult::Line(j) => bs2 == bs.skip(j as int + 1) && final(self).offset() == 0
                        && (if old(self).header_pending() {
                        r matches Ok(None) && !final(self).header_pending()
                    } else {
                        (r matches Ok(Some(f)) && f@ == bs.take(j as int)) && final(self).header_pending() == old(self).header_pending()
                    }),
                    LineScanResult::Fail => (r matches Err(e) && e.spec_kind()
                        == StreamBodyKind::MaxLenReachedError) && bs2 == bs,
                }
            }),
    {
        match self.inner.decode(buf) {
            Ok(Some(line)) => {
                if self.with_header && !self.header_skipped {
                    self.header_skipped = true;
                    Ok(None)
                } else {
                    Ok(Some(line))
                }
            },
            Ok(None) => Ok(None),
            Err(e) => Err(e),
        }
    }

    /// One final decode attempt against whatever bytes remain at the end of
    /// the input: as the newline decoder's, except that a flushed final line
    /// is still the header, consumed without being emitted, while a header
    /// is pending.
    pub fn decode_eof(&mut self, buf: &mut bytes::BytesMut) -> (r: Result<
        Option<Vec<u8>>,
        StreamBodyError,
    >)
        requires
            old(self).offset() <= buf_bytes(*old(buf)).len(),
        ensures
            final(self).max_len() == old(self).max_len(),
            ({
                let bs = buf_bytes(*old(buf));
                let bs2 = buf_bytes(*final(buf));
                match line_scan(bs, old(self).offset(), old(self).max_len()) {
                    LineScanResult::More => if bs.len() == 0 {
                        r matches Ok(None) && bs2 == bs && final(self).offset() == 0 && final(self).header_pending() == old(self).header_pending()
                    } else {
                        bs2 == Seq::<u8>::empty() && final(self).offset() == 0 && (if old(self).header_pending() {
                            r matches Ok(None) && !final(self).header_pending()
                        } else {
                            (r matches Ok(Some(f)) && f@ == bs) && final(self).header_pending()
                                == old(self).header_pending()
                        })
                    },
                    LineScanResult::Line(j) => bs2 == bs.skip(j as int + 1) && final(self).offset() == 0
                        && (if old(self).header_pending() {
                        r matches Ok(None) && !final(self).header_pending()
                    } else {
                        (r matches Ok(Some(f)) && f@ == bs.take(j as int)) && final(self).header_pending() == old(self).header_pending()
                    }),
                    LineScanResult::Fail => (r matches Err(e) && e.spec_kind()
                        == StreamBodyKind::MaxLenReachedError) && bs2 == bs,
                }
            }),
    {
        match self.inner.decode_eof(buf) {
            Ok(Some(line)) => {
                if self.with_header && !self.header_skipped {
                    self.header_skipped = true;
                    Ok(None)
                } else {
                    Ok(Some(line))
                }
            },
            Ok(None) => Ok(None),
            Err(e) => Err(e),
        }
    }
}

/// Feeds the chunks to a fresh newline decoder in order, draining every
/// extractable line after each chunk and flushing a final unterminated line
/// at end of input.
///
/// The result is a function of the concatenated bytes alone: however the
/// input is cut into chunks, the same lines come out in the same order,
/// followed by the same error, if any.
pub fn lines_decode_chunks(chunks: &Vec<Vec<u8>>, max_length: usize) -> ((out, err): (
    Vec<Vec<u8>>,
    Option<StreamBodyError>,
))
    ensures
        ({
            let outcome = lines_run(0, chunks_bytes(chunks@), max_length as nat);
            &&& frames_views(out@) == outcome.0
            &&& match err {
                Some(e) => outcome.1 matches Some(k) && e.spec_kind() == k,
                None => outcome.1 is None,
            }
        }),
{
    let ghost max = max_length as nat;
    let ghost all = chunks_bytes(chunks@);
    let mut codec = NewlineCodec::new_with_max_length(max_length);
    let mut buf = buf_new();
    let mut frames: Vec<Vec<u8>> = Vec::new();
    let mut k: usize = 0;
    proof {
        lemma_chunks_bytes_all(chunks@);
        assert(buf_bytes(buf) + chunks_bytes(chunks@.skip(0)) =~= all);
    }
    while k < chunks.len()
        invariant
            k <= chunks.len(),
            all == chunks_bytes(chunks@),
            max == max_length as nat,
            codec.max_len() == max,
            codec.offset() <= buf_bytes(buf).len(),
            ({
                let rest = lines_run(
                    codec.offset(),
                    buf_bytes(buf) + chunks_bytes(chunks@.skip(k as int)),
                    max,
                );
                lines_run(0, all, max) == (frames_views(frames@) + rest.0, rest.1)
            }),
        decreases chunks.len() - k,
    {
        proof {
            lemma_chunks_bytes_step(chunks@, k as int);
            assert((buf_bytes(buf) + chunks@[k as int]@) + chunks_bytes(chunks@.skip(k as int + 1))
                =~= buf_bytes(buf) + chunks_bytes(chunks@.skip(k as int)));
        }
        buf_extend_from_slice(&mut buf, &chunks[k]);
        k = k + 1;
        let ghost rest_bytes = chunks_bytes(chunks@.skip(k as int));
        loop
            invariant
                all == chunks_bytes(chunks@),
                max == max_length as nat,
                codec.max_len() == max,
                codec.offset() <= buf_bytes(buf).len(),
                ({
                    let rest = lines_run(codec.offset(), buf_bytes(buf) + rest_bytes, max);
                    lines_run(0, all, max) == (frames_views(frames@) + rest.0, rest.1)
                }),
            decreases buf_bytes(buf).len(),
        {
            let ghost bs = buf_bytes(buf);
            let ghost off = codec.offset();
            proof {
                lemma_line_scan_extend(bs, rest_bytes, off, max);
                lemma_line_scan_line_bounds(bs, off, max);
            }
            match codec.decode(&mut buf) {
                Ok(Some(f)) => {
                    proof {
                        let j = match line_scan(bs, off, max) {
                            LineScanResult::Line(j) => j,
                            _ => arbitrary(),
                        };
                        assert((bs + rest_bytes).take(j as int) =~= bs.take(j as int));
                        assert((bs + rest_bytes).skip(j as int + 1) =~= bs.skip(j as int + 1)
                            + rest_bytes);
                        lemma_frames_views_push(frames@, f);
                        assert(frames_views(frames@) + (seq![bs.take(j as int)] + lines_run(
                            0,
                            bs.skip(j as int + 1) + rest_bytes,
                            max,
                        ).0) =~= frames_views(frames@).push(f@) + lines_run(
                            0,
                            bs.skip(j as int + 1) + rest_bytes,
                            max,
                        ).0);
                    }
                    frames.push(f);
                },
                Ok(None) => {
                    break;
                },
                Err(e) => {
                    proof {
                        assert(lines_run(off, bs + rest_bytes, max) == (
                            Seq::<Seq<u8>>::empty(),
                            Some(StreamBodyKind::MaxLenReachedError),
                        ));
                        assert(frames_views(frames@) + Seq::<Seq<u8>>::empty() =~= frames_views(
                            frames@,
                        ));
                    }
                    return (frames, Some(e));
                },
            }
        }
    }
    // end of input: flush the final line, if any, then nothing more can come
    proof {
        lemma_chunks_bytes_empty(chunks@);
        assert(buf_bytes(buf) + chunks_bytes(chunks@.skip(chunks@.len() as int)) =~= buf_bytes(
            buf,
        ));
    }
    loop
        invariant
            all == chunks_bytes(chunks@),
            max == max_length as nat,
            codec.max_len() == max,
            codec.offset() <= buf_bytes(buf).len(),
            ({
                let rest = lines_run(codec.offset(), buf_bytes(buf), max);
                lines_run(0, all, max) == (frames_views(frames@) + rest.0, rest.1)
            }),
        ensures
            lines_run(codec.offset(), buf_bytes(buf), max) == (
                Seq::<Seq<u8>>::empty(),
                None::<StreamBodyKind>,
            ),
            ({
                let rest = lines_run(codec.offset(), buf_bytes(buf), max);
                lines_run(0, all, max) == (frames_views(frames@) + rest.0, rest.1)
            }),
        decreases buf_bytes(buf).len(),
    {
        let ghost bs = buf_bytes(buf);
        let ghost off = codec.offset();
        proof {
            lemma_line_scan_line_bounds(bs, off, max);
        }
        match codec.decode_eof(&mut buf) {
            Ok(Some(f)) => {
                proof {
                    lemma_frames_views_push(frames@, f);
                    match line_scan(bs, off, max) {
                        LineScanResult::Line(j) => {
                            assert(frames_views(frames@) + (seq![bs.take(j as int)] + lines_run(
                                0,
                                bs.skip(j as int + 1),
                                max,
                            ).0) =~= frames_views(frames@).push(f@) + lines_run(
                                0,
                                bs.skip(j as int + 1),
                                max,
                            ).0);
                        },
                        LineScanResult::More => {
                            assert(lines_run(off, bs, max) == (seq![bs], None::<StreamBodyKind>));
                            assert(lines_run(
                                codec.offset(),
                                buf_bytes(buf),
                                max,
                            ) == (Seq::<Seq<u8>>::empty(), None::<StreamBodyKind>));
                            assert(frames_views(frames@) + (seq![bs] + Seq::<Seq<u8>>::empty())
                                =~= frames_views(frames@).push(f@) + Seq::<Seq<u8>>::empty());
                        },
                        LineScanResult::Fail => {
                            assert(false);
                        },
                    }
                }
                frames.push(f);
            },
            Ok(None) => {
                break;
            },
            Err(e) => {
                proof {
                    assert(lines_run(off, bs, max) == (
                        Seq::<Seq<u8>>::empty(),
                        Some(StreamBodyKind::MaxLenReachedError),
                    ));
                    assert(frames_views(frames@) + Seq::<Seq<u8>>::empty() =~= frames_views(
                        frames@,
                    ));
                }
                return (frames, Some(e));
            },
        }
    }
    proof {
        assert(frames_views(frames@) + Seq::<Seq<u8>>::empty() =~= frames_views(frames@));
    }
    (frames, None)
}

/// Feeds the chunks to a fresh CSV line decoder in order, draining every
/// extractable data line after each chunk and flushing a final unterminated
/// line at end of input. When `with_header` holds, the stream's first line
/// is consumed as the header and never emitted.
///
/// The result is a function of the concatenated bytes and the header flag
/// alone: however the input is cut into chunks, the same data lines come out
/// in the same order, followed by the same error, if any.
pub fn csv_decode_chunks(chunks: &Vec<Vec<u8>>, max_length: usize, with_header: bool) -> ((
    out,
    err,
): (Vec<Vec<u8>>, Option<StreamBodyError>))
    ensures
        ({
            let outcome = csv_run(0, chunks_bytes(chunks@), max_length as nat, with_header);
            &&& frames_views(out@) == outcome.0
            &&& match err {
                Some(e) => outcome.1 matches Some(k) && e.spec_kind() == k,
                None => outcome.1 is None,
            }
        }),
{
    let ghost max = max_length as nat;
    let ghost all = chunks_bytes(chunks@);
    let mut codec = CsvLineCodec::new_with_max_length(max_length, with_header);
    let mut buf = buf_new();
    let mut frames: Vec<Vec<u8>> = Vec::new();
    let mut k: usize = 0;
    proof {
        lemma_chunks_bytes_all(chunks@);
        assert(buf_bytes(buf) + chunks_bytes(chunks@.skip(0)) =~= all);
    }
    while k < chunks.len()
        invariant
            k <= chunks.len(),
            all == chunks_bytes(chunks@),
            max == max_length as nat,
            codec.max_len() == max,
            codec.offset() <= buf_bytes(buf).len(),
            ({
                let rest = csv_run(
                    codec.offset(),
                    buf_bytes(buf) + chunks_bytes(chunks@.skip(k as int)),
                    max,
                    codec.header_pending(),
                );
                csv_run(0, all, max, with_header) == (frames_views(frames@) + rest.0, rest.1)
            }),
        decreases chunks.len() - k,
    {
        proof {
            lemma_chunks_bytes_step(chunks@, k as int);
            assert((buf_bytes(buf) + chunks@[k as int]@) + chunks_bytes(chunks@.skip(k as int + 1))
                =~= buf_bytes(buf) + chunks_bytes(chunks@.skip(k as int)));
        }
        buf_extend_from_slice(&mut buf, &chunks[k]);
        k = k + 1;
        let ghost rest_bytes = chunks_bytes(chunks@.skip(k as int));
        loop
            invariant
                all == chunks_bytes(chunks@),
                max == max_length as nat,
                codec.max_len() == max,
                codec.offset() <= buf_bytes(buf).len(),
                ({
                    let rest = csv_run(
                        codec.offset(),
                        buf_bytes(buf) + rest_bytes,
                        max,
                        codec.header_pending(),
                    );
                    csv_run(0, all, max, with_header) == (frames_views(frames@) + rest.0, rest.1)
                }),
            decreases buf_bytes(buf).len(),
        {
            let before = buf_len(&buf);
            let ghost bs = buf_bytes(buf);
            let ghost off = codec.offset();
            let ghost pending = codec.header_pending();
            proof {
                lemma_line_scan_extend(bs, rest_bytes, off, max);
                lemma_line_scan_line_bounds(bs, off, max);
            }
            match codec.decode(&mut buf) {
                Ok(Some(f)) => {
                    proof {
                        let j = match line_scan(bs, off, max) {
                            LineScanResult::Line(j) => j,
                            _ => arbitrary(),
                        };
                        assert((bs + rest_bytes).take(j as int) =~= bs.take(j as int));
                        assert((bs + rest_bytes).skip(j as int + 1) =~= bs.skip(j as int + 1)
                            + rest_bytes);
                        lemma_frames_views_push(frames@, f);
                        assert(frames_views(frames@) + (seq![bs.take(j as int)] + csv_run(
                            0,
                            bs.skip(j as int + 1) + rest_bytes,
                            max,
                            false,
                        ).0) =~= frames_views(frames@).push(f@) + csv_run(
                            0,
                            bs.skip(j as int + 1) + rest_bytes,
                            max,
                            false,
                        ).0);
                    }
                    frames.push(f);
                },
                Ok(None) => {
                    let after = buf_len(&buf);
                    if after == before {
                        break;
                    }
                    proof {
                        let j = match line_scan(bs, off, max) {
                            LineScanResult::Line(j) => j,
                            _ => arbitrary(),
                        };
                        assert((bs + rest_bytes).skip(j as int + 1) =~= bs.skip(j as int + 1)
                            + rest_bytes);
                    }
                },
                Err(e) => {
                    proof {
                        assert(csv_run(off, bs + rest_bytes, max, pending) == (
                            Seq::<Seq<u8>>::empty(),
                            Some(StreamBodyKind::MaxLenReachedError),
                        ));
                        assert(frames_views(frames@) + Seq::<Seq<u8>>::empty() =~= frames_views(
                            frames@,
                        ));
                    }
                    return (frames, Some(e));
                },
            }
        }
    }
    // end of input: flush the final line, if any, then nothing more can come
    proof {
        lemma_chunks_bytes_empty(chunks@);
        assert(buf_bytes(buf) + chunks_bytes(chunks@.skip(chunks@.len() as int)) =~= buf_bytes(
            buf,
        ));
    }
    loop
        invariant
            all == chunks_bytes(chunks@),
            max == max_length as nat,
            codec.max_len() == max,
            codec.offset() <= buf_bytes(buf).len(),
            ({
                let rest = csv_run(
                    codec.offset(),
                    buf_bytes(buf),
                    max,
                    codec.header_pending(),
                );
                csv_run(0, all, max, with_header) == (frames_views(frames@) + rest.0, rest.1)
            }),
        ensures
            csv_run(codec.offset(), buf_bytes(buf), max, codec.header_pending()) == (
                Seq::<Seq<u8>>::empty(),
                None::<StreamBodyKind>,
            ),
            ({
                let rest = csv_run(
                    codec.offset(),
                    buf_bytes(buf),
                    max,
                    codec.header_pending(),
                );
                csv_run(0, all, max, with_header) == (frames_views(frames@) + rest.0, rest.1)
            }),
        decreases buf_bytes(buf).len(),
    {
        let before = buf_len(&buf);
        let ghost bs = buf_bytes(buf);
        let ghost off = codec.offset();
        let ghost pending = codec.header_pending();
        proof {
            lemma_line_scan_line_bounds(bs, off, max);
        }
        match codec.decode_eof(&mut buf) {
            Ok(Some(f)) => {
                proof {
                    lemma_frames_views_push(frames@, f);
                    match line_scan(bs, off, max) {
                        LineScanResult::Line(j) => {
                            assert(frames_views(frames@) + (seq![bs.take(j as int)] + csv_run(
                                0,
                                bs.skip(j as int + 1),
                                max,
                                false,
                            ).0) =~= frames_views(frames@).push(f@) + csv_run(
                                0,
                                bs.skip(j as int + 1),
                                max,
                                false,
                            ).0);
                        },
                        LineScanResult::More => {
                            assert(csv_run(off, bs, max, pending) == (
                                seq![bs],
                                None::<StreamBodyKind>,
                            ));
                            assert(frames_views(frames@) + (seq![bs] + Seq::<Seq<u8>>::empty())
                                =~= frames_views(frames@).push(f@) + Seq::<Seq<u8>>::empty());
                        },
                        LineScanResult::Fail => {
                            assert(false);
                        },
                    }
                }
                frames.push(f);
            },
            Ok(None) => {
                let after = buf_len(&buf);
                if after == before {
                    break;
                }
            },
            Err(e) => {
                proof {
                    assert(csv_run(off, bs, max, pending) == (
                        Seq::<Seq<u8>>::empty(),
                        Some(StreamBodyKind::MaxLenReachedError),
                    ));
                    assert(frames_views(frames@) + Seq::<Seq<u8>>::empty() =~= frames_views(
                        frames@,
                    ));
                }
                return (frames, Some(e));
            },
        }
    }
    proof {
        assert(frames_views(frames@) + Seq::<Seq<u8>>::empty() =~= frames_views(frames@));
    }
    (frames, None)
}

} // verus!
