//! Incremental extraction of top-level JSON objects from a streamed JSON
//! array.
//!
//! The scanner walks the bytes once, tracking whether the top-level array
//! bracket has been seen, whether it stands inside a quoted string, whether
//! the previous byte was an unescaped backslash, and the current brace
//! depth. A `{` at depth zero starts a candidate object; the `}` that brings
//! the depth back to zero ends it, and exactly those bytes form the emitted
//! frame. Braces, brackets and commas inside quoted strings are never
//! mistaken for structure.

use vstd::prelude::*;

use crate::byte_buf::{buf_advance, buf_byte, buf_copy_range, buf_extend_from_slice, buf_len, buf_new, buf_bytes};
use crate::chunking::{chunks_bytes, frames_views, lemma_chunks_bytes_all, lemma_chunks_bytes_empty, lemma_chunks_bytes_step, lemma_frames_views_push};
use crate::error::{StreamBodyError, StreamBodyKind};

verus! {

/// The scanner state carried between bytes: everything needed to resume
/// after a partial object.
pub struct JsonScanState {
    /// The top-level `[` has been seen.
    pub array_open: bool,
    /// A top-level delimiter would be legitimate here (an object has been
    /// emitted before).
    pub delim_expected: bool,
    /// The scanner stands inside a quoted string.
    pub in_quote: bool,
    /// The previous byte was an unescaped backslash inside a string.
    pub escaped: bool,
    /// The current brace depth.
    pub depth: nat,
    /// Where the object currently being scanned began, while `depth > 0`.
    pub obj_start: nat,
}

/// The scanner state at the start of a stream.
pub open spec fn json_init_state() -> JsonScanState {
    JsonScanState {
        array_open: false,
        delim_expected: false,
        in_quote: false,
        escaped: false,
        depth: 0,
        obj_start: 0,
    }
}

/// What one byte does to the scanner.
pub enum JsonStep {
    /// Keep scanning with this state.
    Next(JsonScanState),
    /// The byte closes a complete object that began at the carried position.
    Emit(nat, JsonScanState),
    /// The byte is structurally illegal here.
    Fail,
}

/// The scanner's transition for byte `b` at position `i`.
pub open spec fn json_char_step(st: JsonScanState, i: nat, b: u8) -> JsonStep {
    if b == 0x5b {
        // '['
        if !st.in_quote && st.depth == 0 {
            if st.array_open {
                JsonStep::Fail
            } else {
                JsonStep::Next(JsonScanState { array_open: true, ..st })
            }
        } else {
            JsonStep::Next(JsonScanState { escaped: false, ..st })
        }
    } else if b == 0x22 {
        // '"'
        if !st.escaped {
            JsonStep::Next(JsonScanState { in_quote: !st.in_quote, ..st })
        } else {
            JsonStep::Next(JsonScanState { escaped: false, ..st })
        }
    } else if b == 0x5c {
        // '\'
        if st.in_quote {
            JsonStep::Next(JsonScanState { escaped: !st.escaped, ..st })
        } else {
            JsonStep::Next(JsonScanState { escaped: false, ..st })
        }
    } else if b == 0x7b {
        // '{'
        if !st.in_quote {
            JsonStep::Next(
                JsonScanState {
                    depth: st.depth + 1,
                    escaped: false,
                    obj_start: if st.depth == 0 {
                        i
                    } else {
                        st.obj_start
                    },
                    ..st
                },
            )
        } else {
            JsonStep::Next(JsonScanState { escaped: false, ..st })
        }
    } else if b == 0x7d {
        // '}'
        if !st.in_quote {
            if st.depth == 0 {
                JsonStep::Fail
            } else if st.depth == 1 {
                JsonStep::Emit(
                    st.obj_start,
                    JsonScanState {
                        depth: 0,
                        escaped: false,
                        delim_expected: true,
                        obj_start: 0,
                        ..st
                    },
                )
            } else {
                JsonStep::Next(
                    JsonScanState { depth: (st.depth - 1) as nat, escaped: false, ..st },
                )
            }
        } else {
            JsonStep::Next(JsonScanState { escaped: false, ..st })
        }
    } else if b == 0x2c {
        // ','
        if !st.in_quote && st.depth == 0 && !st.delim_expected {
            JsonStep::Fail
        } else {
            JsonStep::Next(JsonScanState { escaped: false, ..st })
        }
    } else {
        JsonStep::Next(JsonScanState { escaped: false, ..st })
    }
}

/// The scanner state is consistent with having scanned the first `i` bytes
/// since the last consumed frame.
pub open spec fn json_state_wf(st: JsonScanState, i: nat) -> bool {
    &&& st.escaped ==> st.in_quote
    &&& st.obj_start <= i
    &&& st.depth == 0 ==> st.obj_start == 0
    &&& st.depth <= i
}

/// What one decode attempt reports after scanning as far as it can.
pub enum JsonScanResult {
    /// All buffered bytes scanned without completing an object.
    More(JsonScanState),
    /// A complete object occupies `[start, end)` of the buffer.
    Frame(nat, nat, JsonScanState),
    /// The scan fails with this kind of error.
    Fail(StreamBodyKind),
}

/// Scans the buffer from position `i` until an object completes, an error
/// arises, the scanned length reaches the bound, or the bytes run out.
pub open spec fn json_scan(st: JsonScanState, bytes: Seq<u8>, i: nat, max: nat) -> JsonScanResult
    decreases bytes.len() - i when i <= bytes.len()
{
    if i >= bytes.len() {
        JsonScanResult::More(st)
    } else if i >= max {
        JsonScanResult::Fail(StreamBodyKind::MaxLenReachedError)
    } else {
        match json_char_step(st, i, bytes[i as int]) {
            JsonStep::Next(st2) => json_scan(st2, bytes, i + 1, max),
            JsonStep::Emit(start, st2) => JsonScanResult::Frame(start, i + 1, st2),
            JsonStep::Fail => JsonScanResult::Fail(StreamBodyKind::CodecError),
        }
    }
}

/// One byte keeps the scanner state consistent.
pub proof fn lemma_json_char_step_wf(st: JsonScanState, i: nat, b: u8)
    requires
        json_state_wf(st, i),
    ensures
        match json_char_step(st, i, b) {
            JsonStep::Next(st2) => json_state_wf(st2, i + 1),
            JsonStep::Emit(start, st2) => start <= i && json_state_wf(st2, 0),
            JsonStep::Fail => true,
        },
{
}

/// What a scan from a consistent state reports: a consistent resume state,
/// or a frame lying within both the buffer and the bound.
pub proof fn lemma_json_scan_wf(st: JsonScanState, bytes: Seq<u8>, i: nat, max: nat)
    requires
        i <= bytes.len(),
        json_state_wf(st, i),
    ensures
        match json_scan(st, bytes, i, max) {
            JsonScanResult::More(st2) => json_state_wf(st2, bytes.len()),
            JsonScanResult::Frame(s, e, st2) => s < e <= bytes.len() && e <= max && json_state_wf(
                st2,
                0,
            ),
            JsonScanResult::Fail(k) => true,
        },
    decreases bytes.len() - i,
{
    if i < bytes.len() && i < max {
        lemma_json_char_step_wf(st, i, bytes[i as int]);
        match json_char_step(st, i, bytes[i as int]) {
            JsonStep::Next(st2) => {
                lemma_json_scan_wf(st2, bytes, i + 1, max);
            },
            _ => {},
        }
    }
}

/// Appending bytes at the buffer's tail never changes what an earlier scan
/// found: a frame or an error stands as it is, and a scan that ran out of
/// bytes resumes from its saved state.
pub proof fn lemma_json_scan_extend(
    st: JsonScanState,
    a: Seq<u8>,
    ext: Seq<u8>,
    i: nat,
    max: nat,
)
    requires
        i <= a.len(),
    ensures
        match json_scan(st, a, i, max) {
            JsonScanResult::More(st2) => json_scan(st, a + ext, i, max) == json_scan(
                st2,
                a + ext,
                a.len(),
                max,
            ),
            JsonScanResult::Frame(s, e, st2) => json_scan(st, a + ext, i, max)
                == JsonScanResult::Frame(s, e, st2),
            JsonScanResult::Fail(k) => json_scan(st, a + ext, i, max) == JsonScanResult::Fail(k),
        },
    decreases a.len() - i,
{
    if i < a.len() {
        assert((a + ext)[i as int] == a[i as int]);
        if i < max {
            match json_char_step(st, i, a[i as int]) {
                JsonStep::Next(st2) => {
                    lemma_json_scan_extend(st2, a, ext, i + 1, max);
                },
                _ => {},
            }
        }
    }
}

/// The frames and the outcome of draining a whole byte string through the
/// JSON array framing, resuming a scan at position `scanned` in state `st`.
/// An incomplete trailing object at the end of the input yields nothing.
pub open spec fn json_run(st: JsonScanState, scanned: nat, bytes: Seq<u8>, max: nat) -> (
    Seq<Seq<u8>>,
    Option<StreamBodyKind>,
)
    decreases bytes.len() when scanned <= bytes.len()
{
    match json_scan(st, bytes, scanned, max) {
        JsonScanResult::More(st2) => (Seq::empty(), None),
        JsonScanResult::Frame(s, e, st2) => if s <= e && 1 <= e <= bytes.len() {
            let rec = json_run(st2, 0, bytes.skip(e as int), max);
            (seq![bytes.subrange(s as int, e as int)] + rec.0, rec.1)
        } else {
            (Seq::empty(), None)
        },
        JsonScanResult::Fail(k) => (Seq::empty(), Some(k)),
    }
}

/// Law: no frame that the JSON array framing ever emits is longer than the
/// configured bound.
pub proof fn lemma_json_frames_bounded(
    st: JsonScanState,
    scanned: nat,
    bytes: Seq<u8>,
    max: nat,
)
    requires
        scanned <= bytes.len(),
        json_state_wf(st, scanned),
    ensures
        forall|i: int|
            0 <= i < json_run(st, scanned, bytes, max).0.len() ==> #[trigger] json_run(
                st,
                scanned,
                bytes,
                max,
            ).0[i].len() <= max,
    decreases bytes.len(),
{
    lemma_json_scan_wf(st, bytes, scanned, max);
    match json_scan(st, bytes, scanned, max) {
        JsonScanResult::Frame(s, e, st2) => {
            lemma_json_frames_bounded(st2, 0, bytes.skip(e as int), max);
            let res = json_run(st, scanned, bytes, max).0;
            let rec = json_run(st2, 0, bytes.skip(e as int), max).0;
            assert(res == seq![bytes.subrange(s as int, e as int)] + rec);
            assert forall|i: int| 0 <= i < res.len() implies #[trigger] res[i].len() <= max by {
                if i == 0 {
                    assert(res[0] == bytes.subrange(s as int, e as int));
                } else {
                    assert(res[i] == rec[i - 1]);
                    assert(rec[i - 1].len() <= max);
                }
            }
        },
        _ => {},
    }
}

/// Law: what a streamed JSON array yields depends only on the concatenation
/// of the delivered chunks, never on where the chunk boundaries fall.
pub proof fn lemma_json_chunking_irrelevant(a: Seq<Vec<u8>>, b: Seq<Vec<u8>>, max: nat)
    requires
        chunks_bytes(a) == chunks_bytes(b),
    ensures
        json_run(json_init_state(), 0, chunks_bytes(a), max) == json_run(
            json_init_state(),
            0,
            chunks_bytes(b),
            max,
        ),
{
}


/// While an object is being scanned, the saved start position points at its
/// opening brace.
pub open spec fn json_state_marks(st: JsonScanState, bytes: Seq<u8>) -> bool {
    st.depth > 0 ==> st.obj_start < bytes.len() && bytes[st.obj_start as int] == 0x7b
}

/// One byte keeps the saved start position pointing at an opening brace,
/// and an emitted frame is closed by the very byte that completes it.
pub proof fn lemma_json_char_step_marks(st: JsonScanState, i: nat, bytes: Seq<u8>)
    requires
        i < bytes.len(),
        json_state_wf(st, i),
        json_state_marks(st, bytes),
    ensures
        match json_char_step(st, i, bytes[i as int]) {
            JsonStep::Next(st2) => json_state_marks(st2, bytes),
            JsonStep::Emit(s, st2) => s < i && bytes[s as int] == 0x7b && bytes[i as int] == 0x7d
                && json_state_marks(st2, bytes),
            JsonStep::Fail => true,
        },
{
    match json_char_step(st, i, bytes[i as int]) {
        JsonStep::Emit(s, st2) => {
            assert(bytes[s as int] == 0x7b);
            assert(bytes[i as int] == 0x7d);
            assert(s <= i);
            assert(s != i);
        },
        _ => {},
    }
}

/// A scan that completes an object reports a frame whose first byte is `{`
/// and whose last byte is `}`.
pub proof fn lemma_json_scan_braces(st: JsonScanState, bytes: Seq<u8>, i: nat, max: nat)
    requires
        i <= bytes.len(),
        json_state_wf(st, i),
        json_state_marks(st, bytes),
    ensures
        match json_scan(st, bytes, i, max) {
            JsonScanResult::More(st2) => json_state_marks(st2, bytes),
            JsonScanResult::Frame(s, e, st2) => s + 2 <= e <= bytes.len() && bytes[s as int]
                == 0x7b && bytes[e - 1] == 0x7d,
            JsonScanResult::Fail(k) => true,
        },
    decreases bytes.len() - i,
{
    if i < bytes.len() && i < max {
        lemma_json_char_step_wf(st, i, bytes[i as int]);
        lemma_json_char_step_marks(st, i, bytes);
        match json_char_step(st, i, bytes[i as int]) {
            JsonStep::Next(st2) => {
                lemma_json_scan_braces(st2, bytes, i + 1, max);
            },
            _ => {},
        }
    }
}

/// Law: every frame the JSON array framing emits is brace-delimited — at
/// least two bytes, beginning with `{` and ending with `}`.
pub proof fn lemma_json_frames_brace_delimited(
    st: JsonScanState,
    scanned: nat,
    bytes: Seq<u8>,
    max: nat,
)
    requires
        scanned <= bytes.len(),
        json_state_wf(st, scanned),
        json_state_marks(st, bytes),
    ensures
        forall|k: int|
            0 <= k < json_run(st, scanned, bytes, max).0.len() ==> {
                let f = #[trigger] json_run(st, scanned, bytes, max).0[k];
                f.len() >= 2 && f[0] == 0x7b && f[f.len() - 1] == 0x7d
            },
    decreases bytes.len(),
{
    lemma_json_scan_wf(st, bytes, scanned, max);
    lemma_json_scan_braces(st, bytes, scanned, max);
    match json_scan(st, bytes, scanned, max) {
        JsonScanResult::Frame(s, e, st2) => {
            lemma_json_frames_brace_delimited(st2, 0, bytes.skip(e as int), max);
            let res = json_run(st, scanned, bytes, max).0;
            let rec = json_run(st2, 0, bytes.skip(e as int), max).0;
            let frame = bytes.subrange(s as int, e as int);
            assert(res == seq![frame] + rec);
            assert(frame.len() >= 2);
            assert(frame[0] == 0x7b);
            assert(frame[frame.len() - 1] == 0x7d);
            assert forall|k: int|
                0 <= k < res.len() implies {
                    let f = #[trigger] res[k];
                    f.len() >= 2 && f[0] == 0x7b && f[f.len() - 1] == 0x7d
                } by {
                if k == 0 {
                    assert(res[0] == frame);
                } else {
                    assert(res[k] == rec[k - 1]);
                    assert(rec[k - 1].len() >= 2 && rec[k - 1][0] == 0x7b && rec[k - 1][rec[k
                        - 1].len() - 1] == 0x7d);
                }
            }
        },
        _ => {},
    }
}

/// The cross-call scanner position and state, mirrored in executable form.
#[derive(Clone, Debug)]
struct JsonCursor {
    current_offset: usize,
    array_is_opened: bool,
    delimiter_expected: bool,
    quote_opened: bool,
    escaped: bool,
    opened_brackets: usize,
    current_obj_pos: usize,
}

/// Incremental decoder for a streamed JSON array: it consumes a growing byte
/// buffer and emits each complete top-level object's bytes as one frame.
#[derive(Clone, Debug)]
pub struct JsonArrayCodec {
    max_length: usize,
    json_cursor: JsonCursor,
}

impl JsonArrayCodec {
    /// The configured bound on the bytes scanned for one object.
    pub closed spec fn max_len(&self) -> nat {
        self.max_length as nat
    }

    /// How many buffered bytes the scanner has already passed over.
    pub closed spec fn offset(&self) -> nat {
        self.json_cursor.current_offset as nat
    }

    /// The scanner state carried between decode attempts.
    pub closed spec fn state(&self) -> JsonScanState {
        JsonScanState {
            array_open: self.json_cursor.array_is_opened,
            delim_expected: self.json_cursor.delimiter_expected,
            in_quote: self.json_cursor.quote_opened,
            escaped: self.json_cursor.escaped,
            depth: self.json_cursor.opened_brackets as nat,
            obj_start: self.json_cursor.current_obj_pos as nat,
        }
    }

    /// The decoder's state is consistent with its scanned position.
    pub open spec fn wf(&self) -> bool {
        json_state_wf(self.state(), self.offset())
    }

    /// Creates a decoder that rejects any object whose scan passes
    /// `max_length` bytes.
    pub fn new_with_max_length(max_length: usize) -> (c: Self)
        ensures
            c.max_len() == max_length as nat,
            c.state() == json_init_state(),
            c.offset() == 0,
            c.wf(),
    {
        let initial_cursor = JsonCursor {
            current_offset: 0,
            array_is_opened: false,
            delimiter_expected: false,
            quote_opened: false,
            escaped: false,
            opened_brackets: 0,
            current_obj_pos: 0,
        };
        JsonArrayCodec { max_length, json_cursor: initial_cursor }
    }

    /// How many buffered bytes the scanner has already passed over, for
    /// callers that must check it against the buffer before decoding.
    pub fn scanned(&self) -> (n: usize)
        ensures
            n as nat == self.offset(),
    {
        self.json_cursor.current_offset
    }

    /// Attempts to extract one complete top-level object from the buffer.
    ///
    /// Scans from the position the previous attempt reached. Emits the
    /// object's bytes and consumes the buffer through its closing brace as
    /// soon as one object completes. Fails with a max-length error when the
    /// scan passes the bound without completing an object, and with a codec
    /// error on a second top-level `[`, a stray top-level `,`, or a stray
    /// `}`.
    pub fn decode(&mut self, buf: &mut bytes::BytesMut) -> (r: Result<
        Option<Vec<u8>>,
        StreamBodyError,
    >)
        requires
            old(self).wf(),
            old(self).offset() <= buf_bytes(*old(buf)).len(),
        ensures
            final(self).max_len() == old(self).max_len(),
            ({
                let bs = buf_bytes(*old(buf));
                let bs2 = buf_bytes(*final(buf));
                match json_scan(old(self).state(), bs, old(self).offset(), old(self).max_len()) {
                    JsonScanResult::More(st2) => r matches Ok(None) && bs2 == bs && final(self).state() == st2 && final(self).offset() == bs.len() && final(self).wf(),
                    JsonScanResult::Frame(s, e, st2) => (r matches Ok(Some(f)) && f@ == bs.subrange(
                        s as int,
                        e as int,
                    )) && bs2 == bs.skip(e as int) && final(self).state() == st2 && final(self).offset() == 0 && final(self).wf(),
                    JsonScanResult::Fail(k) => (r matches Err(er) && er.spec_kind() == k) && bs2
                        == bs,
                }
            }),
    {
        let ghost bs = buf_bytes(*buf);
        let ghost st0 = self.state();
        let ghost i0 = self.offset();
        let ghost max = self.max_len();
        let len = buf_len(buf);
        if len == 0 {
            return Ok(None);
        }
        let mut i = self.json_cursor.current_offset;
        while i < len
            invariant
                st0 == old(self).state(),
                i0 == old(self).offset(),
                max == old(self).max_len(),
                bs == buf_bytes(*old(buf)),
                bs == buf_bytes(*buf),
                len == bs.len(),
                i0 <= i as nat <= bs.len(),
                self.max_len() == max,
                self.offset() == i0,
                json_state_wf(self.state(), i as nat),
                json_scan(st0, bs, i0, max) == json_scan(self.state(), bs, i as nat, max),
            decreases len - i,
        {
            let ghost st = self.state();
            if i >= self.max_length {
                proof {
                    assert(json_scan(st, bs, i as nat, max) == JsonScanResult::Fail(
                        StreamBodyKind::MaxLenReachedError,
                    ));
                }
                return Err(StreamBodyError::new(
                    StreamBodyKind::MaxLenReachedError,
                    None,
                    Some("Max object length reached".to_string()),
                ));
            }
            let current_ch = buf_byte(buf, i);
            proof {
                lemma_json_char_step_wf(st, i as nat, current_ch);
            }
            if current_ch == 0x5b && !self.json_cursor.quote_opened
                && self.json_cursor.opened_brackets == 0 {
                if self.json_cursor.array_is_opened {
                    return Err(StreamBodyError::new(
                        StreamBodyKind::CodecError,
                        None,
                        Some("Unexpected array begin. It is already opened".to_string()),
                    ));
                } else {
                    self.json_cursor.array_is_opened = true;
                }
            } else if current_ch == 0x22 && !self.json_cursor.escaped {
                self.json_cursor.quote_opened = !self.json_cursor.quote_opened;
            } else if current_ch == 0x5c && self.json_cursor.quote_opened {
                self.json_cursor.escaped = !self.json_cursor.escaped;
            } else if current_ch == 0x7b && !self.json_cursor.quote_opened {
                if self.json_cursor.opened_brackets == 0 {
                    self.json_cursor.current_obj_pos = i;
                }
                self.json_cursor.opened_brackets = self.json_cursor.opened_brackets + 1;
                self.json_cursor.escaped = false;
            } else if current_ch == 0x7d && !self.json_cursor.quote_opened {
                if self.json_cursor.opened_brackets == 0 {
                    return Err(StreamBodyError::new(
                        StreamBodyKind::CodecError,
                        None,
                        Some("Unexpected object end".to_string()),
                    ));
                }
                self.json_cursor.opened_brackets = self.json_cursor.opened_brackets - 1;
                self.json_cursor.escaped = false;
                if self.json_cursor.opened_brackets == 0 {
                    self.json_cursor.delimiter_expected = true;
                    let start = self.json_cursor.current_obj_pos;
                    let frame = buf_copy_range(buf, start, i + 1);
                    self.json_cursor.current_obj_pos = 0;
                    buf_advance(buf, i + 1);
                    self.json_cursor.current_offset = 0;
                    proof {
                        assert(json_char_step(st, i as nat, current_ch) == JsonStep::Emit(
                            start as nat,
                            self.state(),
                        ));
                        assert(json_scan(st, bs, i as nat, max) == JsonScanResult::Frame(
                            start as nat,
                            i as nat + 1,
                            self.state(),
                        ));
                    }
                    return Ok(Some(frame));
                }
            } else if current_ch == 0x2c && !self.json_cursor.quote_opened
                && self.json_cursor.opened_brackets == 0 && !self.json_cursor.delimiter_expected {
                return Err(StreamBodyError::new(
                    StreamBodyKind::CodecError,
                    None,
                    Some("Unexpected delimiter found".to_string()),
                ));
            } else {
                self.json_cursor.escaped = false;
            }
            proof {
                assert(json_char_step(st, i as nat, current_ch) == JsonStep::Next(self.state()));
                assert(json_scan(st, bs, i as nat, max) == json_scan(
                    self.state(),
                    bs,
                    i as nat + 1,
                    max,
                ));
            }
            i = i + 1;
        }
        self.json_cursor.current_offset = len;
        proof {
            assert(json_scan(st0, bs, i0, max) == JsonScanResult::More(self.state()));
        }
        Ok(None)
    }

    /// One final decode attempt against whatever bytes remain at the end of
    /// the input: identical to `decode`. A still-incomplete trailing object
    /// yields nothing.
    pub fn decode_eof(&mut self, buf: &mut bytes::BytesMut) -> (r: Result<
        Option<Vec<u8>>,
        StreamBodyError,
    >)
        requires
            old(self).wf(),
            old(self).offset() <= buf_bytes(*old(buf)).len(),
        ensures
            final(self).max_len() == old(self).max_len(),
            ({
                let bs = buf_bytes(*old(buf));
                let bs2 = buf_bytes(*final(buf));
                match json_scan(old(self).state(), bs, old(self).offset(), old(self).max_len()) {
                    JsonScanResult::More(st2) => r matches Ok(None) && bs2 == bs && final(self).state() == st2 && final(self).offset() == bs.len() && final(self).wf(),
                    JsonScanResult::Frame(s, e, st2) => (r matches Ok(Some(f)) && f@ == bs.subrange(
                        s as int,
                        e as int,
                    )) && bs2 == bs.skip(e as int) && final(self).state() == st2 && final(self).offset() == 0 && final(self).wf(),
                    JsonScanResult::Fail(k) => (r matches Err(er) && er.spec_kind() == k) && bs2
                        == bs,
                }
            }),
    {
        self.decode(buf)
    }
}

/// Feeds the chunks to a fresh JSON array decoder in order, draining every
/// extractable frame after each chunk and once more at end of input.
///
/// The result is a function of the concatenated bytes alone: however the
/// input is cut into chunks, the same frames come out in the same order,
/// followed by the same error, if any.
pub fn json_array_decode_chunks(chunks: &Vec<Vec<u8>>, max_length: usize) -> ((out, err): (
    Vec<Vec<u8>>,
    Option<StreamBodyError>,
))
    ensures
        ({
            let outcome = json_run(json_init_state(), 0, chunks_bytes(chunks@), max_length as nat);
            &&& frames_views(out@) == outcome.0
            &&& match err {
                Some(e) => outcome.1 matches Some(k) && e.spec_kind() == k,
                None => outcome.1 is None,
            }
        }),
{
    let ghost max = max_length as nat;
    let ghost all = chunks_bytes(chunks@);
    let mut codec = JsonArrayCodec::new_with_max_length(max_length);
    let mut buf = buf_new();
    let mut frames: Vec<Vec<u8>> = Vec::new();
    let mut k: usize = 0;
    proof {
        lemma_chunks_bytes_all(chunks@);
        assert(buf_bytes(buf) + chunks_bytes(chunks@.skip(0)) =~= all);
    }
    while k < chunks.len()
        invariant
            k <= chunks.len(),
            all == chunks_bytes(chunks@),
            max == max_length as nat,
            codec.max_len() == max,
            codec.wf(),
            codec.offset() <= buf_bytes(buf).len(),
            ({
                let rest = json_run(
                    codec.state(),
                    codec.offset(),
                    buf_bytes(buf) + chunks_bytes(chunks@.skip(k as int)),
                    max,
                );
                json_run(json_init_state(), 0, all, max) == (
                    frames_views(frames@) + rest.0,
                    rest.1,
                )
            }),
        decreases chunks.len() - k,
    {
        proof {
            lemma_chunks_bytes_step(chunks@, k as int);
            assert((buf_bytes(buf) + chunks@[k as int]@) + chunks_bytes(chunks@.skip(k as int + 1))
                =~= buf_bytes(buf) + chunks_bytes(chunks@.skip(k as int)));
        }
        buf_extend_from_slice(&mut buf, &chunks[k]);
        k = k + 1;
        let ghost rest_bytes = chunks_bytes(chunks@.skip(k as int));
        loop
            invariant
                all == chunks_bytes(chunks@),
                max == max_length as nat,
                codec.max_len() == max,
                codec.wf(),
                codec.offset() <= buf_bytes(buf).len(),
                ({
                    let rest = json_run(
                        codec.state(),
                        codec.offset(),
                        buf_bytes(buf) + rest_bytes,
                        max,
                    );
                    json_run(json_init_state(), 0, all, max) == (
                        frames_views(frames@) + rest.0,
                        rest.1,
                    )
                }),
            decreases buf_bytes(buf).len(),
        {
            let ghost bs = buf_bytes(buf);
            let ghost st = codec.state();
            let ghost off = codec.offset();
            proof {
                lemma_json_scan_extend(st, bs, rest_bytes, off, max);
                lemma_json_scan_wf(st, bs, off, max);
            }
            match codec.decode(&mut buf) {
                Ok(Some(f)) => {
                    proof {
                        let (s, e, st2) = match json_scan(st, bs, off, max) {
                            JsonScanResult::Frame(s, e, st2) => (s, e, st2),
                            _ => arbitrary(),
                        };
                        assert((bs + rest_bytes).subrange(s as int, e as int) =~= bs.subrange(
                            s as int,
                            e as int,
                        ));
                        assert((bs + rest_bytes).skip(e as int) =~= bs.skip(e as int) + rest_bytes);
                        lemma_frames_views_push(frames@, f);
                        assert(frames_views(frames@) + (seq![bs.subrange(s as int, e as int)]
                            + json_run(st2, 0, bs.skip(e as int) + rest_bytes, max).0)
                            =~= frames_views(frames@).push(f@) + json_run(
                            st2,
                            0,
                            bs.skip(e as int) + rest_bytes,
                            max,
                        ).0);
                    }
                    frames.push(f);
                },
                Ok(None) => {
                    break;
                },
                Err(e) => {
                    proof {
                        let k0 = match json_scan(st, bs, off, max) {
                            JsonScanResult::Fail(k0) => k0,
                            _ => arbitrary(),
                        };
                        assert(json_run(st, off, bs + rest_bytes, max) == (
                            Seq::<Seq<u8>>::empty(),
                            Some(k0),
                        ));
                        assert(frames_views(frames@) + Seq::<Seq<u8>>::empty() =~= frames_views(
                            frames@,
                        ));
                    }
                    return (frames, Some(e));
                },
            }
        }
    }
    // end of input: one final attempt; a scan that reached the buffer's end
    // can yield nothing further
    proof {
        lemma_chunks_bytes_empty(chunks@);
        assert(buf_bytes(buf) + chunks_bytes(chunks@.skip(chunks@.len() as int)) =~= buf_bytes(
            buf,
        ));
    }
    loop
        invariant
            all == chunks_bytes(chunks@),
            max == max_length as nat,
            codec.max_len() == max,
            codec.wf(),
            codec.offset() <= buf_bytes(buf).len(),
            ({
                let rest = json_run(codec.state(), codec.offset(), buf_bytes(buf), max);
                json_run(json_init_state(), 0, all, max) == (
                    frames_views(frames@) + rest.0,
                    rest.1,
                )
            }),
        ensures
            json_run(codec.state(), codec.offset(), buf_bytes(buf), max) == (
                Seq::<Seq<u8>>::empty(),
                None::<StreamBodyKind>,
            ),
            ({
                let rest = json_run(codec.state(), codec.offset(), buf_bytes(buf), max);
                json_run(json_init_state(), 0, all, max) == (
                    frames_views(frames@) + rest.0,
                    rest.1,
                )
            }),
        decreases buf_bytes(buf).len(),
    {
        let ghost bs = buf_bytes(buf);
        let ghost st = codec.state();
        let ghost off = codec.offset();
        proof {
            lemma_json_scan_wf(st, bs, off, max);
        }
        match codec.decode_eof(&mut buf) {
            Ok(Some(f)) => {
                proof {
                    let (s, e, st2) = match json_scan(st, bs, off, max) {
                        JsonScanResult::Frame(s, e, st2) => (s, e, st2),
                        _ => arbitrary(),
                    };
                    lemma_frames_views_push(frames@, f);
                    assert(frames_views(frames@) + (seq![bs.subrange(s as int, e as int)]
                        + json_run(st2, 0, bs.skip(e as int), max).0) =~= frames_views(
                        frames@,
                    ).push(f@) + json_run(st2, 0, bs.skip(e as int), max).0);
                }
                frames.push(f);
            },
            Ok(None) => {
                break;
            },
            Err(e) => {
                proof {
                    let k0 = match json_scan(st, bs, off, max) {
                        JsonScanResult::Fail(k0) => k0,
                        _ => arbitrary(),
                    };
                    assert(json_run(st, off, bs, max) == (Seq::<Seq<u8>>::empty(), Some(k0)));
                    assert(frames_views(frames@) + Seq::<Seq<u8>>::empty() =~= frames_views(
                        frames@,
                    ));
                }
                return (frames, Some(e));
            },
        }
    }
    proof {
        assert(frames_views(frames@) + Seq::<Seq<u8>>::empty() =~= frames_views(frames@));
    }
    (frames, None)
}

} // verus!
