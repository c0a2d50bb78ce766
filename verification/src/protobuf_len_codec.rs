//! Length-prefixed framing for Protobuf message streams.
//!
//! Each message travels as a varint length header followed by exactly that
//! many payload bytes. The decoder alternates between awaiting a length and
//! awaiting a payload; the two states are distinct, so a header declaring
//! length zero still yields one empty frame. A declared length above the
//! configured bound is rejected before the payload is ever buffered.

use vstd::prelude::*;

use crate::byte_buf::{buf_advance, buf_byte, buf_copy_range, buf_extend_from_slice, buf_len, buf_new, buf_bytes};
use crate::chunking::{chunks_bytes, frames_views, lemma_chunks_bytes_all, lemma_chunks_bytes_empty, lemma_chunks_bytes_step, lemma_frames_views_push};
use crate::error::{StreamBodyError, StreamBodyKind};
use crate::varint::{decode_varint_slice, first_term, has_cont, is_varint_prefix, lemma_first_term_extend, lemma_first_term_of_prefix, lemma_first_term_spec, lemma_varint_parse_extend, lemma_varint_val_depends_on_prefix, varint_fits, varint_parse, varint_val};

verus! {

/// What one decode attempt does, as a function of the decoder state (the
/// expected payload length, or nothing while a length header is awaited),
/// the buffered bytes, and the configured bound.
pub enum PbStep {
    /// No complete item can be produced yet; nothing is consumed.
    Wait,
    /// A complete length header of `n` bytes declaring length `v` is
    /// consumed.
    Varint(nat, nat),
    /// A complete payload of the expected length — possibly empty — is
    /// consumed and emitted.
    Frame(nat),
    /// The attempt fails with this kind of error; nothing is consumed.
    Fail(StreamBodyKind),
}

/// The rank of a decoder state, used to order decode attempts that consume
/// no bytes: emitting a payload moves from awaiting-payload back to
/// awaiting-length.
pub open spec fn pb_state_rank(st: Option<nat>) -> int {
    match st {
        Some(v) => 1,
        None => 0,
    }
}

/// One decode attempt of the length-prefixed framing.
pub open spec fn pb_step(st: Option<nat>, bs: Seq<u8>, max: nat) -> PbStep {
    match st {
        Some(v) => if v > max {
            PbStep::Fail(StreamBodyKind::MaxLenReachedError)
        } else if bs.len() >= v {
            PbStep::Frame(v)
        } else {
            PbStep::Wait
        },
        None => if bs.len() == 0 {
            PbStep::Wait
        } else {
            match first_term(bs, 0) {
                Some(j) => if j <= 9 {
                    match varint_parse(bs) {
                        Some(p) => PbStep::Varint(p.0, p.1),
                        None => PbStep::Fail(StreamBodyKind::CodecError),
                    }
                } else {
                    PbStep::Fail(StreamBodyKind::CodecError)
                },
                None => if bs.len() >= 10 {
                    PbStep::Fail(StreamBodyKind::CodecError)
                } else {
                    PbStep::Wait
                },
            }
        },
    }
}

/// The frames and the outcome of draining a whole byte string through the
/// length-prefixed framing, starting from state `st`: decode attempts
/// repeat while they make progress; the run ends at the first attempt that
/// must await input that will never come, or at the first error.
pub open spec fn pb_run(st: Option<nat>, bs: Seq<u8>, max: nat) -> (
    Seq<Seq<u8>>,
    Option<StreamBodyKind>,
)
    decreases bs.len(), pb_state_rank(st),
{
    match pb_step(st, bs, max) {
        PbStep::Wait => (Seq::empty(), None),
        PbStep::Varint(v, n) => if 1 <= n <= bs.len() {
            pb_run(Some(v), bs.skip(n as int), max)
        } else {
            (Seq::empty(), None)
        },
        PbStep::Frame(l) => if l <= bs.len() {
            let rec = pb_run(None, bs.skip(l as int), max);
            (seq![bs.take(l as int)] + rec.0, rec.1)
        } else {
            (Seq::empty(), None)
        },
        PbStep::Fail(k) => (Seq::empty(), Some(k)),
    }
}

/// A `Varint` step consumes between one byte and the whole buffer; a
/// `Frame` step consumes at most the whole buffer.
pub proof fn lemma_pb_step_bounds(st: Option<nat>, bs: Seq<u8>, max: nat)
    ensures
        match pb_step(st, bs, max) {
            PbStep::Varint(v, n) => 1 <= n <= bs.len(),
            PbStep::Frame(l) => l <= bs.len(),
            _ => true,
        },
{
    if st is None && bs.len() > 0 {
        lemma_first_term_spec(bs, 0);
    }
}

/// A decode attempt that consumes bytes, emits a frame or fails gives the
/// same result after more bytes are appended at the buffer's tail.
pub proof fn lemma_pb_step_extend(st: Option<nat>, bs: Seq<u8>, ext: Seq<u8>, max: nat)
    ensures
        match pb_step(st, bs, max) {
            PbStep::Wait => true,
            PbStep::Varint(v, n) => pb_step(st, bs + ext, max) == PbStep::Varint(v, n),
            PbStep::Frame(l) => pb_step(st, bs + ext, max) == PbStep::Frame(l),
            PbStep::Fail(k) => pb_step(st, bs + ext, max) == PbStep::Fail(k),
        },
{
    let all = bs + ext;
    assert(all.len() >= bs.len());
    if st is None && bs.len() > 0 {
        assert(all[0] == bs[0]);
        lemma_first_term_spec(bs, 0);
        lemma_first_term_spec(all, 0);
        match first_term(bs, 0) {
            Some(j) => {
                lemma_first_term_extend(bs, ext, 0, j);
                if j <= 9 {
                    match varint_parse(bs) {
                        Some(p) => {
                            lemma_varint_parse_extend(bs, ext);
                        },
                        None => {
                            assert(j == 9 && bs[9] >= 2);
                            assert(all[9] == bs[9]);
                            assert(varint_parse(all) is None);
                        },
                    }
                }
            },
            None => {
                if bs.len() >= 10 {
                    // every byte of `bs` carries the continuation flag, so a
                    // terminator in the extension lies at or after index 10
                    match first_term(all, 0) {
                        Some(j2) => {
                            if j2 < bs.len() {
                                assert(all[j2 as int] == bs[j2 as int]);
                                assert(has_cont(bs[j2 as int]));
                                assert(false);
                            }
                            assert(j2 >= 10);
                        },
                        None => {},
                    }
                }
            },
        }
    }
}

/// Law: no frame that the length-prefixed framing ever emits is longer than
/// the configured bound.
pub proof fn lemma_pb_frames_bounded(st: Option<nat>, bs: Seq<u8>, max: nat)
    ensures
        forall|i: int|
            0 <= i < pb_run(st, bs, max).0.len() ==> #[trigger] pb_run(st, bs, max).0[i].len()
                <= max,
    decreases bs.len(), pb_state_rank(st),
{
    match pb_step(st, bs, max) {
        PbStep::Varint(v, n) => {
            if 1 <= n <= bs.len() {
                lemma_pb_frames_bounded(Some(v), bs.skip(n as int), max);
                let res = pb_run(st, bs, max).0;
                let rec = pb_run(Some(v), bs.skip(n as int), max).0;
                assert(res == rec);
                assert forall|i: int| 0 <= i < res.len() implies #[trigger] res[i].len()
                    <= max by {
                    assert(res[i] == rec[i]);
                    assert(rec[i].len() <= max);
                }
            }
        },
        PbStep::Frame(l) => {
            if l <= bs.len() {
                lemma_pb_frames_bounded(None, bs.skip(l as int), max);
                assert(l <= max);
                let res = pb_run(st, bs, max).0;
                let rec = pb_run(None, bs.skip(l as int), max).0;
                assert(res == seq![bs.take(l as int)] + rec);
                assert forall|i: int| 0 <= i < res.len() implies #[trigger] res[i].len()
                    <= max by {
                    if i == 0 {
                        assert(res[0] == bs.take(l as int));
                    } else {
                        assert(res[i] == rec[i - 1]);
                        assert(rec[i - 1].len() <= max);
                    }
                }
            }
        },
        _ => {},
    }
}

/// Law: what a length-prefixed stream yields depends only on the
/// concatenation of the delivered chunks, never on where the chunk
/// boundaries fall.
pub proof fn lemma_pb_chunking_irrelevant(a: Seq<Vec<u8>>, b: Seq<Vec<u8>>, max: nat)
    requires
        chunks_bytes(a) == chunks_bytes(b),
    ensures
        pb_run(None, chunks_bytes(a), max) == pb_run(None, chunks_bytes(b), max),
{
}

/// Law: a message encoded as a complete, in-range varint length header
/// followed by exactly that many payload bytes — the empty payload included
/// — always decodes back to that payload, whatever the stream carries after
/// it.
pub proof fn lemma_pb_frame_round_trip(header: Seq<u8>, payload: Seq<u8>, rest: Seq<u8>, max: nat)
    requires
        is_varint_prefix(header, header.len()),
        varint_fits(header, header.len()),
        varint_val(header, header.len()) == payload.len(),
        payload.len() <= max,
    ensures
        pb_run(None, header + payload + rest, max) == (
            seq![payload] + pb_run(None, rest, max).0,
            pb_run(None, rest, max).1,
        ),
{
    let bytes = header + payload + rest;
    let n = header.len();
    let v = payload.len();
    assert(header + (payload + rest) =~= bytes);
    crate::varint::lemma_varint_round_trip(header, payload + rest);
    assert(varint_parse(bytes) == Some((v as nat, n as nat)));
    lemma_first_term_of_prefix(header, n, 0);
    lemma_first_term_extend(header, payload + rest, 0, (n - 1) as nat);
    assert(first_term(bytes, 0) == Some((n - 1) as nat));
    assert(pb_step(None, bytes, max) == PbStep::Varint(v as nat, n as nat));
    assert(bytes.skip(n as int) =~= payload + rest);
    assert(pb_run(None, bytes, max) == pb_run(Some(v as nat), payload + rest, max));
    let tail = payload + rest;
    assert(tail.len() >= v);
    assert(pb_step(Some(v as nat), tail, max) == PbStep::Frame(v as nat));
    assert(tail.take(v as int) =~= payload);
    assert(tail.skip(v as int) =~= rest);
    assert(pb_run(Some(v as nat), tail, max) == (
        seq![payload] + pb_run(None, rest, max).0,
        pb_run(None, rest, max).1,
    ));
}

/// Incremental decoder for the Protobuf length-prefixed framing: it consumes
/// a growing byte buffer and emits each message's payload bytes as one
/// frame.
#[derive(Clone, Debug)]
pub struct ProtobufLenPrefixCodec {
    max_length: usize,
    current_obj_len: Option<u64>,
}

impl ProtobufLenPrefixCodec {
    /// The configured bound on one message's payload length.
    pub closed spec fn max_len(&self) -> nat {
        self.max_length as nat
    }

    /// The payload length the decoder currently expects, or nothing while it
    /// awaits a length header.
    pub closed spec fn expected(&self) -> Option<nat> {
        match self.current_obj_len {
            Some(v) => Some(v as nat),
            None => None,
        }
    }

    /// Creates a decoder that rejects any message longer than `max_length`
    /// bytes.
    pub fn new_with_max_length(max_length: usize) -> (c: Self)
        ensures
            c.max_len() == max_length as nat,
            c.expected() is None,
    {
        ProtobufLenPrefixCodec { max_length, current_obj_len: None }
    }

    /// Attempts to extract one frame from the buffer.
    ///
    /// Returns `Ok(None)` when more input is needed — after consuming a
    /// complete length header, if one was available. Returns one complete
    /// payload, the empty payload included, as soon as the buffer holds it
    /// all. Fails with a max-length error when the declared length exceeds
    /// the bound, and with a codec error on a malformed or overflowing
    /// varint header.
    pub fn decode(&mut self, buf: &mut bytes::BytesMut) -> (r: Result<
        Option<Vec<u8>>,
        StreamBodyError,
    >)
        ensures
            final(self).max_len() == old(self).max_len(),
            ({
                let bs = buf_bytes(*old(buf));
                let bs2 = buf_bytes(*final(buf));
                let st = old(self).expected();
                let st2 = final(self).expected();
                match pb_step(st, bs, old(self).max_len()) {
                    PbStep::Wait => r matches Ok(None) && bs2 == bs && st2 == st,
                    PbStep::Varint(v, n) => r matches Ok(None) && bs2 == bs.skip(n as int) && st2
                        == Some(v),
                    PbStep::Frame(l) => (r matches Ok(Some(f)) && f@ == bs.take(l as int)) && bs2
                        == bs.skip(l as int) && st2 is None,
                    PbStep::Fail(k) => (r matches Err(e) && e.spec_kind() == k) && bs2 == bs && st2
                        == st,
                }
            }),
    {
        let ghost bs = buf_bytes(*buf);
        let buf_length = buf_len(buf);
        match self.current_obj_len {
            Some(expected_len) => {
                if expected_len > self.max_length as u64 {
                    Err(StreamBodyError::new(
                        StreamBodyKind::MaxLenReachedError,
                        None,
                        Some("Max object length reached".to_string()),
                    ))
                } else if buf_length as u64 >= expected_len {
                    let l = expected_len as usize;
                    let frame = buf_copy_range(buf, 0, l);
                    buf_advance(buf, l);
                    self.current_obj_len = None;
                    proof {
                        assert(frame@ =~= bs.take(l as int));
                    }
                    Ok(Some(frame))
                } else {
                    Ok(None)
                }
            },
            None => {
                if buf_length == 0 {
                    return Ok(None);
                }
                // scan the varint width for a terminating byte
                let limit: usize = if buf_length < 10 {
                    buf_length
                } else {
                    10
                };
                let mut j: usize = 0;
                let mut found: bool = false;
                while j < limit && !found
                    invariant
                        buf_bytes(*buf) == bs,
                        limit <= bs.len(),
                        limit == if bs.len() < 10 { bs.len() as int } else { 10int },
                        j <= limit,
                        forall|i: int| 0 <= i < j ==> has_cont(#[trigger] bs[i]),
                        found ==> j < limit && !has_cont(bs[j as int]),
                    decreases limit - j + if found { 0int } else { 1int },
                {
                    if buf_byte(buf, j) < 0x80 {
                        found = true;
                    } else {
                        j = j + 1;
                    }
                }
                if !found {
                    if buf_length >= 10 {
                        proof {
                            lemma_first_term_spec(bs, 0);
                            match first_term(bs, 0) {
                                Some(t) => {
                                    assert(t >= 10);
                                },
                                None => {},
                            }
                        }
                        return Err(StreamBodyError::new(
                            StreamBodyKind::CodecError,
                            None,
                            Some("invalid varint".to_string()),
                        ));
                    }
                    proof {
                        lemma_first_term_spec(bs, 0);
                        match first_term(bs, 0) {
                            Some(t) => {
                                assert(t >= limit);
                                assert(false);
                            },
                            None => {},
                        }
                    }
                    return Ok(None);
                }
                // a complete varint ends at index j <= 9
                let prefix = buf_copy_range(buf, 0, j + 1);
                proof {
                    assert(is_varint_prefix(bs, (j + 1) as nat));
                    lemma_first_term_of_prefix(bs, (j + 1) as nat, 0);
                    assert(prefix@ =~= bs.subrange(0, j + 1));
                    assert(is_varint_prefix(prefix@, (j + 1) as nat));
                    lemma_first_term_of_prefix(prefix@, (j + 1) as nat, 0);
                    lemma_varint_val_depends_on_prefix(prefix@, bs, (j + 1) as nat);
                }
                match decode_varint_slice(&prefix) {
                    Ok((v, n)) => {
                        proof {
                            assert(n == j + 1);
                            assert(varint_parse(bs) == Some(((v as nat), (n as nat))));
                        }
                        buf_advance(buf, n);
                        self.current_obj_len = Some(v);
                        Ok(None)
                    },
                    Err(e) => {
                        proof {
                            assert(j == 9 && prefix@[9] >= 2);
                            assert(bs[9] == prefix@[9]);
                            assert(varint_parse(bs) is None);
                        }
                        Err(e)
                    },
                }
            },
        }
    }

    /// One final decode attempt against whatever bytes remain at the end of
    /// the input: identical to `decode`.
    pub fn decode_eof(&mut self, buf: &mut bytes::BytesMut) -> (r: Result<
        Option<Vec<u8>>,
        StreamBodyError,
    >)
        ensures
            final(self).max_len() == old(self).max_len(),
            ({
                let bs = buf_bytes(*old(buf));
                let bs2 = buf_bytes(*final(buf));
                let st = old(self).expected();
                let st2 = final(self).expected();
                match pb_step(st, bs, old(self).max_len()) {
                    PbStep::Wait => r matches Ok(None) && bs2 == bs && st2 == st,
                    PbStep::Varint(v, n) => r matches Ok(None) && bs2 == bs.skip(n as int) && st2
                        == Some(v),
                    PbStep::Frame(l) => (r matches Ok(Some(f)) && f@ == bs.take(l as int)) && bs2
                        == bs.skip(l as int) && st2 is None,
                    PbStep::Fail(k) => (r matches Err(e) && e.spec_kind() == k) && bs2 == bs && st2
                        == st,
                }
            }),
    {
        self.decode(buf)
    }
}

/// Feeds the chunks to a fresh length-prefixed decoder in order, draining
/// every extractable frame after each chunk and once more at end of input.
///
/// The result is a function of the concatenated bytes alone: however the
/// input is cut into chunks, the same frames come out in the same order,
/// followed by the same error, if any.
pub fn protobuf_decode_chunks(chunks: &Vec<Vec<u8>>, max_length: usize) -> ((out, err): (
    Vec<Vec<u8>>,
    Option<StreamBodyError>,
))
    ensures
        ({
            let outcome = pb_run(None, chunks_bytes(chunks@), max_length as nat);
            &&& frames_views(out@) == outcome.0
            &&& match err {
                Some(e) => outcome.1 matches Some(k) && e.spec_kind() == k,
                None => outcome.1 is None,
            }
        }),
{
    let ghost max = max_length as nat;
    let ghost all = chunks_bytes(chunks@);
    let mut codec = ProtobufLenPrefixCodec::new_with_max_length(max_length);
    let mut buf = buf_new();
    let mut frames: Vec<Vec<u8>> = Vec::new();
    let mut k: usize = 0;
    proof {
        lemma_chunks_bytes_all(chunks@);
        assert(buf_bytes(buf) + chunks_bytes(chunks@.skip(0)) =~= all);
    }
    while k < chunks.len()
        invariant
            k <= chunks.len(),
            all == chunks_bytes(chunks@),
            max == max_length as nat,
            codec.max_len() == max,
            ({
                let rest = pb_run(
                    codec.expected(),
                    buf_bytes(buf) + chunks_bytes(chunks@.skip(k as int)),
                    max,
                );
                pb_run(None, all, max) == (frames_views(frames@) + rest.0, rest.1)
            }),
        decreases chunks.len() - k,
    {
        proof {
            lemma_chunks_bytes_step(chunks@, k as int);
            assert((buf_bytes(buf) + chunks@[k as int]@) + chunks_bytes(chunks@.skip(k as int + 1))
                =~= buf_bytes(buf) + chunks_bytes(chunks@.skip(k as int)));
        }
        buf_extend_from_slice(&mut buf, &chunks[k]);
        k = k + 1;
        let ghost rest_bytes = chunks_bytes(chunks@.skip(k as int));
        loop
            invariant
                all == chunks_bytes(chunks@),
                max == max_length as nat,
                codec.max_len() == max,
                ({
                    let rest = pb_run(codec.expected(), buf_bytes(buf) + rest_bytes, max);
                    pb_run(None, all, max) == (frames_views(frames@) + rest.0, rest.1)
                }),
            decreases buf_bytes(buf).len(), pb_state_rank(codec.expected()),
        {
            let before = buf_len(&buf);
            let ghost bs = buf_bytes(buf);
            let ghost st = codec.expected();
            proof {
                lemma_pb_step_extend(st, bs, rest_bytes, max);
                lemma_pb_step_bounds(st, bs, max);
            }
            match codec.decode(&mut buf) {
                Ok(Some(f)) => {
                    proof {
                        let l = pb_step(st, bs, max)->Frame_0;
                        lemma_pb_step_bounds(st, bs + rest_bytes, max);
                        assert((bs + rest_bytes).take(l as int) =~= bs.take(l as int));
                        assert((bs + rest_bytes).skip(l as int) =~= bs.skip(l as int) + rest_bytes);
                        lemma_frames_views_push(frames@, f);
                        assert(frames_views(frames@) + (seq![bs.take(l as int)] + pb_run(
                            None,
                            bs.skip(l as int) + rest_bytes,
                            max,
                        ).0) =~= frames_views(frames@).push(f@) + pb_run(
                            None,
                            bs.skip(l as int) + rest_bytes,
                            max,
                        ).0);
                    }
                    frames.push(f);
                },
                Ok(None) => {
                    let after = buf_len(&buf);
                    if after == before {
                        proof {
                            match pb_step(st, bs, max) {
                                PbStep::Wait => {},
                                PbStep::Varint(v, n) => {
                                    assert(buf_bytes(buf).len() < bs.len());
                                    assert(false);
                                },
                                _ => {
                                    assert(false);
                                },
                            }
                        }
                        break;
                    }
                    proof {
                        let n = pb_step(st, bs, max)->Varint_1;
                        assert((bs + rest_bytes).skip(n as int) =~= bs.skip(n as int) + rest_bytes);
                    }
                },
                Err(e) => {
                    proof {
                        let k0 = pb_step(st, bs, max)->Fail_0;
                        assert(pb_step(st, bs, max) == PbStep::Fail(k0));
                        assert(e.spec_kind() == k0);
                        assert(pb_step(st, bs + rest_bytes, max) == PbStep::Fail(k0));
                        assert(pb_run(st, bs + rest_bytes, max) == (
                            Seq::<Seq<u8>>::empty(),
                            Some(k0),
                        ));
                        assert(frames_views(frames@) + Seq::<Seq<u8>>::empty()
                            =~= frames_views(frames@));
                        assert(pb_run(None, all, max).1 == Some(k0));
                        assert(pb_run(None, all, max).0 == frames_views(frames@));
                    }
                    return (frames, Some(e));
                },
            }
        }
    }
    // end of input: keep draining until an attempt makes no progress and
    // emits nothing, then nothing more can come
    proof {
        lemma_chunks_bytes_empty(chunks@);
        assert(chunks_bytes(chunks@.skip(chunks@.len() as int)) =~= Seq::<u8>::empty());
        assert(buf_bytes(buf) + chunks_bytes(chunks@.skip(chunks@.len() as int)) =~= buf_bytes(
            buf,
        ));
    }
    loop
        invariant
            codec.max_len() == max,
            max == max_length as nat,
            all == chunks_bytes(chunks@),
            ({
                let rest = pb_run(codec.expected(), buf_bytes(buf), max);
                pb_run(None, all, max) == (frames_views(frames@) + rest.0, rest.1)
            }),
        ensures
            codec.max_len() == max,
            pb_step(codec.expected(), buf_bytes(buf), max) == PbStep::Wait,
            ({
                let rest = pb_run(codec.expected(), buf_bytes(buf), max);
                pb_run(None, all, max) == (frames_views(frames@) + rest.0, rest.1)
            }),
        decreases buf_bytes(buf).len(), pb_state_rank(codec.expected()),
    {
        let before = buf_len(&buf);
        let ghost bs = buf_bytes(buf);
        let ghost st = codec.expected();
        proof {
            lemma_pb_step_bounds(st, bs, max);
        }
        match codec.decode_eof(&mut buf) {
            Ok(Some(f)) => {
                proof {
                    let l = pb_step(st, bs, max)->Frame_0;
                    assert(pb_run(st, bs, max) == (
                        seq![bs.take(l as int)] + pb_run(None, bs.skip(l as int), max).0,
                        pb_run(None, bs.skip(l as int), max).1,
                    ));
                    lemma_frames_views_push(frames@, f);
                    assert(frames_views(frames@) + (seq![bs.take(l as int)] + pb_run(
                        None,
                        bs.skip(l as int),
                        max,
                    ).0) =~= frames_views(frames@).push(f@) + pb_run(
                        None,
                        bs.skip(l as int),
                        max,
                    ).0);
                }
                frames.push(f);
            },
            Ok(None) => {
                let after = buf_len(&buf);
                if after == before {
                    proof {
                        match pb_step(st, bs, max) {
                            PbStep::Wait => {},
                            PbStep::Varint(v, n) => {
                                assert(buf_bytes(buf).len() < bs.len());
                                assert(false);
                            },
                            _ => {
                                assert(false);
                            },
                        }
                    }
                    break;
                }
            },
            Err(e) => {
                proof {
                    let k0 = pb_step(st, bs, max)->Fail_0;
                    assert(pb_step(st, bs, max) == PbStep::Fail(k0));
                    assert(e.spec_kind() == k0);
                    assert(pb_run(st, bs, max) == (Seq::<Seq<u8>>::empty(), Some(k0)));
                    assert(frames_views(frames@) + Seq::<Seq<u8>>::empty()
                        =~= frames_views(frames@));
                    assert(pb_run(None, all, max).1 == Some(k0));
                    assert(pb_run(None, all, max).0 == frames_views(frames@));
                }
                return (frames, Some(e));
            },
        }
    }
    proof {
        assert(pb_run(codec.expected(), buf_bytes(buf), max) == (
            Seq::<Seq<u8>>::empty(),
            None::<StreamBodyKind>,
        ));
        assert(frames_views(frames@) + Seq::<Seq<u8>>::empty() =~= frames_views(frames@));
    }
    (frames, None)
}

} // verus!
