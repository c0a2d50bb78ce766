//! Helpers for reasoning about a byte stream delivered as a sequence of
//! chunks cut at arbitrary positions.

use vstd::prelude::*;

verus! {

/// The whole byte string carried by a sequence of chunks, in delivery order.
pub open spec fn chunks_bytes(chunks: Seq<Vec<u8>>) -> Seq<u8> {
    chunks.map_values(|c: Vec<u8>| c@).flatten()
}

/// The byte strings carried by a sequence of frames, in order.
pub open spec fn frames_views(frames: Seq<Vec<u8>>) -> Seq<Seq<u8>> {
    frames.map_values(|f: Vec<u8>| f@)
}

/// Appending a frame appends its byte string.
pub proof fn lemma_frames_views_push(frames: Seq<Vec<u8>>, f: Vec<u8>)
    ensures
        frames_views(frames.push(f)) == frames_views(frames).push(f@),
{
    assert(frames_views(frames.push(f)) =~= frames_views(frames).push(f@));
}

/// Peeling one chunk off the front of the remaining chunk list peels exactly
/// its bytes off the front of the remaining byte string.
pub proof fn lemma_chunks_bytes_step(s: Seq<Vec<u8>>, k: int)
    requires
        0 <= k < s.len(),
    ensures
        chunks_bytes(s.skip(k)) == s[k]@ + chunks_bytes(s.skip(k + 1)),
{
    let m = s.skip(k).map_values(|c: Vec<u8>| c@);
    assert(m.len() > 0);
    assert(m[0] == s[k]@);
    assert(m.drop_first() =~= s.skip(k + 1).map_values(|c: Vec<u8>| c@));
    assert(m.flatten() == m.first() + m.drop_first().flatten());
}

/// No chunks left means no bytes left.
pub proof fn lemma_chunks_bytes_empty(s: Seq<Vec<u8>>)
    ensures
        chunks_bytes(s.skip(s.len() as int)) == Seq::<u8>::empty(),
{
    let m = s.skip(s.len() as int).map_values(|c: Vec<u8>| c@);
    assert(m.len() == 0);
    assert(m.flatten() == Seq::<u8>::empty());
}

/// The byte string of the whole chunk list is that of its full suffix.
pub proof fn lemma_chunks_bytes_all(s: Seq<Vec<u8>>)
    ensures
        chunks_bytes(s.skip(0)) == chunks_bytes(s),
{
    assert(s.skip(0) =~= s);
}

} // verus!
