//! LEB128 variable-length integers, the length prefix of the Protobuf
//! framing.
//!
//! A varint stores a value in little-endian groups of seven bits, one group
//! per byte; the high bit of each byte is a continuation flag. An encoding of
//! a 64-bit value is at most ten bytes long, and in a ten-byte encoding the
//! final byte contributes only its two low bits.

use vstd::prelude::*;

use crate::error::{StreamBodyError, StreamBodyKind};

verus! {

/// Whether the byte carries the continuation flag (more groups follow).
pub open spec fn has_cont(b: u8) -> bool {
    b >= 0x80
}

/// The seven payload bits of one varint byte.
pub open spec fn group_val(b: u8) -> nat {
    (b % 0x80) as nat
}

/// 128 raised to the power `k`: the weight of the `k`-th varint group.
pub open spec fn pow128(k: nat) -> nat
    decreases k,
{
    if k == 0 {
        1
    } else {
        128 * pow128((k - 1) as nat)
    }
}

/// The value carried by the first `n` bytes of `s`, read as varint groups.
pub open spec fn varint_val(s: Seq<u8>, n: nat) -> nat
    decreases n,
{
    if n == 0 {
        0
    } else {
        varint_val(s, (n - 1) as nat) + group_val(s[n - 1]) * pow128((n - 1) as nat)
    }
}

/// The first `n` bytes of `s` form one complete varint: every byte but the
/// last carries the continuation flag, and the last does not.
pub open spec fn is_varint_prefix(s: Seq<u8>, n: nat) -> bool {
    &&& 1 <= n <= s.len()
    &&& !has_cont(s[n - 1])
    &&& forall|k: int| 0 <= k < n - 1 ==> has_cont(#[trigger] s[k])
}

/// The complete varint of length `n` denotes a value that fits in 64 bits,
/// as the decoder accepts it.
pub open spec fn varint_fits(s: Seq<u8>, n: nat) -> bool {
    n <= 10 && (n == 10 ==> s[9] < 2)
}

/// The position of the first byte at or after `i` without the continuation
/// flag, if any.
pub open spec fn first_term(s: Seq<u8>, i: nat) -> Option<nat>
    decreases s.len() - i when i <= s.len()
{
    if i >= s.len() {
        None
    } else if !has_cont(s[i as int]) {
        Some(i)
    } else {
        first_term(s, i + 1)
    }
}

/// The value and byte length of the varint at the head of `s`: `None` when
/// the first ten bytes hold no complete varint, or when the complete varint
/// found would overflow 64 bits.
pub open spec fn varint_parse(s: Seq<u8>) -> Option<(nat, nat)> {
    match first_term(s, 0) {
        Some(j) => if j <= 8 {
            Some((varint_val(s, j + 1), j + 1))
        } else if j == 9 && s[9] < 2 {
            Some((varint_val(s, 10), 10))
        } else {
            None
        },
        None => None,
    }
}

/// `varint_val` reads only the first `n` bytes.
pub proof fn lemma_varint_val_depends_on_prefix(s: Seq<u8>, t: Seq<u8>, n: nat)
    requires
        n <= s.len(),
        n <= t.len(),
        forall|k: int| 0 <= k < n ==> s[k] == t[k],
    ensures
        varint_val(s, n) == varint_val(t, n),
    decreases n,
{
    if n > 0 {
        lemma_varint_val_depends_on_prefix(s, t, (n - 1) as nat);
    }
}

/// The value of `n` varint groups is below the weight of the next group.
pub proof fn lemma_varint_val_bound(s: Seq<u8>, n: nat)
    requires
        n <= s.len(),
    ensures
        varint_val(s, n) < pow128(n),
    decreases n,
{
    if n == 0 {
    } else {
        let m = (n - 1) as nat;
        lemma_varint_val_bound(s, m);
        assert(group_val(s[n - 1]) <= 127);
        assert(group_val(s[n - 1]) * pow128(m) <= 127 * pow128(m))
            by (nonlinear_arith)
            requires group_val(s[n - 1]) <= 127, pow128(m) >= 0,
        ;
        assert(varint_val(s, n) <= varint_val(s, m) + 127 * pow128(m));
        assert(pow128(n) == 128 * pow128(m));
    }
}

/// The two powers of 128 that bound a ten-byte varint.
pub proof fn lemma_pow128_values()
    ensures
        pow128(8) == 0x100000000000000,
        pow128(9) == 0x8000000000000000,
{
    assert(pow128(0) == 1);
    assert(pow128(1) == 128);
    assert(pow128(2) == 0x4000);
    assert(pow128(3) == 0x200000);
    assert(pow128(4) == 0x10000000);
    assert(pow128(5) == 0x800000000);
    assert(pow128(6) == 0x40000000000);
    assert(pow128(7) == 0x2000000000000);
    assert(pow128(8) == 0x100000000000000);
    assert(pow128(9) == 0x8000000000000000);
}

/// `pow128` does not decrease with its argument.
pub proof fn lemma_pow128_mono(a: nat, b: nat)
    requires
        a <= b,
    ensures
        pow128(a) <= pow128(b),
    decreases b,
{
    if a < b {
        lemma_pow128_mono(a, (b - 1) as nat);
        assert(pow128(b) == 128 * pow128((b - 1) as nat));
        assert(pow128((b - 1) as nat) <= 128 * pow128((b - 1) as nat)) by (nonlinear_arith)
            requires pow128((b - 1) as nat) >= 0,
        ;
    }
}

/// A byte string has at most one complete varint at its head.
pub proof fn lemma_varint_prefix_unique(s: Seq<u8>, n1: nat, n2: nat)
    requires
        is_varint_prefix(s, n1),
        is_varint_prefix(s, n2),
    ensures
        n1 == n2,
{
    if n1 < n2 {
        assert(has_cont(s[n1 - 1]));
    } else if n2 < n1 {
        assert(has_cont(s[n2 - 1]));
    }
}

/// What `first_term` reports: the first unterminated position, every byte
/// before it carrying the continuation flag.
pub proof fn lemma_first_term_spec(s: Seq<u8>, i: nat)
    requires
        i <= s.len(),
    ensures
        match first_term(s, i) {
            Some(j) => {
                &&& i <= j < s.len()
                &&& !has_cont(s[j as int])
                &&& forall|k: int| i <= k < j ==> has_cont(#[trigger] s[k])
            },
            None => forall|k: int| i <= k < s.len() ==> has_cont(#[trigger] s[k]),
        },
    decreases s.len() - i,
{
    if i < s.len() && has_cont(s[i as int]) {
        lemma_first_term_spec(s, i + 1);
    }
}

/// Appending bytes after a terminated varint changes neither the position of
/// its terminator nor anything `first_term` reports before it.
pub proof fn lemma_first_term_extend(s: Seq<u8>, t: Seq<u8>, i: nat, j: nat)
    requires
        i <= s.len(),
        first_term(s, i) == Some(j),
    ensures
        first_term(s + t, i) == Some(j),
    decreases s.len() - i,
{
    if i < s.len() {
        assert((s + t)[i as int] == s[i as int]);
        if has_cont(s[i as int]) {
            lemma_first_term_extend(s, t, i + 1, j);
        }
    }
}

/// A complete varint at the head of `s` parses the same after any further
/// bytes are appended.
pub proof fn lemma_varint_parse_extend(s: Seq<u8>, t: Seq<u8>)
    requires
        varint_parse(s) is Some,
    ensures
        varint_parse(s + t) == varint_parse(s),
{
    let j = first_term(s, 0)->Some_0;
    lemma_first_term_spec(s, 0);
    lemma_first_term_extend(s, t, 0, j);
    lemma_varint_val_depends_on_prefix(s, s + t, j + 1);
}

/// `first_term` finds the terminator of a complete varint prefix.
pub proof fn lemma_first_term_of_prefix(s: Seq<u8>, n: nat, i: nat)
    requires
        is_varint_prefix(s, n),
        i < n,
    ensures
        first_term(s, i) == Some((n - 1) as nat),
    decreases n - i,
{
    if i < n - 1 {
        assert(has_cont(s[i as int]));
        lemma_first_term_of_prefix(s, n, i + 1);
    }
}

/// Law: a complete, in-range varint encoding, followed by any trailing bytes,
/// always parses back to exactly its own value and its own length.
pub proof fn lemma_varint_round_trip(enc: Seq<u8>, rest: Seq<u8>)
    requires
        is_varint_prefix(enc, enc.len()),
        varint_fits(enc, enc.len()),
    ensures
        varint_parse(enc + rest) == Some((varint_val(enc, enc.len()), enc.len())),
{
    lemma_first_term_of_prefix(enc, enc.len(), 0);
    assert(varint_parse(enc) == Some((varint_val(enc, enc.len()), enc.len())));
    lemma_varint_parse_extend(enc, rest);
}

/// Decodes a LEB128-encoded variable-length integer from the head of the
/// slice, returning the value and the number of bytes read.
///
/// The caller must ensure that the slice is non-empty and that either it is
/// longer than ten bytes or its last byte lacks the continuation flag, so
/// that a complete varint, if one is present, lies entirely within it.
pub fn decode_varint_slice(bytes: &Vec<u8>) -> (r: Result<(u64, usize), StreamBodyError>)
    requires
        bytes@.len() >= 1,
        bytes@.len() > 10 || !has_cont(bytes@[bytes@.len() - 1]),
    ensures
        match r {
            Ok(p) => {
                &&& varint_parse(bytes@) == Some(((p.0 as nat), (p.1 as nat)))
                &&& is_varint_prefix(bytes@, p.1 as nat)
                &&& varint_fits(bytes@, p.1 as nat)
                &&& p.0 as nat == varint_val(bytes@, p.1 as nat)
            },
            Err(e) => {
                &&& varint_parse(bytes@) is None
                &&& e.spec_kind() == StreamBodyKind::CodecError
            },
        },
{
    let s = Ghost(bytes@);
    let mut value: u64 = 0;
    let mut p: u64 = 1;
    let mut k: usize = 0;
    loop
        invariant
            bytes@ == s@,
            s@.len() >= 1,
            s@.len() > 10 || !has_cont(s@[s@.len() - 1]),
            k <= 9,
            k < s@.len(),
            p as nat == pow128(k as nat),
            value as nat == varint_val(s@, k as nat),
            forall|j: int| 0 <= j < k ==> has_cont(#[trigger] s@[j]),
            first_term(s@, 0) == first_term(s@, k as nat),
        decreases 10 - k,
    {
        proof {
            lemma_varint_val_bound(s@, k as nat);
            lemma_pow128_values();
        }
        let b = bytes[k];
        if k == 9 {
            if b < 2 {
                proof {
                    assert(value < p);
                    assert((b as nat) * pow128(9) <= 1 * pow128(9)) by (nonlinear_arith)
                        requires
                            b as nat <= 1,
                            pow128(9) >= 0,
                    ;
                    assert(group_val(b) == b as nat);
                }
                let out = value + b as u64 * p;
                proof {
                    assert(out as nat == varint_val(s@, 10));
                    assert(is_varint_prefix(s@, 10));
                    lemma_first_term_of_prefix(s@, 10, 0);
                }
                return Ok((out, 10));
            } else {
                proof {
                    lemma_first_term_spec(s@, 10);
                    if has_cont(b) {
                        assert(first_term(s@, 9nat) == first_term(s@, 10nat));
                        if first_term(s@, 0) is Some {
                            assert(first_term(s@, 0)->Some_0 >= 10);
                        }
                    } else {
                        assert(first_term(s@, 9nat) == Some(9nat));
                    }
                    assert(varint_parse(s@) is None);
                }
                return Err(StreamBodyError::new(
                    StreamBodyKind::CodecError,
                    None,
                    Some("invalid varint".to_string()),
                ));
            }
        }
        proof {
            lemma_pow128_mono(k as nat, 8);
            assert((value as nat) < pow128(8));
            assert(group_val(b) * pow128(k as nat) <= 127 * pow128(8))
                by (nonlinear_arith)
                requires
                    group_val(b) <= 127,
                    0 <= pow128(k as nat) <= pow128(8),
            ;
            assert(group_val(b) == (b % 0x80) as nat);
        }
        value = value + (b % 0x80) as u64 * p;
        proof {
            assert(value as nat == varint_val(s@, (k + 1) as nat));
        }
        if b < 0x80 {
            proof {
                assert(!has_cont(b));
                assert(is_varint_prefix(s@, (k + 1) as nat));
                lemma_first_term_of_prefix(s@, (k + 1) as nat, 0);
            }
            return Ok((value, k + 1));
        }
        proof {
            assert(has_cont(b));
            assert(first_term(s@, k as nat) == first_term(s@, (k + 1) as nat));
            // A continuation byte here cannot be the slice's last byte unless
            // the slice is longer than ten bytes.
            if s@.len() <= 10 {
                assert(k < s@.len() - 1);
            }
        }
        p = p * 128;
        k = k + 1;
    }
}

/// Encodes a value as a LEB128 varint: its little-endian seven-bit groups,
/// each byte but the last carrying the continuation flag. The encoding is
/// minimal: a final zero byte appears only for the value zero itself.
pub fn encode_varint(value: u64) -> (r: Vec<u8>)
    ensures
        is_varint_prefix(r@, r@.len() as nat),
        varint_fits(r@, r@.len() as nat),
        varint_val(r@, r@.len() as nat) == value as nat,
        1 <= r@.len() <= 10,
        r@.len() > 1 ==> r@[r@.len() - 1] != 0,
{
    let mut out: Vec<u8> = Vec::new();
    let mut x = value;
    proof {
        assert(pow128(0) == 1);
        assert(varint_val(out@, 0) == 0);
        assert((x as nat) * 1 == x as nat);
    }
    loop
        invariant
            out@.len() <= 9,
            value as nat == varint_val(out@, out@.len() as nat) + (x as nat) * pow128(
                out@.len() as nat,
            ),
            (x as nat) * pow128(out@.len() as nat) <= u64::MAX as nat,
            forall|j: int| 0 <= j < out@.len() ==> has_cont(#[trigger] out@[j]),
            out@.len() == 9 ==> x < 2,
            out@.len() > 0 ==> x >= 1,
        decreases x,
    {
        let n = Ghost(out@.len() as nat);
        if x < 0x80 {
            let b = x as u8;
            proof {
                assert(!has_cont(b));
                assert(group_val(b) == x as nat);
                lemma_varint_val_depends_on_prefix(out@, out@.push(b), n@);
            }
            out.push(b);
            proof {
                assert(varint_val(out@, (n@ + 1) as nat) == varint_val(out@, n@) + group_val(b)
                    * pow128(n@));
            }
            return out;
        }
        let b = (x % 0x80 + 0x80) as u8;
        proof {
            assert(has_cont(b));
            assert(group_val(b) == (x % 0x80) as nat);
            lemma_varint_val_depends_on_prefix(out@, out@.push(b), n@);
            assert(x as nat == (x % 0x80) as nat + 128 * ((x / 0x80) as nat));
            assert((x as nat) * pow128(n@) == ((x % 0x80) as nat) * pow128(n@) + ((x / 0x80) as nat)
                * (128 * pow128(n@))) by (nonlinear_arith)
                requires x as nat == (x % 0x80) as nat + 128 * ((x / 0x80) as nat),
            ;
            assert(pow128(n@ + 1) == 128 * pow128(n@));
            assert(((x / 0x80) as nat) * pow128(n@ + 1) <= (x as nat) * pow128(n@))
                by (nonlinear_arith)
                requires
                    pow128(n@ + 1) == 128 * pow128(n@),
                    x as nat >= 128 * ((x / 0x80) as nat),
                    pow128(n@) >= 0,
            ;
            if n@ + 1 == 9 {
                lemma_pow128_values();
                assert((x / 0x80) as nat * pow128(9) <= u64::MAX as nat ==> ((x / 0x80) as nat) < 2)
                    by (nonlinear_arith)
                    requires pow128(9) == 0x8000000000000000,
                ;
            }
            if n@ == 9 {
                assert(x < 2);
                assert(false);
            }
        }
        out.push(b);
        x = x / 0x80;
    }
}

} // verus!
