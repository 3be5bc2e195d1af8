//! Variable-Length Quantity (VLQ) encoding used in the Ergo P2P protocol,
//! ZigZag mapping of signed integers, and short strings.
//!
//! - `write_vlq` encodes any `u64` into 1 to 10 bytes, 7 data bits per byte,
//!   least significant group first, high bit set on every byte but the last.
//! - `read_vlq` is its inverse; it fails on a value wider than 64 bits and on
//!   input that ends before the value does.
//! - `read_vlq_length` additionally rejects values above 256 KiB.
//! - `zigzag_encode` / `zigzag_decode` map signed integers to unsigned ones.

use vstd::prelude::*;
use vstd::utf8::{valid_utf8, decode_utf8, encode_utf8};
use crate::transport::cursor::{ByteCursor, DecodeError, spec_read_u8, spec_read_bytes, append_bytes, holds_at};

verus! {

/// The largest length a VLQ length prefix may carry (256 KiB).
pub const MAX_VLQ_LENGTH: u64 = 262144;

/// The VLQ encoding of `v`: base-128 digits, least significant first, with the
/// high bit set on every byte except the last.
pub open spec fn vlq_encode(v: u64) -> Seq<u8>
    decreases v,
{
    if v < 128 {
        seq![v as u8]
    } else {
        seq![(v % 128 + 128) as u8] + vlq_encode(v / 128)
    }
}

/// Decoding a VLQ value whose byte number `k` (counting from 0) stands at `s[k]`:
/// the 7-bit groups from byte `k` on, read little-endian, and the index just
/// past the last byte. The value must fit in 64 bits: byte 9 carries only the
/// top bit, so a byte 9 above 1 (a wider value, or one running past byte 9)
/// is an overflow.
pub open spec fn vlq_decode_from(s: Seq<u8>, k: nat) -> Result<(u64, nat), DecodeError>
    decreases 10 - k,
{
    if k >= s.len() {
        Err(DecodeError::UnexpectedEof)
    } else if k >= 9 && s[k as int] > 1 {
        Err(DecodeError::VlqOverflow)
    } else if s[k as int] < 128 {
        Ok((s[k as int] as u64, k + 1))
    } else {
        match vlq_decode_from(s, k + 1) {
            Ok((v, n)) => Ok((((s[k as int] & 0x7f) as u64) | (v << 7u64), n)),
            Err(e) => Err(e),
        }
    }
}

/// Decoding a VLQ value at the start of `s`: the value and its length in bytes.
pub open spec fn vlq_decode(s: Seq<u8>) -> Result<(u64, nat), DecodeError> {
    vlq_decode_from(s, 0)
}

/// Reading a VLQ value at position `p` of `s`: the value and the next position.
pub open spec fn spec_read_vlq(s: Seq<u8>, p: nat) -> Result<(u64, nat), DecodeError> {
    match vlq_decode(s.skip(p as int)) {
        Ok((v, n)) => Ok((v, p + n)),
        Err(e) => Err(e),
    }
}

/// Where a failed VLQ read at position `p` of `s` stops: past the ten bytes
/// read when the value overflows, else at the end of the input.
pub open spec fn spec_vlq_stop(s: Seq<u8>, p: nat) -> nat {
    if spec_read_vlq(s, p) == Err::<(u64, nat), DecodeError>(DecodeError::VlqOverflow) {
        p + 10
    } else {
        s.len()
    }
}

/// Reading a VLQ length at position `p` of `s`: as `spec_read_vlq`, but a value
/// above `MAX_VLQ_LENGTH` is refused.
pub open spec fn spec_read_vlq_length(s: Seq<u8>, p: nat) -> Result<(u64, nat), DecodeError> {
    match spec_read_vlq(s, p) {
        Ok((v, q)) => if v > MAX_VLQ_LENGTH {
            Err(DecodeError::LengthTooLarge(v))
        } else {
            Ok((v, q))
        },
        Err(e) => Err(e),
    }
}

/// The partial result `r` of the groups before byte `k`, combined with the decoding
/// from byte `k` on, where `sh` is the bit position of byte `k`'s group.
spec fn combine_from(r: u64, sh: u64, rest: Result<(u64, nat), DecodeError>) -> Result<(u64, nat), DecodeError> {
    match rest {
        Ok((v, n)) => Ok((r | (v << sh), n)),
        Err(e) => Err(e),
    }
}

proof fn lemma_or_shift_step(r: u64, l: u64, v: u64, sh: u64)
    requires
        sh <= 56,
    ensures
        r | ((l | (v << 7u64)) << sh) == (r | (l << sh)) | (v << ((sh + 7) as u64)),
{
    assert(r | ((l | (v << 7u64)) << sh) == (r | (l << sh)) | (v << ((sh + 7) as u64))) by (bit_vector)
        requires
            sh <= 56,
    ;
}

/// Encodes a u64 as VLQ bytes appended to `buf`.
pub fn write_vlq(buf: &mut Vec<u8>, value: u64)
    ensures
        final(buf)@ == old(buf)@ + vlq_encode(value),
{
    let mut value = value;
    let ghost orig = value;
    loop
        invariant_except_break
            buf@ + vlq_encode(value) == old(buf)@ + vlq_encode(orig),
        ensures
            buf@ == old(buf)@ + vlq_encode(orig),
        decreases value,
    {
        let byte = (value & 0x7f) as u8;
        let ghost before = buf@;
        let ghost v = value;
        assert(v >> 7u64 == v / 128) by (bit_vector);
        assert((v & 0x7f) as u8 == (v % 128) as u8) by (bit_vector);
        value = value >> 7;
        if value == 0 {
            assert(v < 128);
            buf.push(byte);
            assert(buf@ == before + vlq_encode(v));
            break;
        } else {
            assert(((v & 0x7f) as u8 | 0x80u8) == (v % 128 + 128) as u8) by (bit_vector)
                requires v >= 128;
            buf.push(byte | 0x80);
            assert(vlq_encode(v) == seq![(v % 128 + 128) as u8] + vlq_encode(value));
            assert(buf@ + vlq_encode(value) == before + vlq_encode(v));
        }
    }
}

/// Decodes the VLQ value at the cursor without moving it: the value and its
/// length in bytes.
pub fn peek_vlq(cursor: &ByteCursor) -> (r: Result<(u64, usize), DecodeError>)
    ensures
        match spec_read_vlq(cursor.bytes(), cursor.pos()) {
            Ok((v, q)) => r matches Ok((w, n)) && w == v && cursor.pos() + n == q,
            Err(e) => r == Err::<(u64, usize), DecodeError>(e),
        },
        r is Ok ==> cursor.pos() + r->Ok_0.1 <= cursor.bytes().len(),
{
    let ghost s = cursor.bytes().skip(cursor.pos() as int);
    let mut result: u64 = 0;
    let mut shift: u64 = 0;
    let mut k: usize = 0;
    assert forall|v: u64| v == 0u64 | (v << 0u64) by {
        assert(v == 0u64 | (v << 0u64)) by (bit_vector);
    }
    assert(vlq_decode(s) == combine_from(result, shift, vlq_decode_from(s, k as nat)));
    loop
        invariant
            s == cursor.bytes().skip(cursor.pos() as int),
            k <= 9,
            shift == 7 * k,
            vlq_decode(s) == combine_from(result, shift, vlq_decode_from(s, k as nat)),
        decreases 10 - k,
    {
        let b = match cursor.peek(k) {
            Some(b) => b,
            None => {
                return Err(DecodeError::UnexpectedEof);
            },
        };
        assert(b == s[k as int]);
        if k == 9 && b > 1 {
            return Err(DecodeError::VlqOverflow);
        }
        let l = (b & 0x7f) as u64;
        let ghost r0 = result;
        result = result | (l << shift);
        if b & 0x80 == 0 {
            assert(b & 0x80 == 0 ==> b < 128 && (b & 0x7f) as u64 == b as u64) by (bit_vector);
            return Ok((result, k + 1));
        }
        assert(b & 0x80 != 0 ==> b >= 128) by (bit_vector);
        if k == 9 {
            return Err(DecodeError::VlqOverflow);
        }
        proof {
            match vlq_decode_from(s, (k + 1) as nat) {
                Ok((v, n)) => {
                    lemma_or_shift_step(r0, l, v, shift);
                },
                Err(e) => {},
            }
        }
        shift = shift + 7;
        k = k + 1;
    }
}

/// Decodes a VLQ-encoded u64 at the cursor and moves the cursor past it. On
/// overflow the ten bytes read are consumed; on running out of input, the rest.
pub fn read_vlq(cursor: &mut ByteCursor) -> (r: Result<u64, DecodeError>)
    ensures
        final(cursor).bytes() == old(cursor).bytes(),
        match spec_read_vlq(old(cursor).bytes(), old(cursor).pos()) {
            Ok((v, q)) => r == Ok::<u64, DecodeError>(v) && final(cursor).pos() == q,
            Err(e) => r == Err::<u64, DecodeError>(e) && final(cursor).pos() == spec_vlq_stop(
                old(cursor).bytes(),
                old(cursor).pos(),
            ),
        },
{
    match peek_vlq(cursor) {
        Ok((v, n)) => {
            cursor.advance(n);
            Ok(v)
        },
        Err(DecodeError::VlqOverflow) => {
            let rest = cursor.remaining();
            proof {
                let t = cursor.bytes().skip(cursor.pos() as int);
                assert(spec_read_vlq(cursor.bytes(), cursor.pos()) == Err::<(u64, nat), DecodeError>(
                    DecodeError::VlqOverflow,
                ));
                assert(vlq_decode_from(t, 0) == Err::<(u64, nat), DecodeError>(DecodeError::VlqOverflow));
                lemma_overflow_has_ten_bytes(t, 0);
            }
            assert(rest >= 10);
            cursor.advance(10);
            Err(DecodeError::VlqOverflow)
        },
        Err(e) => {
            let rest = cursor.remaining();
            cursor.advance(rest);
            Err(e)
        },
    }
}

/// An overflow is only found at byte 9, so ten bytes are there.
proof fn lemma_overflow_has_ten_bytes(s: Seq<u8>, k: nat)
    requires
        k <= 9,
        vlq_decode_from(s, k) == Err::<(u64, nat), DecodeError>(DecodeError::VlqOverflow),
    ensures
        s.len() >= 10,
    decreases 10 - k,
{
    if !(k >= 9 && s[k as int] > 1) && k < s.len() && s[k as int] >= 128 {
        lemma_overflow_has_ten_bytes(s, k + 1);
    }
}

/// Reads a VLQ value that stands for a byte length, capped at 256 KiB. A value
/// above the cap is consumed and refused.
pub fn read_vlq_length(cursor: &mut ByteCursor) -> (r: Result<usize, DecodeError>)
    ensures
        final(cursor).bytes() == old(cursor).bytes(),
        match spec_read_vlq_length(old(cursor).bytes(), old(cursor).pos()) {
            Ok((v, q)) => r == Ok::<usize, DecodeError>(v as usize) && final(cursor).pos() == q,
            Err(e) => r == Err::<usize, DecodeError>(e) && final(cursor).pos() == spec_vlq_length_stop(
                old(cursor).bytes(),
                old(cursor).pos(),
            ),
        },
{
    let val = read_vlq(cursor)?;
    if val > MAX_VLQ_LENGTH {
        return Err(DecodeError::LengthTooLarge(val));
    }
    Ok(val as usize)
}

/// 128 to the power `m`.
spec fn pow128(m: nat) -> int
    decreases m,
{
    if m == 0 {
        1
    } else {
        128 * pow128((m - 1) as nat)
    }
}

proof fn lemma_vlq_len_bound(v: u64, m: nat)
    requires
        m >= 1,
        v < pow128(m),
    ensures
        vlq_encode(v).len() <= m,
    decreases m,
{
    if v >= 128 {
        let p = pow128((m - 1) as nat);
        assert(m >= 2) by {
            if m == 1 {
                assert(pow128(0) == 1);
            }
        }
        assert(v / 128 < p) by (nonlinear_arith)
            requires
                v < 128 * p,
        ;
        lemma_vlq_len_bound(v / 128, (m - 1) as nat);
    }
}

/// Every u64 encodes to between one and ten bytes.
pub proof fn lemma_vlq_encode_len(v: u64)
    ensures
        1 <= vlq_encode(v).len() <= 10,
{
    reveal_with_fuel(pow128, 11);
    assert(pow128(10) == 1180591620717411303424int);
    lemma_vlq_len_bound(v, 10);
}

proof fn lemma_vlq_decode_at(v: u64, pre: Seq<u8>, rest: Seq<u8>)
    requires
        pre.len() + vlq_encode(v).len() <= 10,
        v * pow128(pre.len()) < 0x1_0000_0000_0000_0000int,
    ensures
        vlq_decode_from(pre + vlq_encode(v) + rest, pre.len()) == Ok::<(u64, nat), DecodeError>(
            (v, pre.len() + vlq_encode(v).len()),
        ),
    decreases v,
{
    let s = pre + vlq_encode(v) + rest;
    let k = pre.len();
    reveal_with_fuel(pow128, 10);
    assert(pow128(9) == 0x8000_0000_0000_0000int);
    if k == 9 {
        assert(v < 2) by (nonlinear_arith)
            requires
                v * 0x8000_0000_0000_0000int < 0x1_0000_0000_0000_0000int,
        ;
    }
    if v < 128 {
        assert(s[k as int] == v as u8);
    } else {
        let b = (v % 128 + 128) as u8;
        let pre2 = pre.push(b);
        assert(s[k as int] == b);
        assert(k < 9);
        assert((v / 128) * pow128(k + 1) < 0x1_0000_0000_0000_0000int) by (nonlinear_arith)
            requires
                v * pow128(k) < 0x1_0000_0000_0000_0000int,
                pow128(k + 1) == 128 * pow128(k),
                pow128(k) >= 1,
                v >= 0,
        ;
        lemma_vlq_encode_len(v / 128);
        lemma_vlq_decode_at(v / 128, pre2, rest);
        assert(pre2 + vlq_encode(v / 128) + rest == s);
        assert((((b & 0x7f) as u64) | ((v / 128) << 7u64)) == v) by (bit_vector)
            requires
                b == (v % 128 + 128) as u8,
        ;
    }
}

/// Reading back what `write_vlq` wrote gives the value and consumes exactly
/// its encoding, whatever follows it.
pub proof fn lemma_vlq_roundtrip(v: u64, rest: Seq<u8>)
    ensures
        vlq_decode(vlq_encode(v) + rest) == Ok::<(u64, nat), DecodeError>((v, vlq_encode(v).len())),
{
    lemma_vlq_encode_len(v);
    lemma_vlq_decode_at(v, Seq::empty(), rest);
    assert(Seq::<u8>::empty() + vlq_encode(v) == vlq_encode(v));
}

/// The ZigZag image of a signed 32-bit value: 0, -1, 1, -2, 2, ... map to 0, 1, 2, 3, 4, ...
pub open spec fn zigzag32(v: i32) -> u32 {
    if v >= 0 {
        (2 * v) as u32
    } else {
        (-2 * v - 1) as u32
    }
}

/// The signed value whose ZigZag image is `u`.
pub open spec fn unzigzag32(u: u32) -> i32 {
    if u % 2 == 0 {
        (u / 2) as i32
    } else {
        (-(u / 2) - 1) as i32
    }
}

/// The ZigZag image of a signed 64-bit value.
pub open spec fn zigzag64(v: i64) -> u64 {
    if v >= 0 {
        (2 * v) as u64
    } else {
        (-2 * v - 1) as u64
    }
}

/// ZigZag-encodes a signed i32 into an unsigned u32.
///
/// Maps: 0 -> 0, -1 -> 1, 1 -> 2, -2 -> 3, 2 -> 4, ...
pub fn zigzag_encode(value: i32) -> (u: u32)
    ensures
        u == zigzag32(value),
{
    if value >= 0 {
        (value as u32) * 2
    } else {
        ((-(value + 1)) as u32) * 2 + 1
    }
}

/// ZigZag-decodes an unsigned u32 back into a signed i32.
pub fn zigzag_decode(value: u32) -> (v: i32)
    ensures
        v == unzigzag32(value),
{
    let half = (value / 2) as i32;
    if value % 2 == 0 {
        half
    } else {
        -half - 1
    }
}

/// ZigZag-encodes a signed i64 into an unsigned u64 (Scorex `putLong`).
pub fn zigzag_encode_i64(value: i64) -> (u: u64)
    ensures
        u == zigzag64(value),
{
    if value >= 0 {
        (value as u64) * 2
    } else {
        ((-(value + 1)) as u64) * 2 + 1
    }
}

/// Decoding undoes encoding on every i32.
pub proof fn lemma_zigzag_roundtrip(v: i32)
    ensures
        unzigzag32(zigzag32(v)) == v,
{
}

/// Encoding undoes decoding on every u32: the map is a bijection.
pub proof fn lemma_zigzag_bijective(u: u32)
    ensures
        zigzag32(unzigzag32(u)) == u,
{
}

/// A short string on the wire: one length byte, then the UTF-8 bytes.
pub open spec fn short_string_bytes(chars: Seq<char>) -> Seq<u8> {
    seq![encode_utf8(chars).len() as u8] + encode_utf8(chars)
}

/// Where a failed VLQ length read at position `p` of `s` stops: past the value
/// when it was read whole but is too large, else where the VLQ read stopped.
pub open spec fn spec_vlq_length_stop(s: Seq<u8>, p: nat) -> nat {
    match spec_read_vlq(s, p) {
        Ok((_, q)) => q,
        Err(_) => spec_vlq_stop(s, p),
    }
}

/// Reading a short string at position `p` of `s`: the characters and the next position.
pub open spec fn spec_read_short_string(s: Seq<u8>, p: nat) -> Result<(Seq<char>, nat), DecodeError> {
    match spec_read_u8(s, p) {
        Err(e) => Err(e),
        Ok((n, q)) => match spec_read_bytes(s, q, n as nat) {
            Err(e) => Err(e),
            Ok((b, r)) => if valid_utf8(b) {
                Ok((decode_utf8(b), r))
            } else {
                Err(DecodeError::InvalidUtf8)
            },
        },
    }
}

/// Where a failed short-string read at position `p` of `s` stops: past the
/// bytes when they were read whole but are not UTF-8, else at the end of the input.
pub open spec fn spec_short_string_stop(s: Seq<u8>, p: nat) -> nat {
    match spec_read_u8(s, p) {
        Ok((n, q)) => match spec_read_bytes(s, q, n as nat) {
            Ok((_, r)) => r,
            Err(_) => s.len(),
        },
        Err(_) => s.len(),
    }
}

/// Writes a UTF-8 string prefixed by its byte length as a single byte.
pub fn write_short_string(buf: &mut Vec<u8>, s: &str)
    requires
        encode_utf8(s@).len() <= 255,
    ensures
        final(buf)@ == old(buf)@ + short_string_bytes(s@),
{
    let bytes = s.as_bytes();
    buf.push(bytes.len() as u8);
    append_bytes(buf, bytes);
}

/// `String::from_utf8`: per the std documentation it returns the string when the
/// bytes are valid UTF-8 and an error otherwise. Claimed here: the result is
/// present exactly when `valid_utf8` holds, and then holds the decoded characters.
#[verifier::external_body]
fn string_from_utf8(bytes: Vec<u8>) -> (r: Option<String>)
    ensures
        r is Some <==> valid_utf8(bytes@),
        r matches Some(s) ==> s@ == decode_utf8(bytes@),
{
    String::from_utf8(bytes).ok()
}

/// Reads a UTF-8 string prefixed by a single-byte length. Bytes that are
/// read whole but are not UTF-8 stay consumed.
pub fn read_short_string(cursor: &mut ByteCursor) -> (r: Result<String, DecodeError>)
    ensures
        final(cursor).bytes() == old(cursor).bytes(),
        match spec_read_short_string(old(cursor).bytes(), old(cursor).pos()) {
            Ok((c, q)) => r matches Ok(st) && st@ == c && final(cursor).pos() == q,
            Err(e) => r == Err::<String, DecodeError>(e) && final(cursor).pos() == spec_short_string_stop(
                old(cursor).bytes(),
                old(cursor).pos(),
            ),
        },
{
    let len = cursor.read_u8()?;
    let bytes = cursor.read_bytes(len as usize)?;
    match string_from_utf8(bytes) {
        Some(st) => Ok(st),
        None => Err(DecodeError::InvalidUtf8),
    }
}

/// Reading back what `write_short_string` wrote gives the same characters and
/// consumes exactly the written bytes.
pub proof fn lemma_short_string_roundtrip(chars: Seq<char>, rest: Seq<u8>)
    requires
        encode_utf8(chars).len() <= 255,
    ensures
        spec_read_short_string(short_string_bytes(chars) + rest, 0) == Ok::<(Seq<char>, nat), DecodeError>(
            (chars, short_string_bytes(chars).len()),
        ),
{
    let e = encode_utf8(chars);
    let s = short_string_bytes(chars) + rest;
    vstd::utf8::encode_utf8_valid_utf8(chars);
    vstd::utf8::encode_utf8_decode_utf8(chars);
    assert(s.subrange(1, 1 + e.len() as int) == e);
}

/// Reading a VLQ value where its encoding stands gives it back.
pub proof fn lemma_read_vlq_at(s: Seq<u8>, p: nat, v: u64)
    requires
        holds_at(s, p, vlq_encode(v)),
    ensures
        spec_read_vlq(s, p) == Ok::<(u64, nat), DecodeError>((v, p + vlq_encode(v).len())),
{
    let e = vlq_encode(v);
    let rest = s.skip((p + e.len()) as int);
    assert(s.skip(p as int) == e + rest);
    lemma_vlq_roundtrip(v, rest);
}


/// The number that base-128 digits stand for, least significant first, each
/// digit being the low seven bits of its byte.
pub open spec fn base128_value(b: Seq<u8>) -> int
    decreases b.len(),
{
    if b.len() == 0 {
        0
    } else {
        (b[0] % 128) as int + 128 * base128_value(b.drop_first())
    }
}

/// The VLQ encoding of every u64 is little-endian base 128: its bytes' low
/// seven bits are the value's base-128 digits, least significant first; every
/// byte but the last has its high bit set, the last has it clear, and there is
/// no needless final zero digit.
pub proof fn lemma_vlq_encode_digits(v: u64)
    ensures
        ({
            let e = vlq_encode(v);
            &&& base128_value(e) == v
            &&& e[e.len() - 1] < 128
            &&& forall|i: int| 0 <= i < e.len() - 1 ==> #[trigger] e[i] >= 128
            &&& e.len() > 1 ==> e[e.len() - 1] != 0
        }),
    decreases v,
{
    lemma_vlq_encode_len(v);
    let e = vlq_encode(v);
    if v >= 128 {
        lemma_vlq_encode_digits(v / 128);
        lemma_vlq_encode_len(v / 128);
        let r = vlq_encode(v / 128);
        assert(e == seq![(v % 128 + 128) as u8] + r);
        assert(e.drop_first() == r);
        assert(e[e.len() - 1] == r[r.len() - 1]);
        assert forall|i: int| 0 <= i < e.len() - 1 implies #[trigger] e[i] >= 128 by {
            if i > 0 {
                assert(e[i] == r[i - 1]);
            }
        }
        if r.len() == 1 {
            assert(r == seq![(v / 128) as u8]);
        }
        assert(((v % 128 + 128) as u8) % 128 == v % 128);
        assert(base128_value(e) == (e[0] % 128) as int + 128 * base128_value(r));
        assert(v == v % 128 + 128 * (v / 128));
    } else {
        assert(e == seq![v as u8]);
        assert(e.drop_first() == Seq::<u8>::empty());
        assert(base128_value(e) == (e[0] % 128) as int + 128 * base128_value(e.drop_first()));
    }
}

} // verus!
