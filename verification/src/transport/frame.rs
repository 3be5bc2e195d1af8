//! Ergo P2P message frame encoding and decoding.
//!
//! A frame on the wire is `[magic:4][code:1][len:4 BE][checksum:4][body:len]`,
//! where the checksum is the first four bytes of blake2b-256 of the body.
//! Decoding checks the magic, the length bound (256 KiB), that the whole body
//! is present, and the checksum, in that order.

use vstd::prelude::*;
use crate::transport::cursor::{append_bytes, copy_bytes};
use blake2::digest::consts::U32;
use blake2::{Blake2b, Digest};

verus! {

/// Bytes in a frame header: 4 magic + 1 code + 4 length + 4 checksum.
pub const HEADER_SIZE: usize = 13;

/// The largest body a frame may carry (256 KiB).
pub const MAX_BODY_SIZE: u32 = 262144;

/// A validated P2P message frame.
#[derive(Debug, Clone, PartialEq, Eq)]
pub struct Frame {
    pub code: u8,
    pub body: Vec<u8>,
}

impl View for Frame {
    type V = (u8, Seq<u8>);

    open spec fn view(&self) -> (u8, Seq<u8>) {
        (self.code, self.body@)
    }
}

/// Why bytes are not a valid frame.
#[derive(Debug, Clone, Copy, PartialEq, Eq, Structural)]
pub enum FrameError {
    /// Fewer bytes than a header.
    TooShort,
    /// The first four bytes are not the expected network magic.
    BadMagic,
    /// The header announces a body above `MAX_BODY_SIZE`.
    BodyTooLarge,
    /// The bytes end before the announced body does.
    Truncated,
    /// The body does not hash to the header's checksum.
    ChecksumMismatch,
}

/// The blake2b-256 digest of `data`, as computed by the `blake2` crate.
pub uninterp spec fn blake2b256(data: Seq<u8>) -> Seq<u8>;

/// `blake2::Blake2b<U32>::digest` (from `digest::Digest`): hashes `data` with
/// blake2b at a 32-byte output size. Claimed: the result is `blake2b256(data)`,
/// a function of the bytes alone, and it is 32 bytes long (the output size).
#[verifier::external_body]
fn blake2b256_digest(data: &[u8]) -> (h: Vec<u8>)
    ensures
        h@ == blake2b256(data@),
        h@.len() == 32,
{
    Blake2b::<U32>::digest(data).to_vec()
}

/// The frame checksum of a body: the first four bytes of its blake2b-256 digest.
pub open spec fn checksum(body: Seq<u8>) -> Seq<u8> {
    Seq::new(4, |i: int| blake2b256(body)[i])
}

/// A u32 as four big-endian bytes.
pub open spec fn be32_bytes(n: u32) -> Seq<u8> {
    seq![(n >> 24u32) as u8, (n >> 16u32) as u8, (n >> 8u32) as u8, n as u8]
}

/// The u32 that four big-endian bytes stand for.
pub open spec fn be32_value(b0: u8, b1: u8, b2: u8, b3: u8) -> u32 {
    ((b0 as u32) << 24u32) | ((b1 as u32) << 16u32) | ((b2 as u32) << 8u32) | (b3 as u32)
}

/// The wire bytes of a frame with the given magic, code and body.
pub open spec fn frame_bytes(magic: Seq<u8>, code: u8, body: Seq<u8>) -> Seq<u8> {
    magic + seq![code] + be32_bytes(body.len() as u32) + checksum(body) + body
}

/// The body length that a header announces.
pub open spec fn header_body_len(data: Seq<u8>) -> u32 {
    be32_value(data[5], data[6], data[7], data[8])
}

/// What `decode` makes of `data` under `magic`: the code and body, or why not.
pub open spec fn spec_decode(magic: Seq<u8>, data: Seq<u8>) -> Result<(u8, Seq<u8>), FrameError> {
    if data.len() < HEADER_SIZE {
        Err(FrameError::TooShort)
    } else if data.subrange(0, 4) != magic {
        Err(FrameError::BadMagic)
    } else if header_body_len(data) > MAX_BODY_SIZE {
        Err(FrameError::BodyTooLarge)
    } else if data.len() < HEADER_SIZE + header_body_len(data) {
        Err(FrameError::Truncated)
    } else if checksum(data.subrange(13, 13 + header_body_len(data))) != data.subrange(9, 13) {
        Err(FrameError::ChecksumMismatch)
    } else {
        Ok((data[4], data.subrange(13, 13 + header_body_len(data))))
    }
}

/// A checked frame header: the code, the body length and the checksum.
pub struct FrameHeader {
    pub code: u8,
    pub body_len: u32,
    pub checksum: [u8; 4],
}

fn push_be32(buf: &mut Vec<u8>, n: u32)
    ensures
        final(buf)@ == old(buf)@ + be32_bytes(n),
{
    buf.push((n >> 24) as u8);
    buf.push((n >> 16) as u8);
    buf.push((n >> 8) as u8);
    buf.push(n as u8);
}

/// Encodes a frame, given the digest of its body: the header holds the first
/// four bytes of `digest` as the checksum.
pub fn encode_with_checksum(magic: &[u8; 4], frame: &Frame, digest: &[u8]) -> (bytes: Vec<u8>)
    requires
        frame.body@.len() <= u32::MAX,
        digest@.len() >= 4,
    ensures
        bytes@ == magic@ + seq![frame.code] + be32_bytes(frame.body@.len() as u32) + digest@.subrange(0, 4)
            + frame.body@,
{
    let mut msg: Vec<u8> = Vec::with_capacity(frame.body.len());
    append_bytes(&mut msg, magic.as_slice());
    msg.push(frame.code);
    push_be32(&mut msg, frame.body.len() as u32);
    msg.push(digest[0]);
    msg.push(digest[1]);
    msg.push(digest[2]);
    msg.push(digest[3]);
    assert(msg@ == magic@ + seq![frame.code] + be32_bytes(frame.body@.len() as u32) + digest@.subrange(0, 4));
    append_bytes(&mut msg, frame.body.as_slice());
    msg
}

/// Encodes a frame into wire bytes with the given network magic. The body's
/// length must fit the header's four length bytes; a peer decodes the frame
/// only when the body is at most `MAX_BODY_SIZE`.
pub fn encode(magic: &[u8; 4], frame: &Frame) -> (bytes: Vec<u8>)
    requires
        frame.body@.len() <= u32::MAX,
    ensures
        bytes@ == frame_bytes(magic@, frame.code, frame.body@),
{
    let digest = blake2b256_digest(frame.body.as_slice());
    let bytes = encode_with_checksum(magic, frame, digest.as_slice());
    assert(digest@.subrange(0, 4) == checksum(frame.body@));
    bytes
}

/// What a header makes of the first 13 bytes of `data` under `magic`: the code,
/// the body length and the checksum bytes, or why not.
pub open spec fn spec_decode_header(magic: Seq<u8>, data: Seq<u8>) -> Result<(u8, u32, Seq<u8>), FrameError> {
    if data.len() < HEADER_SIZE {
        Err(FrameError::TooShort)
    } else if data.subrange(0, 4) != magic {
        Err(FrameError::BadMagic)
    } else if header_body_len(data) > MAX_BODY_SIZE {
        Err(FrameError::BodyTooLarge)
    } else {
        Ok((data[4], header_body_len(data), data.subrange(9, 13)))
    }
}

/// Checks a frame header: at least 13 bytes, the right magic, and a body length
/// within `MAX_BODY_SIZE`.
pub fn decode_header(magic: &[u8; 4], data: &[u8]) -> (r: Result<FrameHeader, FrameError>)
    ensures
        match spec_decode_header(magic@, data@) {
            Ok((code, len, sum)) => r matches Ok(h) && h.code == code && h.body_len == len
                && h.checksum@ == sum,
            Err(e) => r matches Err(e2) && e2 == e,
        },
{
    if data.len() < HEADER_SIZE {
        return Err(FrameError::TooShort);
    }
    if data[0] != magic[0] || data[1] != magic[1] || data[2] != magic[2] || data[3] != magic[3] {
        assert(data@.subrange(0, 4) != magic@) by {
            if data@.subrange(0, 4) == magic@ {
                assert(data@.subrange(0, 4)[0] == data@[0]);
                assert(data@.subrange(0, 4)[1] == data@[1]);
                assert(data@.subrange(0, 4)[2] == data@[2]);
                assert(data@.subrange(0, 4)[3] == data@[3]);
            }
        }
        return Err(FrameError::BadMagic);
    }
    assert(data@.subrange(0, 4) == magic@);
    let body_len = ((data[5] as u32) << 24) | ((data[6] as u32) << 16) | ((data[7] as u32) << 8)
        | (data[8] as u32);
    if body_len > MAX_BODY_SIZE {
        return Err(FrameError::BodyTooLarge);
    }
    let checksum: [u8; 4] = [data[9], data[10], data[11], data[12]];
    assert(checksum@ == data@.subrange(9, 13));
    Ok(FrameHeader { code: data[4], body_len, checksum })
}

/// Checks a body against a header, given the digest of the body: the frame,
/// when the first four bytes of `digest` are the header's checksum.
pub fn verify_body(header: &FrameHeader, body: Vec<u8>, digest: &[u8]) -> (r: Result<Frame, FrameError>)
    requires
        digest@.len() >= 4,
    ensures
        digest@.subrange(0, 4) == header.checksum@ ==> (r matches Ok(f) && f@ == (header.code, body@)),
        digest@.subrange(0, 4) != header.checksum@ ==> r == Err::<Frame, FrameError>(
            FrameError::ChecksumMismatch,
        ),
{
    if digest[0] == header.checksum[0] && digest[1] == header.checksum[1] && digest[2]
        == header.checksum[2] && digest[3] == header.checksum[3] {
        assert(digest@.subrange(0, 4) == header.checksum@);
        Ok(Frame { code: header.code, body })
    } else {
        assert(digest@.subrange(0, 4) != header.checksum@) by {
            if digest@.subrange(0, 4) == header.checksum@ {
                assert(digest@.subrange(0, 4)[0] == digest@[0]);
                assert(digest@.subrange(0, 4)[1] == digest@[1]);
                assert(digest@.subrange(0, 4)[2] == digest@[2]);
                assert(digest@.subrange(0, 4)[3] == digest@[3]);
            }
        }
        Err(FrameError::ChecksumMismatch)
    }
}

/// Checks a body against a header: the frame, when the body hashes to the
/// header's checksum.
pub fn check_body(header: &FrameHeader, body: Vec<u8>) -> (r: Result<Frame, FrameError>)
    ensures
        checksum(body@) == header.checksum@ ==> (r matches Ok(f) && f@ == (header.code, body@)),
        checksum(body@) != header.checksum@ ==> r == Err::<Frame, FrameError>(
            FrameError::ChecksumMismatch,
        ),
{
    let digest = blake2b256_digest(body.as_slice());
    assert(digest@.subrange(0, 4) == checksum(body@));
    verify_body(header, body, digest.as_slice())
}

/// Decodes a frame from wire bytes, checking magic, length and checksum.
pub fn decode(magic: &[u8; 4], data: &[u8]) -> (r: Result<Frame, FrameError>)
    ensures
        match spec_decode(magic@, data@) {
            Ok((code, body)) => r matches Ok(f) && f@ == (code, body),
            Err(e) => r matches Err(e2) && e2 == e,
        },
{
    let header = decode_header(magic, data)?;
    let len = header.body_len as usize;
    if data.len() - HEADER_SIZE < len {
        return Err(FrameError::Truncated);
    }
    let dlen = data.len();
    let mut body: Vec<u8> = Vec::with_capacity(len);
    let mut i: usize = 0;
    while i < len
        invariant
            dlen == data@.len(),
            HEADER_SIZE + len <= data@.len(),
            i <= len,
            body@ == data@.subrange(13, 13 + i),
        decreases len - i,
    {
        body.push(data[HEADER_SIZE + i]);
        i = i + 1;
    }
    check_body(&header, body)
}

/// Decoding what `encode` produced gives back the frame, for every body within
/// the size bound.
pub proof fn lemma_frame_roundtrip(magic: Seq<u8>, code: u8, body: Seq<u8>)
    requires
        magic.len() == 4,
        body.len() <= MAX_BODY_SIZE,
    ensures
        spec_decode(magic, frame_bytes(magic, code, body)) == Ok::<(u8, Seq<u8>), FrameError>(
            (code, body),
        ),
{
    let data = frame_bytes(magic, code, body);
    let n = body.len() as u32;
    assert(data.len() == 13 + body.len());
    assert(data.subrange(0, 4) == magic);
    assert(data[4] == code);
    assert(data[5] == (n >> 24u32) as u8);
    assert(data[6] == (n >> 16u32) as u8);
    assert(data[7] == (n >> 8u32) as u8);
    assert(data[8] == n as u8);
    assert(be32_value((n >> 24u32) as u8, (n >> 16u32) as u8, (n >> 8u32) as u8, n as u8) == n)
        by (bit_vector);
    assert(header_body_len(data) == n);
    assert(data.subrange(9, 13) == checksum(body));
    assert(data.subrange(13, 13 + body.len() as int) == body);
}

} // verus!
