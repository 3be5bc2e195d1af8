//! A read position over a byte slice, and the spec-level readers that the
//! wire formats of the protocol are stated with.
//!
//! A reader that succeeds moves the cursor past what it read. One that fails
//! stops where reading stopped: a read of `n` bytes that runs out of input
//! consumes what was left, and a value that was read whole but refused stays
//! consumed.

use vstd::prelude::*;

verus! {

/// Why bytes could not be decoded.
#[derive(Debug, Clone, Copy, PartialEq, Eq, Structural)]
pub enum DecodeError {
    /// The input ended before the value did.
    UnexpectedEof,
    /// A VLQ value ran past ten bytes (more than 64 bits).
    VlqOverflow,
    /// A length prefix exceeded the protocol bound; the value is carried.
    LengthTooLarge(u64),
    /// A string was not valid UTF-8.
    InvalidUtf8,
}

/// Reading one byte at position `p` of `s`: the byte and the next position.
pub open spec fn spec_read_u8(s: Seq<u8>, p: nat) -> Result<(u8, nat), DecodeError> {
    if p < s.len() {
        Ok((s[p as int], p + 1))
    } else {
        Err(DecodeError::UnexpectedEof)
    }
}

/// Reading `n` bytes at position `p` of `s`.
pub open spec fn spec_read_bytes(s: Seq<u8>, p: nat, n: nat) -> Result<(Seq<u8>, nat), DecodeError> {
    if p + n <= s.len() {
        Ok((s.subrange(p as int, (p + n) as int), p + n))
    } else {
        Err(DecodeError::UnexpectedEof)
    }
}

/// A position in a borrowed byte slice.
pub struct ByteCursor<'a> {
    data: &'a [u8],
    pos: usize,
}

impl<'a> ByteCursor<'a> {
    /// The bytes under the cursor.
    pub closed spec fn bytes(&self) -> Seq<u8> {
        self.data@
    }

    /// The current position, counted from the start of `bytes()`.
    pub closed spec fn pos(&self) -> nat {
        self.pos as nat
    }

    #[verifier::type_invariant]
    closed spec fn inv(&self) -> bool {
        self.pos <= self.data@.len()
    }

    pub fn new(data: &'a [u8]) -> (c: Self)
        ensures
            c.bytes() == data@,
            c.pos() == 0,
    {
        ByteCursor { data, pos: 0 }
    }

    pub fn position(&self) -> (p: usize)
        ensures
            p == self.pos(),
            p <= self.bytes().len(),
    {
        proof {
            use_type_invariant(self);
        }
        self.pos
    }

    /// The number of bytes after the current position.
    pub fn remaining(&self) -> (n: usize)
        ensures
            n == self.bytes().len() - self.pos(),
    {
        proof {
            use_type_invariant(self);
        }
        self.data.len() - self.pos
    }

    /// The byte `k` places after the current position, if there is one.
    pub fn peek(&self, k: usize) -> (b: Option<u8>)
        ensures
            self.pos() <= self.bytes().len(),
            self.pos() + k < self.bytes().len() ==> b == Some(self.bytes()[self.pos() + k]),
            self.pos() + k >= self.bytes().len() ==> b is None,
    {
        proof {
            use_type_invariant(self);
        }
        if k < self.data.len() - self.pos {
            Some(self.data[self.pos + k])
        } else {
            None
        }
    }

    /// Moves the cursor `n` bytes forward.
    pub fn advance(&mut self, n: usize)
        requires
            old(self).pos() + n <= old(self).bytes().len(),
        ensures
            final(self).bytes() == old(self).bytes(),
            final(self).pos() == old(self).pos() + n,
    {
        let len = self.data.len();
        assert(len == self.data@.len());
        self.pos = self.pos + n;
    }

    /// Reads one byte.
    pub fn read_u8(&mut self) -> (r: Result<u8, DecodeError>)
        ensures
            final(self).bytes() == old(self).bytes(),
            match spec_read_u8(old(self).bytes(), old(self).pos()) {
                Ok((b, q)) => r == Ok::<u8, DecodeError>(b) && final(self).pos() == q,
                Err(e) => r == Err::<u8, DecodeError>(e) && final(self).pos() == old(self).bytes().len(),
            },
    {
        proof {
            use_type_invariant(&*self);
        }
        if self.pos < self.data.len() {
            let b = self.data[self.pos];
            self.pos = self.pos + 1;
            Ok(b)
        } else {
            Err(DecodeError::UnexpectedEof)
        }
    }

    /// Reads exactly `n` bytes. When fewer are left, the rest of the input is
    /// consumed and the read fails.
    pub fn read_bytes(&mut self, n: usize) -> (r: Result<Vec<u8>, DecodeError>)
        ensures
            final(self).bytes() == old(self).bytes(),
            match spec_read_bytes(old(self).bytes(), old(self).pos(), n as nat) {
                Ok((b, q)) => r matches Ok(v) && v@ == b && final(self).pos() == q,
                Err(e) => r == Err::<Vec<u8>, DecodeError>(e) && final(self).pos() == old(self).bytes().len(),
            },
    {
        proof {
            use_type_invariant(&*self);
        }
        if n > self.data.len() - self.pos {
            self.pos = self.data.len();
            return Err(DecodeError::UnexpectedEof);
        }
        let len = self.data.len();
        let mut out: Vec<u8> = Vec::with_capacity(n);
        let mut i: usize = 0;
        while i < n
            invariant
                self.pos + n <= self.data@.len(),
                len == self.data@.len(),
                i <= n,
                out@ == self.data@.subrange(self.pos as int, self.pos + i),
            decreases n - i,
        {
            out.push(self.data[self.pos + i]);
            i = i + 1;
        }
        self.pos = self.pos + n;
        Ok(out)
    }
}

/// Appends `bytes` to the end of `buf`.
pub fn append_bytes(buf: &mut Vec<u8>, bytes: &[u8])
    ensures
        final(buf)@ == old(buf)@ + bytes@,
{
    let mut i: usize = 0;
    while i < bytes.len()
        invariant
            i <= bytes@.len(),
            buf@ == old(buf)@ + bytes@.subrange(0, i as int),
        decreases bytes.len() - i,
    {
        buf.push(bytes[i]);
        i = i + 1;
    }
    assert(bytes@.subrange(0, bytes@.len() as int) == bytes@);
}

/// Copies bytes into a new vector.
pub fn copy_bytes(src: &[u8]) -> (v: Vec<u8>)
    ensures
        v@ == src@,
{
    let mut v: Vec<u8> = Vec::new();
    append_bytes(&mut v, src);
    v
}

/// `s` holds `t` at position `p`.
pub open spec fn holds_at(s: Seq<u8>, p: nat, t: Seq<u8>) -> bool {
    p + t.len() <= s.len() && s.subrange(p as int, (p + t.len()) as int) == t
}

/// A piece of what `s` holds at `p` is held at the piece's offset from `p`.
pub proof fn lemma_holds_at_sub(s: Seq<u8>, p: nat, t: Seq<u8>, a: nat, b: nat)
    requires
        holds_at(s, p, t),
        a <= b <= t.len(),
    ensures
        holds_at(s, p + a, t.subrange(a as int, b as int)),
{
    assert forall|i: int| 0 <= i < b - a implies #[trigger] s.subrange((p + a) as int, (p + b) as int)[i]
        == t.subrange(a as int, b as int)[i] by {
        assert(s.subrange(p as int, (p + t.len()) as int)[a + i] == t[a + i]);
    }
    assert(s.subrange((p + a) as int, (p + b) as int) =~= t.subrange(a as int, b as int));
}

} // verus!
