//! A byte-oriented reader over an in-memory buffer: random-access positioning
//! plus little-endian fixed-width reads. The buffer is fixed-size and
//! read-only; reads advance the position and fail when fewer bytes remain
//! than required.
use vstd::prelude::*;

use crate::error::DecodeError;

verus! {

/// The little-endian 16-bit value stored at position `p` of `b`.
pub open spec fn le16_at(b: Seq<u8>, p: int) -> u16
    recommends
        0 <= p,
        p + 2 <= b.len(),
{
    (b[p] as u16) | ((b[p + 1] as u16) << 8)
}

/// The little-endian 32-bit value stored at position `p` of `b`.
pub open spec fn le32_at(b: Seq<u8>, p: int) -> u32
    recommends
        0 <= p,
        p + 4 <= b.len(),
{
    (b[p] as u32) | ((b[p + 1] as u32) << 8) | ((b[p + 2] as u32) << 16) | ((b[p + 3] as u32)
        << 24)
}

/// A cursor over one immutable byte buffer. The position is always within
/// `0 ..= buffer length`; successful reads advance it, failed ones leave it
/// unchanged.
pub struct ChunkCursor {
    buf: Vec<u8>,
    pos: usize,
}

impl ChunkCursor {
    /// The underlying bytes.
    pub closed spec fn bytes(&self) -> Seq<u8> {
        self.buf@
    }

    /// The current position.
    pub closed spec fn pos(&self) -> int {
        self.pos as int
    }

    /// The position never passes the end of the buffer.
    pub closed spec fn wf(&self) -> bool {
        self.pos <= self.buf@.len()
    }

    pub fn new(buf: Vec<u8>) -> (c: Self)
        ensures
            c.bytes() == buf@,
            c.pos() == 0,
            c.wf(),
    {
        ChunkCursor { buf, pos: 0 }
    }

    /// The decoded buffer, handed back when decoding is over.
    pub fn into_buffer(self) -> (buf: Vec<u8>)
        ensures
            buf@ == self.bytes(),
    {
        self.buf
    }

    pub fn position(&self) -> (p: usize)
        ensures
            p as int == self.pos(),
    {
        self.pos
    }

    pub fn len(&self) -> (n: usize)
        ensures
            n as int == self.bytes().len() as int,
    {
        self.buf.len()
    }

    /// Sets the position absolutely; `OutOfBounds` past the end of the buffer.
    pub fn seek(&mut self, offset: usize) -> (r: Result<(), DecodeError>)
        requires
            old(self).wf(),
        ensures
            final(self).bytes() == old(self).bytes(),
            final(self).wf(),
            offset <= old(self).bytes().len() ==> r == Ok::<(), DecodeError>(()) && final(self).pos()
                == offset as int,
            offset > old(self).bytes().len() ==> r == Err::<(), DecodeError>(
                DecodeError::OutOfBounds,
            ) && final(self).pos() == old(self).pos(),
    {
        if offset <= self.buf.len() {
            self.pos = offset;
            Ok(())
        } else {
            Err(DecodeError::OutOfBounds)
        }
    }

    pub fn read_u8(&mut self) -> (r: Result<u8, DecodeError>)
        requires
            old(self).wf(),
        ensures
            final(self).bytes() == old(self).bytes(),
            final(self).wf(),
            old(self).pos() + 1 <= old(self).bytes().len() ==> r == Ok::<u8, DecodeError>(
                old(self).bytes()[old(self).pos()],
            ) && final(self).pos() == old(self).pos() + 1,
            old(self).pos() + 1 > old(self).bytes().len() ==> r == Err::<u8, DecodeError>(
                DecodeError::Truncated,
            ) && final(self).pos() == old(self).pos(),
    {
        if self.buf.len() - self.pos >= 1 {
            let b = self.buf[self.pos];
            self.pos = self.pos + 1;
            Ok(b)
        } else {
            Err(DecodeError::Truncated)
        }
    }

    pub fn read_u16_le(&mut self) -> (r: Result<u16, DecodeError>)
        requires
            old(self).wf(),
        ensures
            final(self).bytes() == old(self).bytes(),
            final(self).wf(),
            old(self).pos() + 2 <= old(self).bytes().len() ==> r == Ok::<u16, DecodeError>(
                le16_at(old(self).bytes(), old(self).pos()),
            ) && final(self).pos() == old(self).pos() + 2,
            old(self).pos() + 2 > old(self).bytes().len() ==> r == Err::<u16, DecodeError>(
                DecodeError::Truncated,
            ) && final(self).pos() == old(self).pos(),
    {
        if self.buf.len() - self.pos >= 2 {
            let b0 = self.buf[self.pos];
            let b1 = self.buf[self.pos + 1];
            self.pos = self.pos + 2;
            Ok((b0 as u16) | ((b1 as u16) << 8))
        } else {
            Err(DecodeError::Truncated)
        }
    }

    pub fn read_u32_le(&mut self) -> (r: Result<u32, DecodeError>)
        requires
            old(self).wf(),
        ensures
            final(self).bytes() == old(self).bytes(),
            final(self).wf(),
            old(self).pos() + 4 <= old(self).bytes().len() ==> r == Ok::<u32, DecodeError>(
                le32_at(old(self).bytes(), old(self).pos()),
            ) && final(self).pos() == old(self).pos() + 4,
            old(self).pos() + 4 > old(self).bytes().len() ==> r == Err::<u32, DecodeError>(
                DecodeError::Truncated,
            ) && final(self).pos() == old(self).pos(),
    {
        if self.buf.len() - self.pos >= 4 {
            let b0 = self.buf[self.pos];
            let b1 = self.buf[self.pos + 1];
            let b2 = self.buf[self.pos + 2];
            let b3 = self.buf[self.pos + 3];
            self.pos = self.pos + 4;
            Ok((b0 as u32) | ((b1 as u32) << 8) | ((b2 as u32) << 16) | ((b3 as u32) << 24))
        } else {
            Err(DecodeError::Truncated)
        }
    }

    /// Reads exactly `n` raw bytes, or fails `Truncated` leaving the position
    /// unchanged.
    pub fn read_exact(&mut self, n: usize) -> (r: Result<Vec<u8>, DecodeError>)
        requires
            old(self).wf(),
        ensures
            final(self).bytes() == old(self).bytes(),
            final(self).wf(),
            old(self).pos() + n <= old(self).bytes().len() ==> r is Ok && r->Ok_0@ == old(
                self,
            ).bytes().subrange(old(self).pos(), old(self).pos() + n) && final(self).pos() == old(
                self,
            ).pos() + n,
            old(self).pos() + n > old(self).bytes().len() ==> r == Err::<Vec<u8>, DecodeError>(
                DecodeError::Truncated,
            ) && final(self).pos() == old(self).pos(),
    {
        if n <= self.buf.len() - self.pos {
            let mut v: Vec<u8> = Vec::new();
            let mut i: usize = 0;
            while i < n
                invariant
                    i <= n,
                    self.bytes() == old(self).bytes(),
                    self.pos() == old(self).pos(),
                    self.wf(),
                    old(self).pos() + n <= old(self).bytes().len(),
                    old(self).bytes().len() <= usize::MAX,
                    v@ =~= old(self).bytes().subrange(old(self).pos(), old(self).pos() + i),
                decreases n - i,
            {
                v.push(self.buf[self.pos + i]);
                i = i + 1;
            }
            self.pos = self.pos + n;
            Ok(v)
        } else {
            Err(DecodeError::Truncated)
        }
    }
}

} // verus!
