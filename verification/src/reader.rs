use vstd::prelude::*;

verus! {

/// The big-endian value of two bytes.
pub open spec fn be16(hi: u8, lo: u8) -> u16 {
    (hi as int * 0x100 + lo as int) as u16
}

/// The big-endian value of four bytes, as an unsigned number.
pub open spec fn be32(b0: u8, b1: u8, b2: u8, b3: u8) -> u32 {
    (b0 as int * 0x100_0000 + b1 as int * 0x1_0000 + b2 as int * 0x100 + b3 as int) as u32
}

/// The two's-complement reading of a 32-bit pattern.
pub open spec fn signed32(n: u32) -> i32 {
    if n < 0x8000_0000 {
        n as i32
    } else {
        (n as int - 0x1_0000_0000) as i32
    }
}

/// The 16-bit big-endian number at `pos`, if two bytes stand there.
pub open spec fn u16_at(buf: Seq<u8>, pos: int) -> Option<u16> {
    if 0 <= pos && pos + 2 <= buf.len() {
        Some(be16(buf[pos], buf[pos + 1]))
    } else {
        None
    }
}

/// The signed 32-bit big-endian number at `pos`, if four bytes stand there.
pub open spec fn i32_at(buf: Seq<u8>, pos: int) -> Option<i32> {
    if 0 <= pos && pos + 4 <= buf.len() {
        Some(signed32(be32(buf[pos], buf[pos + 1], buf[pos + 2], buf[pos + 3])))
    } else {
        None
    }
}

/// A read position in a borrowed byte buffer.  The position may lie past the
/// end of the buffer, where every read comes back empty.
pub struct Reader<'a> {
    pub buf: &'a [u8],
    pub pos: usize,
}

impl<'a> Reader<'a> {
    /// A reader at the start of `buf`.
    pub fn new(buf: &'a [u8]) -> (r: Reader<'a>)
        ensures
            r.buf@ == buf@,
            r.pos == 0,
    {
        Reader { buf, pos: 0 }
    }

    /// The current read position.
    pub fn position(&self) -> (p: usize)
        ensures
            p == self.pos,
    {
        self.pos
    }

    /// Moves the read position to `pos`.
    pub fn set_position(&mut self, pos: usize)
        ensures
            final(self).buf@ == old(self).buf@,
            final(self).pos == pos,
    {
        self.pos = pos;
    }

    /// How many bytes are left to read.
    pub fn remaining(&self) -> (n: usize)
        ensures
            n == (if self.pos < self.buf@.len() {
                self.buf@.len() - self.pos
            } else {
                0
            }),
    {
        if self.pos < self.buf.len() {
            self.buf.len() - self.pos
        } else {
            0
        }
    }

    /// Reads up to `len` bytes: all of them where enough remain, else what is
    /// left.
    pub fn read_exact(&mut self, len: usize) -> (r: Vec<u8>)
        ensures
            final(self).buf@ == old(self).buf@,
            old(self).pos + len <= old(self).buf@.len() ==> r@ == old(self).buf@.subrange(
                old(self).pos as int,
                old(self).pos + len,
            ) && final(self).pos == old(self).pos + len,
            old(self).pos < old(self).buf@.len() < old(self).pos + len ==> r@
                == old(self).buf@.subrange(old(self).pos as int, old(self).buf@.len() as int)
                && final(self).pos == old(self).buf@.len(),
            old(self).pos >= old(self).buf@.len() ==> r@.len() == 0 && final(self).pos == old(
                self,
            ).pos,
    {
        let n = if len <= self.remaining() {
            len
        } else {
            self.remaining()
        };
        let mut out: Vec<u8> = Vec::new();
        if n == 0 {
            assert(old(self).pos + len <= old(self).buf@.len() ==> out@ =~= old(self).buf@.subrange(
                old(self).pos as int,
                old(self).pos + len,
            ));
            return out;
        }
        let start = self.pos;
        let mut i: usize = 0;
        assert(out@ =~= self.buf@.subrange(start as int, start as int));
        while i < n
            invariant
                i <= n,
                start + n <= self.buf.len(),
                start == self.pos,
                out@ == self.buf@.subrange(start as int, start + i),
            decreases n - i,
        {
            out.push(self.buf[start + i]);
            i = i + 1;
            assert(out@ =~= self.buf@.subrange(start as int, start + i));
        }
        self.pos = start + n;
        out
    }

    /// Reads one byte; `None` at the end of the buffer, where nothing moves.
    pub fn read_u8(&mut self) -> (r: Option<u8>)
        ensures
            final(self).buf@ == old(self).buf@,
            old(self).pos < old(self).buf@.len() ==> r == Some(old(self).buf@[old(self).pos as int])
                && final(self).pos == old(self).pos + 1,
            old(self).pos >= old(self).buf@.len() ==> r is None && final(self).pos == old(self).pos,
    {
        if self.pos < self.buf.len() {
            let b = self.buf[self.pos];
            self.pos = self.pos + 1;
            Some(b)
        } else {
            None
        }
    }

    /// Reads a big-endian `u16`; `None`, with nothing moved, where fewer than
    /// two bytes remain.
    pub fn read_u16(&mut self) -> (r: Option<u16>)
        ensures
            final(self).buf@ == old(self).buf@,
            r == u16_at(old(self).buf@, old(self).pos as int),
            r is Some ==> final(self).pos == old(self).pos + 2,
            r is None ==> final(self).pos == old(self).pos,
    {
        if self.remaining() >= 2 {
            let hi = self.buf[self.pos];
            let lo = self.buf[self.pos + 1];
            self.pos = self.pos + 2;
            Some(hi as u16 * 0x100 + lo as u16)
        } else {
            None
        }
    }

    /// Reads a big-endian two's-complement `i32`; `None`, with nothing moved,
    /// where fewer than four bytes remain.
    pub fn read_i32(&mut self) -> (r: Option<i32>)
        ensures
            final(self).buf@ == old(self).buf@,
            r == i32_at(old(self).buf@, old(self).pos as int),
            r is Some ==> final(self).pos == old(self).pos + 4,
            r is None ==> final(self).pos == old(self).pos,
    {
        if self.remaining() >= 4 {
            let p = self.pos;
            let n: u32 = self.buf[p] as u32 * 0x100_0000 + self.buf[p + 1] as u32 * 0x1_0000
                + self.buf[p + 2] as u32 * 0x100 + self.buf[p + 3] as u32;
            self.pos = p + 4;
            if n < 0x8000_0000 {
                Some(n as i32)
            } else {
                Some((n - 0x8000_0000) as i32 - 0x7fff_ffff - 1)
            }
        } else {
            None
        }
    }
}

} // verus!
