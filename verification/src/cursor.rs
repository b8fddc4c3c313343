//! A read cursor over two adjacent byte ranges.
//!
//! The cursor reads the bytes of a first range followed by those of a second
//! one as a single stream, so that the tail carried over from one block can be
//! put in front of the next block without copying that block.

use vstd::prelude::*;
use crate::wire::{le16, le32, nul_pos};

verus! {

/// A position in the stream made of `head` followed by `tail`.
pub struct Cursor<'a> {
    head: &'a [u8],
    tail: &'a [u8],
    head_pos: usize,
    tail_pos: usize,
}

impl<'a> Cursor<'a> {
    #[verifier::type_invariant]
    spec fn inv(self) -> bool {
        &&& self.head_pos <= self.head@.len()
        &&& self.tail_pos <= self.tail@.len()
    }

    /// The bytes that have not been consumed yet.
    pub closed spec fn remaining(&self) -> Seq<u8> {
        self.head@.skip(self.head_pos as int) + self.tail@.skip(self.tail_pos as int)
    }

    /// A cursor at the start of `head` followed by `tail`.
    pub fn new(head: &'a [u8], tail: &'a [u8]) -> (c: Cursor<'a>)
        ensures
            c.remaining() == head@ + tail@,
    {
        Cursor { head, tail, head_pos: 0, tail_pos: 0 }
    }

    /// A cursor over `bytes` that starts `at` bytes into them.
    pub(crate) fn starting_at(bytes: &'a [u8], at: usize) -> (c: Cursor<'a>)
        requires
            at <= bytes@.len(),
        ensures
            c.remaining() == bytes@.skip(at as int),
    {
        let c = Cursor { head: bytes, tail: bytes, head_pos: at, tail_pos: bytes.len() };
        assert(c.remaining() =~= bytes@.skip(at as int));
        c
    }

    /// Whether at least `n` bytes are left.
    pub fn has(&self, n: usize) -> (b: bool)
        ensures
            b == (self.remaining().len() >= n),
    {
        proof {
            use_type_invariant(self);
        }
        let in_head: usize = self.head.len() - self.head_pos;
        if in_head >= n {
            true
        } else {
            self.tail.len() - self.tail_pos >= n - in_head
        }
    }

    /// The number of bytes left, or `usize::MAX` if there are more than that.
    pub fn remaining_len(&self) -> (n: usize)
        ensures
            n == if self.remaining().len() <= usize::MAX {
                self.remaining().len()
            } else {
                usize::MAX as nat
            },
    {
        proof {
            use_type_invariant(self);
        }
        let in_head: usize = self.head.len() - self.head_pos;
        let in_tail: usize = self.tail.len() - self.tail_pos;
        if in_tail <= usize::MAX - in_head {
            in_head + in_tail
        } else {
            usize::MAX
        }
    }

    /// The byte `k` places ahead, which must exist.
    fn byte_ahead(&self, k: usize) -> (b: u8)
        requires
            k < self.remaining().len(),
        ensures
            b == self.remaining()[k as int],
    {
        proof {
            use_type_invariant(self);
        }
        let in_head: usize = self.head.len() - self.head_pos;
        let in_tail: usize = self.tail.len() - self.tail_pos;
        assert(self.remaining().len() == in_head + in_tail);
        if k < in_head {
            self.head[self.head_pos + k]
        } else {
            self.tail[self.tail_pos + (k - in_head)]
        }
    }

    /// Moves `n` bytes forward.
    fn advance(&mut self, n: usize)
        requires
            n <= old(self).remaining().len(),
        ensures
            final(self).remaining() == old(self).remaining().skip(n as int),
    {
        proof {
            use_type_invariant(&*self);
        }
        let in_head: usize = self.head.len() - self.head_pos;
        let in_tail: usize = self.tail.len() - self.tail_pos;
        assert(self.remaining().len() == in_head + in_tail);
        if n <= in_head {
            self.head_pos = self.head_pos + n;
        } else {
            self.head_pos = self.head.len();
            self.tail_pos = self.tail_pos + (n - in_head);
        }
        assert(self.remaining() =~= old(self).remaining().skip(n as int));
    }

    /// The next byte, without consuming it.
    pub fn peek_u8(&self) -> (b: Option<u8>)
        ensures
            b == if self.remaining().len() > 0 {
                Some(self.remaining()[0])
            } else {
                None
            },
    {
        if self.has(1) {
            Some(self.byte_ahead(0))
        } else {
            None
        }
    }

    /// Consumes one byte.
    pub fn get_u8(&mut self) -> (b: u8)
        requires
            old(self).remaining().len() >= 1,
        ensures
            b == old(self).remaining()[0],
            final(self).remaining() == old(self).remaining().skip(1),
    {
        let b = self.byte_ahead(0);
        self.advance(1);
        b
    }

    /// Consumes a little-endian 16-bit integer.
    pub fn get_u16_le(&mut self) -> (x: u16)
        requires
            old(self).remaining().len() >= 2,
        ensures
            x == le16(old(self).remaining()),
            final(self).remaining() == old(self).remaining().skip(2),
    {
        let b0 = self.byte_ahead(0);
        let b1 = self.byte_ahead(1);
        self.advance(2);
        b0 as u16 + 256 * (b1 as u16)
    }

    /// Consumes a little-endian 32-bit integer.
    pub fn get_u32_le(&mut self) -> (x: u32)
        requires
            old(self).remaining().len() >= 4,
        ensures
            x == le32(old(self).remaining()),
            final(self).remaining() == old(self).remaining().skip(4),
    {
        let b0 = self.byte_ahead(0);
        let b1 = self.byte_ahead(1);
        let b2 = self.byte_ahead(2);
        let b3 = self.byte_ahead(3);
        self.advance(4);
        b0 as u32 + 256 * (b1 as u32) + 65536 * (b2 as u32) + 16777216 * (b3 as u32)
    }

    /// Consumes `n` bytes and returns a copy of them.
    pub fn take(&mut self, n: usize) -> (out: Vec<u8>)
        requires
            old(self).remaining().len() >= n,
        ensures
            out@ == old(self).remaining().take(n as int),
            final(self).remaining() == old(self).remaining().skip(n as int),
    {
        let mut out: Vec<u8> = Vec::new();
        let mut k: usize = 0;
        while k < n
            invariant
                k <= n <= self.remaining().len(),
                out@ == self.remaining().take(k as int),
            decreases n - k,
        {
            let b = self.byte_ahead(k);
            out.push(b);
            k = k + 1;
            assert(out@ =~= self.remaining().take(k as int));
        }
        self.advance(n);
        out
    }

    /// Consumes a zero-terminated string and returns the bytes before the zero.
    /// Without a zero byte ahead nothing is consumed.
    pub fn get_cstring(&mut self) -> (text: Option<Vec<u8>>)
        ensures
            match text {
                Some(t) => {
                    &&& nul_pos(old(self).remaining()) < old(self).remaining().len()
                    &&& t@ == old(self).remaining().take(nul_pos(old(self).remaining()))
                    &&& final(self).remaining() == old(self).remaining().skip(
                        nul_pos(old(self).remaining()) + 1,
                    )
                },
                None => {
                    &&& nul_pos(old(self).remaining()) == old(self).remaining().len()
                    &&& final(self).remaining() == old(self).remaining()
                },
            },
    {
        proof {
            use_type_invariant(&*self);
        }
        let ghost s = self.remaining();
        let ghost mut j: int = 0;
        let mut hp: usize = self.head_pos;
        let mut tp: usize = self.tail_pos;
        let mut out: Vec<u8> = Vec::new();
        assert(s.skip(0) =~= s);
        loop
            invariant
                *self == *old(self),
                s == self.remaining(),
                hp <= self.head@.len(),
                tp <= self.tail@.len(),
                0 <= j <= s.len(),
                self.head@.skip(hp as int) + self.tail@.skip(tp as int) == s.skip(j),
                out@ == s.take(j),
                nul_pos(s) == j + nul_pos(s.skip(j)),
            decreases s.len() - j,
        {
            let ghost t = s.skip(j);
            let b: u8;
            if hp < self.head.len() {
                b = self.head[hp];
                hp = hp + 1;
            } else if tp < self.tail.len() {
                b = self.tail[tp];
                tp = tp + 1;
            } else {
                assert(t.len() == 0);
                return None;
            }
            proof {
                assert(t.len() > 0);
                assert(b == t[0]);
                assert(t.drop_first() =~= s.skip(j + 1));
                assert(self.head@.skip(hp as int) + self.tail@.skip(tp as int) =~= s.skip(j + 1));
            }
            if b == 0 {
                *self = Cursor { head: self.head, tail: self.tail, head_pos: hp, tail_pos: tp };
                return Some(out);
            }
            out.push(b);
            proof {
                j = j + 1;
                assert(out@ =~= s.take(j));
            }
        }
    }
}

} // verus!
