//! A decoding position within an owned byte buffer.
//!
//! Decoders advance the position by exactly the number of bytes they consume;
//! the buffer itself is never changed.

use vstd::prelude::*;
use vstd::slice::slice_subrange;

verus! {

/// An owned byte buffer together with how far decoding has progressed.
pub struct ByteCursor {
    pub bytes: Vec<u8>,
    pub pos: usize,
}

impl ByteCursor {
    /// The position never passes the end of the buffer.
    pub open spec fn wf(&self) -> bool {
        self.pos <= self.bytes@.len()
    }

    /// The bytes not yet consumed.
    pub open spec fn remaining(&self) -> Seq<u8> {
        self.bytes@.skip(self.pos as int)
    }

    pub fn new(bytes: Vec<u8>) -> (c: Self)
        ensures
            c.bytes@ == bytes@,
            c.pos == 0,
            c.wf(),
            c.remaining() == bytes@,
    {
        let c = ByteCursor { bytes, pos: 0 };
        proof {
            assert(c.remaining() =~= c.bytes@);
        }
        c
    }

    /// How many bytes are not yet consumed.
    pub fn remaining_len(&self) -> (n: usize)
        requires
            self.wf(),
        ensures
            n == self.remaining().len(),
    {
        self.bytes.len() - self.pos
    }

    /// Borrow the bytes not yet consumed.
    pub fn remaining_slice(&self) -> (s: &[u8])
        requires
            self.wf(),
        ensures
            s@ == self.remaining(),
    {
        let s = slice_subrange(self.bytes.as_slice(), self.pos, self.bytes.len());
        proof {
            assert(s@ =~= self.remaining());
        }
        s
    }

    /// Consume `n` bytes.
    pub fn advance(&mut self, n: usize)
        requires
            old(self).wf(),
            n <= old(self).remaining().len(),
        ensures
            final(self).wf(),
            final(self).bytes@ == old(self).bytes@,
            final(self).pos == old(self).pos + n,
    {
        let bound: usize = self.bytes.len();
        proof {
            assert(self.remaining().len() == self.bytes@.len() - self.pos);
            assert(self.pos + n <= bound);
        }
        self.pos = self.pos + n;
    }
}

} // verus!
