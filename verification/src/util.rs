//! A position-carrying cursor over the cartridge bytes, with little-endian
//! typed reads.  Every read either returns the bytes at the cursor and
//! advances, or reports a short read and leaves the cursor in place.

use crate::model::SmError;
use vstd::prelude::*;

verus! {

/// The 16-bit little-endian value stored at byte offset `i` of `s`.
pub open spec fn le16(s: Seq<u8>, i: int) -> int {
    s[i] + 0x100 * s[i + 1]
}

/// The 24-bit little-endian value stored at byte offset `i` of `s`.
pub open spec fn le24(s: Seq<u8>, i: int) -> int {
    s[i] + 0x100 * s[i + 1] + 0x10000 * s[i + 2]
}

/// A cursor over a borrowed byte slice, tracking an absolute position.
pub struct RomReader<'a> {
    data: &'a [u8],
    pos: usize,
}

impl<'a> RomReader<'a> {
    /// The whole underlying byte slice.
    pub closed spec fn bytes(self) -> Seq<u8> {
        self.data@
    }

    /// The absolute position of the cursor.
    pub closed spec fn pos(self) -> int {
        self.pos as int
    }

    /// The cursor never passes the end of the slice.
    pub open spec fn wf(self) -> bool {
        0 <= self.pos() <= self.bytes().len()
    }

    pub fn new(data: &'a [u8], base_offset: usize) -> (r: RomReader<'a>)
        requires
            base_offset <= data@.len(),
        ensures
            r.bytes() == data@,
            r.pos() == base_offset,
            r.wf(),
    {
        RomReader { data, pos: base_offset }
    }

    /// The absolute cartridge offset the next read will come from.
    pub fn cur_address(&self) -> (r: usize)
        ensures
            r == self.pos(),
    {
        self.pos
    }

    /// Move the cursor to the absolute position `pos`.
    pub fn seek(&mut self, pos: usize)
        requires
            pos <= old(self).bytes().len(),
        ensures
            final(self).bytes() == old(self).bytes(),
            final(self).pos() == pos,
            final(self).wf(),
    {
        self.pos = pos;
    }

    /// Advance the cursor by `n` bytes.
    pub fn skip(&mut self, n: usize)
        requires
            old(self).wf(),
            old(self).pos() + n <= old(self).bytes().len(),
        ensures
            final(self).bytes() == old(self).bytes(),
            final(self).pos() == old(self).pos() + n,
            final(self).wf(),
    {
        proof {
            assert(self.data.len() == self.bytes().len());
        }
        self.pos = self.pos + n;
    }

    pub fn read_u8(&mut self) -> (r: Result<u8, SmError>)
        requires
            old(self).wf(),
        ensures
            final(self).bytes() == old(self).bytes(),
            final(self).wf(),
            old(self).pos() + 1 <= old(self).bytes().len() ==> {
                &&& r matches Ok(b) && b == old(self).bytes()[old(self).pos()]
                &&& final(self).pos() == old(self).pos() + 1
            },
            old(self).pos() + 1 > old(self).bytes().len() ==> {
                &&& r matches Err(e) && e is ShortRead
                &&& final(self).pos() == old(self).pos()
            },
    {
        if self.pos < self.data.len() {
            let b = self.data[self.pos];
            self.pos = self.pos + 1;
            Ok(b)
        } else {
            Err(SmError::ShortRead { needed: 1, got: 0 })
        }
    }

    pub fn read_u16_le(&mut self) -> (r: Result<u16, SmError>)
        requires
            old(self).wf(),
        ensures
            final(self).bytes() == old(self).bytes(),
            final(self).wf(),
            old(self).pos() + 2 <= old(self).bytes().len() ==> {
                &&& r matches Ok(v) && v == le16(old(self).bytes(), old(self).pos())
                &&& final(self).pos() == old(self).pos() + 2
            },
            old(self).pos() + 2 > old(self).bytes().len() ==> {
                &&& r matches Err(e) && e is ShortRead
                &&& final(self).pos() == old(self).pos()
            },
    {
        if self.data.len() - self.pos >= 2 {
            let lo = self.data[self.pos];
            let hi = self.data[self.pos + 1];
            self.pos = self.pos + 2;
            Ok(lo as u16 + 0x100 * hi as u16)
        } else {
            Err(SmError::ShortRead { needed: 2, got: self.data.len() - self.pos })
        }
    }

    pub fn read_u24_le(&mut self) -> (r: Result<u32, SmError>)
        requires
            old(self).wf(),
        ensures
            final(self).bytes() == old(self).bytes(),
            final(self).wf(),
            old(self).pos() + 3 <= old(self).bytes().len() ==> {
                &&& r matches Ok(v) && v == le24(old(self).bytes(), old(self).pos())
                &&& final(self).pos() == old(self).pos() + 3
            },
            old(self).pos() + 3 > old(self).bytes().len() ==> {
                &&& r matches Err(e) && e is ShortRead
                &&& final(self).pos() == old(self).pos()
            },
    {
        if self.data.len() - self.pos >= 3 {
            let b0 = self.data[self.pos];
            let b1 = self.data[self.pos + 1];
            let b2 = self.data[self.pos + 2];
            self.pos = self.pos + 3;
            Ok(b0 as u32 + 0x100 * b1 as u32 + 0x10000 * b2 as u32)
        } else {
            Err(SmError::ShortRead { needed: 3, got: self.data.len() - self.pos })
        }
    }

    /// Read up to `n` bytes, fewer when the slice ends first.
    pub fn read(&mut self, n: usize) -> (r: Vec<u8>)
        requires
            old(self).wf(),
        ensures
            final(self).bytes() == old(self).bytes(),
            final(self).wf(),
            final(self).pos() == if old(self).pos() + n <= old(self).bytes().len() {
                old(self).pos() + n
            } else {
                old(self).bytes().len() as int
            },
            r@ == old(self).bytes().subrange(old(self).pos(), final(self).pos()),
    {
        let mut r: Vec<u8> = Vec::new();
        let end = if n <= self.data.len() - self.pos {
            self.pos + n
        } else {
            self.data.len()
        };
        while self.pos < end
            invariant
                self.bytes() == old(self).bytes(),
                old(self).pos() <= self.pos() <= end <= self.bytes().len(),
                r@ == old(self).bytes().subrange(old(self).pos(), self.pos()),
            decreases end - self.pos,
        {
            r.push(self.data[self.pos]);
            self.pos = self.pos + 1;
            proof {
                assert(r@ =~= old(self).bytes().subrange(old(self).pos(), self.pos()));
            }
        }
        r
    }
}

} // verus!
