//! Bounds-checked byte cursor: the only place input bytes are sliced.

use vstd::prelude::*;

use crate::error::Error;

verus! {

/// The unsigned integer stored little-endian in the four bytes `s[p..p + 4]`.
pub open spec fn le_u32(s: Seq<u8>, p: int) -> u32 {
    (s[p] as int + s[p + 1] as int * 0x100 + s[p + 2] as int * 0x1_0000
        + s[p + 3] as int * 0x100_0000) as u32
}

/// The unsigned integer stored big-endian in the four bytes `s[p..p + 4]`.
pub open spec fn be_u32(s: Seq<u8>, p: int) -> u32 {
    (s[p + 3] as int + s[p + 2] as int * 0x100 + s[p + 1] as int * 0x1_0000
        + s[p] as int * 0x100_0000) as u32
}

/// The unsigned integer stored little-endian in the eight bytes `s[p..p + 8]`.
pub open spec fn le_u64(s: Seq<u8>, p: int) -> u64 {
    (le_u32(s, p) as int + le_u32(s, p + 4) as int * 0x1_0000_0000) as u64
}

/// A read position over a borrowed byte slice.
#[derive(Debug)]
pub struct Cursor<'a> {
    data: &'a [u8],
    pos: usize,
}

impl<'a> Clone for Cursor<'a> {
    fn clone(&self) -> (copy: Self)
        ensures
            copy == *self,
    {
        Cursor { data: self.data, pos: self.pos }
    }
}

impl<'a> Cursor<'a> {
    /// The bytes the cursor reads from.
    pub closed spec fn data(&self) -> Seq<u8> {
        self.data@
    }

    /// The index of the next byte to read.
    pub closed spec fn pos(&self) -> int {
        self.pos as int
    }

    /// The read position never passes the end of the data.
    pub closed spec fn wf(&self) -> bool {
        self.pos <= self.data@.len()
    }

    /// A cursor at the start of `data`.
    pub fn new(data: &'a [u8]) -> (cursor: Self)
        ensures
            cursor.wf(),
            cursor.data() == data@,
            cursor.pos() == 0,
    {
        Cursor { data, pos: 0 }
    }

    /// The number of bytes left to read.
    pub fn remaining(&self) -> (n: usize)
        requires
            self.wf(),
        ensures
            n == self.data().len() - self.pos(),
            0 <= self.pos() <= self.data().len(),
            n <= self.data().len(),
    {
        self.data.len() - self.pos
    }

    /// Takes the next `n` bytes, or fails with `UnexpectedEof` without moving
    /// when fewer than `n` bytes are left.
    pub fn take(&mut self, n: usize) -> (r: Result<&'a [u8], Error>)
        requires
            old(self).wf(),
        ensures
            final(self).wf(),
            final(self).data() == old(self).data(),
            match r {
                Ok(bytes) => {
                    &&& old(self).pos() + n <= old(self).data().len()
                    &&& bytes@ == old(self).data().subrange(old(self).pos(), old(self).pos() + n)
                    &&& final(self).pos() == old(self).pos() + n
                },
                Err(e) => {
                    &&& old(self).pos() + n > old(self).data().len()
                    &&& e == Error::UnexpectedEof
                    &&& final(self).pos() == old(self).pos()
                },
            },
    {
        let len = self.data.len();
        let end = match self.pos.checked_add(n) {
            Some(end) => end,
            None => return Err(Error::UnexpectedEof),
        };
        if end > len {
            return Err(Error::UnexpectedEof);
        }
        let bytes = &self.data[self.pos..end];
        self.pos = end;
        Ok(bytes)
    }

    /// Skips the next `n` bytes, failing like [`Cursor::take`].
    pub fn skip(&mut self, n: usize) -> (r: Result<(), Error>)
        requires
            old(self).wf(),
        ensures
            final(self).wf(),
            final(self).data() == old(self).data(),
            match r {
                Ok(()) => {
                    &&& old(self).pos() + n <= old(self).data().len()
                    &&& final(self).pos() == old(self).pos() + n
                },
                Err(e) => {
                    &&& old(self).pos() + n > old(self).data().len()
                    &&& e == Error::UnexpectedEof
                    &&& final(self).pos() == old(self).pos()
                },
            },
    {
        match self.take(n) {
            Ok(_) => Ok(()),
            Err(e) => Err(e),
        }
    }

    /// Reads the next four bytes.
    pub fn array(&mut self) -> (r: Result<[u8; 4], Error>)
        requires
            old(self).wf(),
        ensures
            final(self).wf(),
            final(self).data() == old(self).data(),
            match r {
                Ok(bytes) => {
                    &&& old(self).pos() + 4 <= old(self).data().len()
                    &&& bytes@ == old(self).data().subrange(old(self).pos(), old(self).pos() + 4)
                    &&& final(self).pos() == old(self).pos() + 4
                },
                Err(e) => {
                    &&& old(self).pos() + 4 > old(self).data().len()
                    &&& e == Error::UnexpectedEof
                    &&& final(self).pos() == old(self).pos()
                },
            },
    {
        let b = self.take(4)?;
        let bytes = [b[0], b[1], b[2], b[3]];
        assert(bytes@ =~= b@);
        Ok(bytes)
    }

    /// Reads the next eight bytes.
    pub fn array8(&mut self) -> (r: Result<[u8; 8], Error>)
        requires
            old(self).wf(),
        ensures
            final(self).wf(),
            final(self).data() == old(self).data(),
            match r {
                Ok(bytes) => {
                    &&& old(self).pos() + 8 <= old(self).data().len()
                    &&& bytes@ == old(self).data().subrange(old(self).pos(), old(self).pos() + 8)
                    &&& final(self).pos() == old(self).pos() + 8
                },
                Err(e) => {
                    &&& old(self).pos() + 8 > old(self).data().len()
                    &&& e == Error::UnexpectedEof
                    &&& final(self).pos() == old(self).pos()
                },
            },
    {
        let b = self.take(8)?;
        let bytes = [b[0], b[1], b[2], b[3], b[4], b[5], b[6], b[7]];
        assert(bytes@ =~= b@);
        Ok(bytes)
    }

    /// Reads four bytes and checks them against `tag`, failing with `err` on a
    /// mismatch and with `UnexpectedEof` when fewer than four bytes are left.
    pub fn expect_tag(&mut self, tag: [u8; 4], err: Error) -> (r: Result<(), Error>)
        requires
            old(self).wf(),
        ensures
            final(self).wf(),
            final(self).data() == old(self).data(),
            old(self).pos() + 4 > old(self).data().len() ==> {
                &&& r == Err::<(), Error>(Error::UnexpectedEof)
                &&& final(self).pos() == old(self).pos()
            },
            old(self).pos() + 4 <= old(self).data().len() ==> {
                &&& final(self).pos() == old(self).pos() + 4
                &&& (old(self).data().subrange(old(self).pos(), old(self).pos() + 4) == tag@
                    ==> r == Ok::<(), Error>(()))
                &&& (old(self).data().subrange(old(self).pos(), old(self).pos() + 4) != tag@
                    ==> r == Err::<(), Error>(err))
            },
    {
        let found = self.array()?;
        if found[0] == tag[0] && found[1] == tag[1] && found[2] == tag[2] && found[3] == tag[3] {
            assert(found@ =~= tag@);
            Ok(())
        } else {
            assert(found@ != tag@) by {
                if found@ == tag@ {
                    assert(found@[0] == tag@[0] && found@[1] == tag@[1]);
                    assert(found@[2] == tag@[2] && found@[3] == tag@[3]);
                }
            }
            Err(err)
        }
    }

    /// Reads a big-endian `u32`.
    pub fn u32_be(&mut self) -> (r: Result<u32, Error>)
        requires
            old(self).wf(),
        ensures
            final(self).wf(),
            final(self).data() == old(self).data(),
            match r {
                Ok(v) => {
                    &&& old(self).pos() + 4 <= old(self).data().len()
                    &&& v == be_u32(old(self).data(), old(self).pos())
                    &&& final(self).pos() == old(self).pos() + 4
                },
                Err(e) => {
                    &&& old(self).pos() + 4 > old(self).data().len()
                    &&& e == Error::UnexpectedEof
                    &&& final(self).pos() == old(self).pos()
                },
            },
    {
        let b = self.array()?;
        Ok(b[3] as u32 + b[2] as u32 * 0x100 + b[1] as u32 * 0x1_0000 + b[0] as u32 * 0x100_0000)
    }

    /// Reads a little-endian `u32`.
    pub fn u32_le(&mut self) -> (r: Result<u32, Error>)
        requires
            old(self).wf(),
        ensures
            final(self).wf(),
            final(self).data() == old(self).data(),
            match r {
                Ok(v) => {
                    &&& old(self).pos() + 4 <= old(self).data().len()
                    &&& v == le_u32(old(self).data(), old(self).pos())
                    &&& final(self).pos() == old(self).pos() + 4
                },
                Err(e) => {
                    &&& old(self).pos() + 4 > old(self).data().len()
                    &&& e == Error::UnexpectedEof
                    &&& final(self).pos() == old(self).pos()
                },
            },
    {
        let b = self.array()?;
        Ok(b[0] as u32 + b[1] as u32 * 0x100 + b[2] as u32 * 0x1_0000 + b[3] as u32 * 0x100_0000)
    }

    /// Reads a little-endian `u64`: the raw bits of an on-disk `f64`.
    pub fn u64_le(&mut self) -> (r: Result<u64, Error>)
        requires
            old(self).wf(),
        ensures
            final(self).wf(),
            final(self).data() == old(self).data(),
            match r {
                Ok(v) => {
                    &&& old(self).pos() + 8 <= old(self).data().len()
                    &&& v == le_u64(old(self).data(), old(self).pos())
                    &&& final(self).pos() == old(self).pos() + 8
                },
                Err(e) => {
                    &&& old(self).pos() + 8 > old(self).data().len()
                    &&& e == Error::UnexpectedEof
                    &&& final(self).pos() == old(self).pos()
                },
            },
    {
        let b = self.array8()?;
        let low: u64 = b[0] as u64 + b[1] as u64 * 0x100 + b[2] as u64 * 0x1_0000 + b[3] as u64
            * 0x100_0000;
        let high: u64 = b[4] as u64 + b[5] as u64 * 0x100 + b[6] as u64 * 0x1_0000 + b[7] as u64
            * 0x100_0000;
        Ok(low + high * 0x1_0000_0000)
    }
}

} // verus!
