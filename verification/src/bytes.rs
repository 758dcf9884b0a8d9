//! Big-endian integers over a byte slice, and a cursor that reads them.

use vstd::prelude::*;
use vstd::slice::slice_subrange;
use byteorder::BigEndian;
use byteorder::ByteOrder;
use crate::error::Error;

verus! {

/// The number that a run of bytes spells, most significant byte first.
pub open spec fn be_value(bytes: Seq<u8>) -> nat
    decreases bytes.len(),
{
    if bytes.len() == 0 {
        0
    } else {
        be_value(bytes.drop_last()) * 256 + bytes.last() as nat
    }
}

/// 256 to the power `n`.
pub open spec fn pow256(n: nat) -> nat
    decreases n,
{
    if n == 0 {
        1
    } else {
        256 * pow256((n - 1) as nat)
    }
}

/// A run of `n` bytes spells a number below 256 to the power `n`.
pub proof fn lemma_be_value_bound(bytes: Seq<u8>)
    ensures
        be_value(bytes) < pow256(bytes.len()),
    decreases bytes.len(),
{
    if bytes.len() > 0 {
        lemma_be_value_bound(bytes.drop_last());
    }
}

/// The first powers of 256.
pub proof fn lemma_pow256_values()
    ensures
        pow256(0) == 1,
        pow256(1) == 0x100,
        pow256(2) == 0x1_0000,
        pow256(3) == 0x100_0000,
        pow256(4) == 0x1_0000_0000,
        pow256(5) == 0x100_0000_0000,
{
    reveal_with_fuel(pow256, 6);
}

/// `<BigEndian as ByteOrder>::read_u16` of byteorder: the number spelled by
/// the first two bytes of `buf`. It panics on a shorter slice.
#[verifier::external_body]
pub(crate) fn be_u16(buf: &[u8]) -> (v: u16)
    requires
        buf@.len() >= 2,
    ensures
        v == be_value(buf@.subrange(0, 2)),
{
    BigEndian::read_u16(buf)
}

/// `<BigEndian as ByteOrder>::read_u32` of byteorder: the number spelled by
/// the first four bytes of `buf`. It panics on a shorter slice.
#[verifier::external_body]
fn be_u32(buf: &[u8]) -> (v: u32)
    requires
        buf@.len() >= 4,
    ensures
        v == be_value(buf@.subrange(0, 4)),
{
    BigEndian::read_u32(buf)
}

/// `<BigEndian as ByteOrder>::read_uint` of byteorder: the number spelled by
/// the first `nbytes` bytes of `buf`. It panics unless `nbytes` is between 1
/// and 8 and `buf` holds that many bytes.
#[verifier::external_body]
fn be_uint(buf: &[u8], nbytes: usize) -> (v: u64)
    requires
        1 <= nbytes <= 8,
        nbytes <= buf@.len(),
    ensures
        v == be_value(buf@.subrange(0, nbytes as int)),
{
    BigEndian::read_uint(buf, nbytes)
}

/// A read position over the bytes of an archive.
pub struct Reader<'a> {
    pub data: &'a [u8],
    pub pos: usize,
}

impl<'a> Reader<'a> {
    /// The position lies within the data, or at its end.
    pub open spec fn wf(&self) -> bool {
        self.pos <= self.data@.len()
    }

    /// The `n` bytes at the position, when that many are left.
    pub open spec fn window(&self, n: nat) -> Seq<u8> {
        self.data@.subrange(self.pos as int, self.pos + n)
    }

    /// Number of bytes between the position and the end.
    pub open spec fn remaining(&self) -> nat {
        (self.data@.len() - self.pos) as nat
    }

    /// What a read of `n` bytes as one big-endian number does to a reader:
    /// it yields the number and moves on, or reports the short read and
    /// stays.
    pub open spec fn reads(&self, after: &Reader<'a>, n: nat, r: Result<nat, Error>) -> bool {
        &&& after.data == self.data
        &&& after.wf()
        &&& if self.remaining() >= n {
            &&& r == Ok::<nat, Error>(be_value(self.window(n)))
            &&& after.pos == self.pos + n
        } else {
            &&& r == Err::<nat, Error>(Error::Io)
            &&& after.pos == self.pos
        }
    }

    /// A reader at the start of the data.
    pub fn new(data: &'a [u8]) -> (r: Reader<'a>)
        ensures
            r.data == data,
            r.pos == 0,
            r.wf(),
    {
        Reader { data, pos: 0 }
    }

    /// The current position, counted from the start of the data.
    pub fn position(&self) -> (p: usize)
        ensures
            p == self.pos,
    {
        self.pos
    }

    /// Moves to an absolute position. Fails if it lies beyond the end.
    pub fn seek(&mut self, to: u64) -> (r: Result<(), Error>)
        requires
            old(self).wf(),
        ensures
            final(self).data == old(self).data,
            final(self).wf(),
            to <= old(self).data@.len() ==> r is Ok && final(self).pos == to,
            to > old(self).data@.len() ==> r == Err::<(), Error>(Error::Io) && final(self).pos == old(
                self,
            ).pos,
    {
        if to <= self.data.len() as u64 {
            self.pos = to as usize;
            Ok(())
        } else {
            Err(Error::Io)
        }
    }

    /// The next `n` bytes, without moving.
    pub fn peek_bytes(&self, n: usize) -> (r: Result<&'a [u8], Error>)
        requires
            self.wf(),
        ensures
            self.remaining() >= n ==> r is Ok && r->Ok_0@ == self.window(n as nat),
            self.remaining() < n ==> r == Err::<&[u8], Error>(Error::Io),
    {
        if self.data.len() - self.pos >= n {
            Ok(slice_subrange(self.data, self.pos, self.pos + n))
        } else {
            Err(Error::Io)
        }
    }

    /// The next `n` bytes; the position moves past them.
    pub fn read_bytes(&mut self, n: usize) -> (r: Result<&'a [u8], Error>)
        requires
            old(self).wf(),
        ensures
            final(self).data == old(self).data,
            final(self).wf(),
            old(self).remaining() >= n ==> r is Ok && r->Ok_0@ == old(self).window(n as nat)
                && final(self).pos == old(self).pos + n,
            old(self).remaining() < n ==> r == Err::<&[u8], Error>(Error::Io) && final(self).pos
                == old(self).pos,
    {
        if self.data.len() - self.pos >= n {
            let out = slice_subrange(self.data, self.pos, self.pos + n);
            self.pos = self.pos + n;
            Ok(out)
        } else {
            Err(Error::Io)
        }
    }

    /// Reads one byte.
    pub fn read_u8(&mut self) -> (r: Result<u8, Error>)
        requires
            old(self).wf(),
        ensures
            old(self).reads(
                final(self),
                1,
                match r {
                    Ok(v) => Ok(v as nat),
                    Err(e) => Err(e),
                },
            ),
    {
        if self.data.len() - self.pos >= 1 {
            let v: u8 = self.data[self.pos];
            proof {
                let w = self.window(1);
                assert(w.drop_last() =~= Seq::<u8>::empty());
                reveal_with_fuel(be_value, 2);
                assert(be_value(w) == v as nat);
            }
            self.pos = self.pos + 1;
            Ok(v)
        } else {
            Err(Error::Io)
        }
    }

    /// Reads an unsigned number of two bytes.
    pub fn read_u16(&mut self) -> (r: Result<u16, Error>)
        requires
            old(self).wf(),
        ensures
            old(self).reads(
                final(self),
                2,
                match r {
                    Ok(v) => Ok(v as nat),
                    Err(e) => Err(e),
                },
            ),
    {
        if self.data.len() - self.pos >= 2 {
            let buf = slice_subrange(self.data, self.pos, self.pos + 2);
            assert(buf@.subrange(0, 2) =~= self.window(2));
            let v: u16 = be_u16(buf);
            self.pos = self.pos + 2;
            Ok(v)
        } else {
            Err(Error::Io)
        }
    }

    /// Reads an unsigned number of four bytes.
    pub fn read_u32(&mut self) -> (r: Result<u32, Error>)
        requires
            old(self).wf(),
        ensures
            old(self).reads(
                final(self),
                4,
                match r {
                    Ok(v) => Ok(v as nat),
                    Err(e) => Err(e),
                },
            ),
    {
        if self.data.len() - self.pos >= 4 {
            let buf = slice_subrange(self.data, self.pos, self.pos + 4);
            assert(buf@.subrange(0, 4) =~= self.window(4));
            let v: u32 = be_u32(buf);
            self.pos = self.pos + 4;
            Ok(v)
        } else {
            Err(Error::Io)
        }
    }

    /// Reads an unsigned number of `nbytes` bytes, at most eight.
    pub fn read_uint(&mut self, nbytes: usize) -> (r: Result<u64, Error>)
        requires
            old(self).wf(),
            1 <= nbytes <= 8,
        ensures
            old(self).reads(
                final(self),
                nbytes as nat,
                match r {
                    Ok(v) => Ok(v as nat),
                    Err(e) => Err(e),
                },
            ),
    {
        if self.data.len() - self.pos >= nbytes {
            let buf = slice_subrange(self.data, self.pos, self.pos + nbytes);
            assert(buf@.subrange(0, nbytes as int) =~= self.window(nbytes as nat));
            let v: u64 = be_uint(buf, nbytes);
            self.pos = self.pos + nbytes;
            Ok(v)
        } else {
            Err(Error::Io)
        }
    }
}

} // verus!
