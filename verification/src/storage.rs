//! Random-access byte storage: what the buffer and the tree ask of a file.
//!
//! A store is viewed as the sequence of the bytes it holds. `MemFile` keeps them in
//! memory; a store over a file of the operating system is written outside this
//! library, against the contracts of `Storage`.

use vstd::prelude::*;
use crate::error::Error;

verus! {

/// The bytes of `b` from `pos` on, at most `len` of them: what a read of `len`
/// bytes at `pos` returns.
pub open spec fn window(b: Seq<u8>, pos: int, len: int) -> Seq<u8>
    recommends
        0 <= pos,
        0 <= len,
{
    if pos >= b.len() {
        Seq::empty()
    } else if pos + len >= b.len() {
        b.subrange(pos, b.len() as int)
    } else {
        b.subrange(pos, pos + len)
    }
}

/// The byte of `b` at `p`, and zero where `b` has none.
pub open spec fn byte_or_zero(b: Seq<u8>, p: int) -> u8 {
    if 0 <= p < b.len() {
        b[p]
    } else {
        0u8
    }
}

/// `b` after `d` was written at `pos`: `d` replaces what was there, the store grows
/// as far as `d` reaches, and a gap between the old end and `pos` reads as zeros.
/// Writing nothing changes nothing.
pub open spec fn overwritten(b: Seq<u8>, pos: int, d: Seq<u8>) -> Seq<u8>
    recommends
        0 <= pos,
{
    if d.len() == 0 {
        b
    } else {
        Seq::new(
            if b.len() >= pos + d.len() {
                b.len()
            } else {
                (pos + d.len()) as nat
            },
            |i: int|
                if pos <= i < pos + d.len() {
                    d[i - pos]
                } else {
                    byte_or_zero(b, i)
                },
        )
    }
}

/// Writing at the end of a store appends.
pub proof fn lemma_overwritten_at_end(b: Seq<u8>, d: Seq<u8>)
    ensures
        overwritten(b, b.len() as int, d) == b + d,
{
    assert(overwritten(b, b.len() as int, d) =~= b + d);
}

/// A write changes nothing before the position written at, nor after the bytes
/// written.
pub proof fn lemma_overwritten_window(b: Seq<u8>, pos: int, d: Seq<u8>, at: int, len: int)
    requires
        0 <= pos <= b.len(),
        0 <= at,
        0 <= len,
        at + len <= pos || pos + d.len() <= at,
        at + len <= b.len(),
    ensures
        window(overwritten(b, pos, d), at, len) == window(b, at, len),
{
    assert(window(overwritten(b, pos, d), at, len) =~= window(b, at, len));
}

/// The bytes written stand where they were written.
pub proof fn lemma_overwritten_holds(b: Seq<u8>, pos: int, d: Seq<u8>)
    requires
        0 <= pos <= b.len(),
        d.len() > 0,
    ensures
        window(overwritten(b, pos, d), pos, d.len() as int) == d,
{
    assert(window(overwritten(b, pos, d), pos, d.len() as int) =~= d);
}

/// What a write of `d` at `pos` that failed may have made of the bytes `b`: each
/// byte of `after`, and each that `after` lacks, reads as it read in `b` or as
/// `d` has it, and `after` ends where `b` ended or `d` could reach.
pub open spec fn partly_written(b: Seq<u8>, after: Seq<u8>, pos: int, d: Seq<u8>) -> bool {
    &&& after.len() <= b.len() || after.len() <= pos + d.len()
    &&& forall|p: int|
        #![trigger byte_or_zero(after, p)]
        byte_or_zero(after, p) == byte_or_zero(b, p) || (pos <= p < pos + d.len()
            && byte_or_zero(after, p) == d[p - pos])
}

/// A store of bytes that is read and written at given positions.
pub trait Storage {
    /// The bytes held. A store states them by giving this function a body of its
    /// own; one that leaves it as it is, because only the operating system knows
    /// its bytes, is held to the contracts below by its author alone.
    open spec fn bytes(&self) -> Seq<u8> {
        Seq::empty()
    }

    /// No call on the store fails, but a write for which the store has no room. A
    /// store that can say so gives this function a body of its own; for one that
    /// leaves it as it is, no call is owed success.
    open spec fn steady(&self) -> bool {
        false
    }

    /// The offset up to which a steady store takes what is written: a write that
    /// ends there or before it does not fail.
    open spec fn room(&self) -> int {
        0
    }

    /// The number of bytes held. A steady store tells it.
    fn size(&self) -> (r: Result<u64, Error>)
        ensures
            r matches Ok(n) ==> n == self.bytes().len(),
            self.steady() ==> r is Ok,
    ;

    /// Reads `len` bytes at `pos`, or as many as there are from `pos` on. The store
    /// does not change.
    fn read_at(&mut self, pos: u64, len: usize) -> (r: Result<Vec<u8>, Error>)
        ensures
            final(self).bytes() == old(self).bytes(),
            final(self).steady() == old(self).steady(),
            final(self).room() == old(self).room(),
            r matches Ok(v) ==> v@ == window(old(self).bytes(), pos as int, len as int),
            old(self).steady() ==> r is Ok && old(self).bytes().len() <= u64::MAX,
    ;

    /// Empties the store. After a failure the store holds no more than it held.
    fn truncate(&mut self) -> (r: Result<(), Error>)
        ensures
            final(self).steady() == old(self).steady(),
            final(self).room() == old(self).room(),
            r is Ok ==> final(self).bytes() == Seq::<u8>::empty(),
            r is Err ==> final(self).bytes().len() <= old(self).bytes().len(),
            old(self).steady() ==> r is Ok,
    ;

    /// Hands what was written on to where it is kept. The bytes held do not
    /// change.
    fn flush(&mut self) -> (r: Result<(), Error>)
        ensures
            final(self).bytes() == old(self).bytes(),
            final(self).steady() == old(self).steady(),
            final(self).room() == old(self).room(),
            old(self).steady() ==> r is Ok,
    ;

    /// Writes all of `data` at `pos`. After a failure each byte read is the one
    /// that was read before or the one that was to be written there, and the store
    /// holds none beyond those that were there and those that the write could
    /// reach.
    fn write_at(&mut self, pos: u64, data: &[u8]) -> (r: Result<(), Error>)
        requires
            pos + data@.len() <= u64::MAX,
        ensures
            final(self).steady() == old(self).steady(),
            final(self).room() == old(self).room(),
            r is Ok ==> final(self).bytes() == overwritten(old(self).bytes(), pos as int, data@),
            r is Err ==> partly_written(old(self).bytes(), final(self).bytes(), pos as int, data@),
            old(self).steady() && pos + data@.len() <= old(self).room() ==> r is Ok,
    ;
}

/// A store in memory.
pub struct MemFile {
    data: Vec<u8>,
}

impl MemFile {
    /// An empty store.
    pub fn new() -> (r: Self)
        ensures
            r.bytes() == Seq::<u8>::empty(),
    {
        MemFile { data: Vec::new() }
    }

    /// A store that holds `data`.
    pub fn from_bytes(data: Vec<u8>) -> (r: Self)
        ensures
            r.bytes() == data@,
    {
        MemFile { data }
    }

    /// The bytes held.
    pub fn as_slice(&self) -> (r: &[u8])
        ensures
            r@ == self.bytes(),
    {
        self.data.as_slice()
    }
}

/// The error of a store that cannot hold what it is asked to.
///
/// Calls `std::io::Error::from` with the kind `OutOfMemory`. Nothing is claimed
/// of the error that comes back.
#[verifier::external_body]
fn out_of_space() -> std::io::Error {
    std::io::Error::from(std::io::ErrorKind::OutOfMemory)
}

impl Storage for MemFile {
    closed spec fn bytes(&self) -> Seq<u8> {
        self.data@
    }

    /// A store in memory does not fail.
    open spec fn steady(&self) -> bool {
        true
    }

    /// A store in memory takes what an index can reach.
    open spec fn room(&self) -> int {
        usize::MAX as int
    }

    fn size(&self) -> (r: Result<u64, Error>)
        ensures
            r is Ok,
    {
        Ok(self.data.len() as u64)
    }

    fn truncate(&mut self) -> (r: Result<(), Error>)
        ensures
            r is Ok,
    {
        self.data.clear();
        Ok(())
    }

    fn flush(&mut self) -> (r: Result<(), Error>)
        ensures
            r is Ok,
    {
        Ok(())
    }

    fn read_at(&mut self, pos: u64, len: usize) -> (r: Result<Vec<u8>, Error>)
        ensures
            r is Ok,
    {
        let have = self.data.len();
        let mut out: Vec<u8> = Vec::new();
        if pos >= have as u64 {
            return Ok(out);
        }
        let from = pos as usize;
        let to = if len >= have - from {
            have
        } else {
            from + len
        };
        let mut i = from;
        while i < to
            invariant
                from <= i <= to <= self.data@.len(),
                out@ == self.data@.subrange(from as int, i as int),
            decreases to - i,
        {
            out.push(self.data[i]);
            i += 1;
            assert(self.data@.subrange(from as int, i as int) == self.data@.subrange(
                from as int,
                i - 1,
            ).push(self.data@[i - 1]));
        }
        Ok(out)
    }

    fn write_at(&mut self, pos: u64, data: &[u8]) -> (r: Result<(), Error>)
        ensures
            pos + data@.len() <= usize::MAX ==> r is Ok,
    {
        let n = data.len();
        if n == 0 {
            return Ok(());
        }
        if pos > usize::MAX as u64 || n > usize::MAX - pos as usize {
            return Err(Error::Io(out_of_space()));
        }
        let from = pos as usize;
        let ghost before = self.data@;
        while self.data.len() < from
            invariant
                before.len() <= self.data@.len() || self.data@.len() <= from,
                self.data@.len() <= from || self.data@ == before,
                forall|i: int| 0 <= i < self.data@.len() ==> self.data@[i] == byte_or_zero(before, i),
                self.data@.len() >= before.len(),
            decreases from - self.data@.len(),
        {
            self.data.push(0u8);
        }
        let mut k: usize = 0;
        while k < n
            invariant
                n == data@.len(),
                from + n <= usize::MAX,
                k <= n,
                self.data@.len() >= from + k,
                self.data@.len() >= before.len(),
                self.data@.len() == if before.len() >= from + k {
                    before.len()
                } else {
                    (from + k) as nat
                },
                forall|i: int|
                    0 <= i < self.data@.len() ==> self.data@[i] == if from <= i < from + k {
                        data@[i - from]
                    } else {
                        byte_or_zero(before, i)
                    },
            decreases n - k,
        {
            if from + k < self.data.len() {
                self.data.set(from + k, data[k]);
            } else {
                self.data.push(data[k]);
            }
            k += 1;
        }
        assert(self.data@ =~= overwritten(before, pos as int, data@));
        Ok(())
    }
}

} // verus!
