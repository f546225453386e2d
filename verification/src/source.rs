//! Byte sources: the cursor-over-bytes abstraction that every reader in this
//! crate is built from, and an in-memory source.

use vstd::prelude::*;

verus! {

/// Why a source could not deliver.
#[derive(Debug, Clone, Copy, PartialEq, Eq, Structural)]
pub enum SourceError {
    /// The named thing does not exist, or the operation is not offered.
    NotFound,
    /// The host reported a failure; the number is the host's error code.
    Io(i32),
}

/// How a seek position is given.
#[derive(Debug, Clone, Copy, PartialEq, Eq, Structural)]
pub enum SeekFrom {
    /// Absolute position from the start of the stream.
    Start(u64),
    /// Relative to the end of the stream.
    End(i64),
    /// Relative to the current position.
    Current(i64),
}

/// The first `limit` bytes of `bytes`, or all of them where there are fewer.
pub open spec fn clip(bytes: Seq<u8>, limit: nat) -> Seq<u8> {
    if limit <= bytes.len() {
        bytes.take(limit as int)
    } else {
        bytes
    }
}

/// A cursor over a finite run of bytes.
///
/// `remaining` is what lies ahead of the cursor. `read` hands out a prefix of
/// it and moves the cursor past that prefix; `skip` moves the cursor without
/// handing anything out.
pub trait ByteSource: Sized {
    /// Validity of the value; every method keeps it.
    spec fn inv(&self) -> bool;

    /// The bytes ahead of the cursor.
    spec fn remaining(&self) -> Seq<u8>;

    /// Whether operations on this source always succeed.
    spec fn infallible(&self) -> bool;

    /// Whether a read delivers all that is asked, or all that is left where
    /// that is less; a source that is not eager may deliver fewer.
    spec fn eager(&self) -> bool;

    /// Reads at most `max` bytes. A source may deliver fewer than asked, but
    /// with `max > 0` it delivers nothing only at its end. Of a read with
    /// `max == 0` only the empty result is promised, not where the cursor is
    /// afterwards.
    fn read(&mut self, max: usize) -> (r: Result<Vec<u8>, SourceError>)
        requires
            old(self).inv(),
        ensures
            final(self).inv(),
            old(self).infallible() ==> r is Ok && final(self).infallible(),
            old(self).eager() ==> final(self).eager(),
            r matches Ok(bytes) ==> {
                &&& old(self).eager() ==> bytes@.len() == max || bytes@.len() == old(
                    self,
                ).remaining().len()
                &&& bytes@.len() <= max
                &&& bytes@.len() <= old(self).remaining().len()
                &&& bytes@ == old(self).remaining().take(bytes@.len() as int)
                &&& max > 0 ==> final(self).remaining() == old(self).remaining().skip(
                    bytes@.len() as int,
                )
                &&& max > 0 && bytes@.len() == 0 ==> old(self).remaining().len() == 0
            },
    ;

    /// Moves the cursor forward by `n` bytes, or to the end where fewer are
    /// left, and returns how far it moved.
    fn skip(&mut self, n: u64) -> (r: Result<u64, SourceError>)
        requires
            old(self).inv(),
        ensures
            final(self).inv(),
            old(self).infallible() ==> r is Ok && final(self).infallible(),
            old(self).eager() ==> final(self).eager(),
            r matches Ok(k) ==> {
                &&& k <= n
                &&& k <= old(self).remaining().len()
                &&& k == n || k == old(self).remaining().len()
                &&& final(self).remaining() == old(self).remaining().skip(k as int)
            },
    ;
}

/// A source over bytes held in memory.
pub struct MemSource {
    data: Vec<u8>,
    pos: usize,
}

impl MemSource {
    /// A source over `data` with the cursor at its start.
    pub fn new(data: Vec<u8>) -> (r: MemSource)
        ensures
            r.inv(),
            r.infallible(),
            r.remaining() == data@,
    {
        MemSource { data, pos: 0 }
    }
}

impl ByteSource for MemSource {
    closed spec fn inv(&self) -> bool {
        self.pos <= self.data@.len()
    }

    closed spec fn remaining(&self) -> Seq<u8> {
        self.data@.skip(self.pos as int)
    }

    open spec fn infallible(&self) -> bool {
        true
    }

    open spec fn eager(&self) -> bool {
        true
    }

    fn read(&mut self, max: usize) -> (r: Result<Vec<u8>, SourceError>)
        ensures
            r matches Ok(bytes) && bytes@.len() == if max <= old(self).remaining().len() {
                max as int
            } else {
                old(self).remaining().len() as int
            },
            final(self).remaining() == old(self).remaining().skip(r->Ok_0@.len() as int),
    {
        let left = self.data.len() - self.pos;
        let k: usize = if max <= left { max } else { left };
        let mut out: Vec<u8> = Vec::new();
        let mut i: usize = 0;
        while i < k
            invariant
                i <= k,
                self.pos + k <= self.data.len(),
                out@ == self.data@.subrange(self.pos as int, self.pos + i),
            decreases k - i,
        {
            out.push(self.data[self.pos + i]);
            i += 1;
        }
        assert(out@ == old(self).remaining().take(k as int));
        self.pos += k;
        assert(self.remaining() == old(self).remaining().skip(k as int));
        Ok(out)
    }

    fn skip(&mut self, n: u64) -> (r: Result<u64, SourceError>)
        ensures
            r is Ok,
    {
        let left = self.data.len() - self.pos;
        let k: usize = if n <= left as u64 { n as usize } else { left };
        self.pos += k;
        assert(self.remaining() == old(self).remaining().skip(k as int));
        Ok(k as u64)
    }
}

} // verus!
