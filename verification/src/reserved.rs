//! Reserved space: the buffer that the writer of a reserved value fills.

use crate::error::Error;
use vstd::prelude::*;

verus! {

/// A buffer of fixed size that is filled from the front. It starts out as
/// zeros.
pub struct ReservedSpace {
    buf: Vec<u8>,
    written: usize,
}

/// `size` zero bytes.
pub open spec fn zeros(size: nat) -> Seq<u8> {
    Seq::new(size, |i: int| 0u8)
}

/// How many bytes of `data` fit into `room` bytes.
pub open spec fn fitting(data: Seq<u8>, room: int) -> int {
    if data.len() <= room {
        data.len() as int
    } else {
        room
    }
}

/// `before` with as much of `data` as fits written over it from index `at`.
pub open spec fn written_over(before: Seq<u8>, at: int, data: Seq<u8>) -> Seq<u8> {
    let n = fitting(data, before.len() - at);
    before.subrange(0, at) + data.subrange(0, n) + before.subrange(at + n, before.len() as int)
}

impl ReservedSpace {
    #[verifier::type_invariant]
    spec fn inv(self) -> bool {
        self.written <= self.buf@.len()
    }

    /// How many bytes the space holds.
    pub open spec fn size(&self) -> nat {
        self.bytes().len()
    }

    /// How many bytes have been written.
    pub closed spec fn filled(&self) -> nat {
        self.written as nat
    }

    /// What the space holds: the bytes written, then zeros.
    pub closed spec fn bytes(&self) -> Seq<u8> {
        self.buf@
    }

    /// A space of `size` bytes with nothing written.
    pub fn new(size: usize) -> (space: ReservedSpace)
        ensures
            space.size() == size,
            space.filled() == 0,
            space.bytes() == zeros(size as nat),
    {
        let mut buf: Vec<u8> = Vec::with_capacity(size);
        let mut i: usize = 0;
        while i < size
            invariant
                0 <= i <= size,
                buf@ == zeros(i as nat),
            decreases size - i,
        {
            buf.push(0u8);
            assert(buf@ =~= zeros((i + 1) as nat));
            i += 1;
        }
        ReservedSpace { buf, written: 0 }
    }

    /// How many bytes the space holds.
    pub fn capacity(&self) -> (n: usize)
        ensures
            n == self.size(),
    {
        self.buf.len()
    }

    /// How many bytes are still to be written.
    pub fn remaining(&self) -> (n: usize)
        ensures
            n == self.size() - self.filled(),
            self.filled() <= self.size(),
    {
        proof {
            use_type_invariant(self);
        }
        self.buf.len() - self.written
    }

    /// What the space holds.
    pub fn as_slice(&self) -> (s: &[u8])
        ensures
            s@ == self.bytes(),
    {
        self.buf.as_slice()
    }

    /// Writes as much of `data` as fits and returns how many bytes that was.
    pub fn write(&mut self, data: &[u8]) -> (n: usize)
        ensures
            final(self).size() == old(self).size(),
            old(self).filled() <= old(self).size(),
            n == fitting(data@, old(self).size() - old(self).filled()),
            final(self).filled() == old(self).filled() + n,
            final(self).bytes() == written_over(old(self).bytes(), old(self).filled() as int, data@),
    {
        proof {
            use_type_invariant(&*self);
        }
        let room = self.buf.len() - self.written;
        let n = if data.len() <= room {
            data.len()
        } else {
            room
        };
        let start = self.written;
        let ghost before = self.buf@;
        let mut i: usize = 0;
        while i < n
            invariant
                0 <= i <= n,
                n <= data@.len(),
                start + n <= self.buf@.len(),
                start + n <= usize::MAX,
                self.written == start,
                self.buf@.len() == before.len(),
                self.buf@ == before.subrange(0, start as int) + data@.subrange(0, i as int)
                    + before.subrange(start + i, before.len() as int),
            decreases n - i,
        {
            self.buf[start + i] = data[i];
            assert(self.buf@ =~= before.subrange(0, start as int) + data@.subrange(0, i + 1)
                + before.subrange(start + i + 1, before.len() as int));
            i += 1;
        }
        self.written = start + n;
        n
    }

    /// Writes all of `data`, or as much as fits when not all of it does,
    /// which is a failure.
    pub fn write_all(&mut self, data: &[u8]) -> (r: Result<(), Error>)
        ensures
            final(self).size() == old(self).size(),
            old(self).filled() <= old(self).size(),
            final(self).filled() == old(self).filled() + fitting(
                data@,
                old(self).size() - old(self).filled(),
            ),
            final(self).bytes() == written_over(old(self).bytes(), old(self).filled() as int, data@),
            r == if data@.len() <= old(self).size() - old(self).filled() {
                Ok::<(), Error>(())
            } else {
                Err::<(), Error>(Error::ReservedWriteIncomplete)
            },
    {
        let n = self.write(data);
        if n == data.len() {
            Ok(())
        } else {
            Err(Error::ReservedWriteIncomplete)
        }
    }
}

} // verus!
