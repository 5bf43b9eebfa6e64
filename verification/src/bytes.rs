//! Byte-level reader and writer: the stream contract every codec builds on.
//!
//! A [`ByteWriter`] is a sink with a fixed capacity; writing past the
//! capacity fails with [`WriteError`]. A [`ByteReader`] is a cursor over a
//! byte buffer; reading past the end fails with [`ReadError`]. Reads never
//! return fewer bytes than requested without failing.

use vstd::prelude::*;

verus! {

/// The stream ended before the requested bytes, or held malformed data.
#[derive(Clone, Copy, PartialEq, Eq, Structural, Debug)]
pub struct ReadError;

/// The sink rejected the bytes: its capacity is exhausted.
#[derive(Clone, Copy, PartialEq, Eq, Structural, Debug)]
pub struct WriteError;

/// A byte sink with a fixed capacity.
pub struct ByteWriter {
    buf: Vec<u8>,
    cap: usize,
}

impl ByteWriter {
    /// The bytes written so far.
    pub closed spec fn bytes(&self) -> Seq<u8> {
        self.buf@
    }

    /// The capacity the writer was created with.
    pub closed spec fn cap(&self) -> nat {
        self.cap as nat
    }

    pub closed spec fn wf(&self) -> bool {
        self.buf@.len() <= self.cap
    }

    /// A capacity always fits the machine's address space.
    pub proof fn lemma_cap_bound(&self)
        ensures
            self.cap() <= usize::MAX,
    {
    }

    /// A well-formed writer never holds more than its capacity.
    pub proof fn lemma_wf_len(&self)
        requires
            self.wf(),
        ensures
            self.bytes().len() <= self.cap(),
    {
    }

    /// A writer that fails once `cap` bytes have been written.
    pub fn with_capacity(cap: usize) -> (w: ByteWriter)
        ensures
            w.wf(),
            w.bytes() == Seq::<u8>::empty(),
            w.cap() == cap as nat,
    {
        ByteWriter { buf: Vec::new(), cap }
    }

    /// A writer that never rejects bytes the machine can hold.
    pub fn unbounded() -> (w: ByteWriter)
        ensures
            w.wf(),
            w.bytes() == Seq::<u8>::empty(),
            w.cap() == usize::MAX as nat,
    {
        ByteWriter { buf: Vec::new(), cap: usize::MAX }
    }

    /// Appends one byte; fails exactly when the capacity is already full.
    pub fn write_u8(&mut self, b: u8) -> (r: Result<(), WriteError>)
        requires
            old(self).wf(),
        ensures
            final(self).wf(),
            final(self).cap() == old(self).cap(),
            match r {
                Ok(()) => old(self).bytes().len() + 1 <= old(self).cap()
                    && final(self).bytes() == old(self).bytes().push(b),
                Err(_) => old(self).bytes().len() + 1 > old(self).cap()
                    && final(self).bytes() == old(self).bytes(),
            },
    {
        if self.buf.len() < self.cap {
            self.buf.push(b);
            Ok(())
        } else {
            Err(WriteError)
        }
    }

    /// Appends all of `b`; fails exactly when `b` does not fit in the
    /// remaining capacity.
    pub fn write_all(&mut self, b: &Vec<u8>) -> (r: Result<(), WriteError>)
        requires
            old(self).wf(),
        ensures
            final(self).wf(),
            final(self).cap() == old(self).cap(),
            match r {
                Ok(()) => old(self).bytes().len() + b@.len() <= old(self).cap()
                    && final(self).bytes() == old(self).bytes() + b@,
                Err(_) => old(self).bytes().len() + b@.len() > old(self).cap()
                    && old(self).bytes().is_prefix_of(final(self).bytes()),
            },
    {
        let mut i: usize = 0;
        while i < b.len()
            invariant
                self.wf(),
                self.cap() == old(self).cap(),
                i <= b@.len(),
                self.bytes() == old(self).bytes() + b@.subrange(0, i as int),
                self.bytes().len() <= self.cap(),
            decreases b@.len() - i,
        {
            if self.write_u8(b[i]).is_err() {
                proof {
                    assert(old(self).bytes().len() + b@.len() >= self.bytes().len() + 1);
                    assert(old(self).bytes().is_prefix_of(self.bytes()));
                }
                return Err(WriteError);
            }
            i = i + 1;
            proof {
                assert(self.bytes() =~= old(self).bytes() + b@.subrange(0, i as int));
            }
        }
        proof {
            assert(self.bytes() =~= old(self).bytes() + b@);
        }
        Ok(())
    }

    /// The number of bytes written so far.
    pub fn byte_len(&self) -> (n: usize)
        ensures
            n as nat == self.bytes().len(),
    {
        self.buf.len()
    }

    /// Hands the written bytes out.
    pub fn into_vec(self) -> (v: Vec<u8>)
        ensures
            v@ == self.bytes(),
    {
        self.buf
    }
}

/// A cursor over a byte buffer.
pub struct ByteReader {
    buf: Vec<u8>,
    pos: usize,
}

impl ByteReader {
    pub closed spec fn wf(&self) -> bool {
        self.pos <= self.buf@.len()
    }

    /// The bytes not yet consumed.
    pub closed spec fn remaining(&self) -> Seq<u8> {
        self.buf@.skip(self.pos as int)
    }

    pub fn new(buf: Vec<u8>) -> (r: ByteReader)
        ensures
            r.wf(),
            r.remaining() == buf@,
    {
        let r = ByteReader { buf, pos: 0 };
        proof {
            assert(r.remaining() =~= r.buf@);
        }
        r
    }

    /// How many bytes are left to read.
    pub fn remaining_len(&self) -> (n: usize)
        requires
            self.wf(),
        ensures
            n as nat == self.remaining().len(),
    {
        self.buf.len() - self.pos
    }

    /// Reads one byte; fails exactly when the stream is exhausted.
    pub fn read_u8(&mut self) -> (r: Result<u8, ReadError>)
        requires
            old(self).wf(),
        ensures
            final(self).wf(),
            match r {
                Ok(b) => old(self).remaining().len() > 0
                    && b == old(self).remaining()[0]
                    && final(self).remaining() == old(self).remaining().skip(1),
                Err(_) => old(self).remaining().len() == 0
                    && final(self).remaining() == old(self).remaining(),
            },
    {
        if self.pos < self.buf.len() {
            let b = self.buf[self.pos];
            self.pos = self.pos + 1;
            proof {
                assert(self.remaining() =~= old(self).remaining().skip(1));
            }
            Ok(b)
        } else {
            Err(ReadError)
        }
    }

    /// Reads exactly `n` bytes; fails exactly when fewer than `n` remain,
    /// consuming nothing in that case.
    pub fn read_exact_vec(&mut self, n: usize) -> (r: Result<Vec<u8>, ReadError>)
        requires
            old(self).wf(),
        ensures
            final(self).wf(),
            match r {
                Ok(v) => n as nat <= old(self).remaining().len()
                    && v@ == old(self).remaining().take(n as int)
                    && final(self).remaining() == old(self).remaining().skip(n as int),
                Err(_) => n as nat > old(self).remaining().len()
                    && final(self).remaining() == old(self).remaining(),
            },
    {
        if n > self.buf.len() - self.pos {
            return Err(ReadError);
        }
        let mut v: Vec<u8> = Vec::new();
        let mut i: usize = 0;
        while i < n
            invariant
                self.wf(),
                *self == *old(self),
                i <= n,
                n + self.pos <= self.buf@.len(),
                n + self.pos <= usize::MAX,
                v@ == self.remaining().subrange(0, i as int),
            decreases n - i,
        {
            v.push(self.buf[self.pos + i]);
            i = i + 1;
            proof {
                assert(v@ =~= self.remaining().subrange(0, i as int));
            }
        }
        self.pos = self.pos + n;
        proof {
            assert(v@ =~= old(self).remaining().take(n as int));
            assert(self.remaining() =~= old(self).remaining().skip(n as int));
        }
        Ok(v)
    }

    /// Reads everything that is left; never fails.
    pub fn read_rest(&mut self) -> (v: Vec<u8>)
        requires
            old(self).wf(),
        ensures
            final(self).wf(),
            v@ == old(self).remaining(),
            final(self).remaining().len() == 0,
    {
        let n = self.buf.len() - self.pos;
        proof {
            assert(n as nat == self.remaining().len());
        }
        match self.read_exact_vec(n) {
            Ok(v) => {
                proof {
                    assert(v@ =~= old(self).remaining());
                }
                v
            },
            Err(_) => {
                proof {
                    assert(false);
                }
                Vec::new()
            },
        }
    }
}

} // verus!
