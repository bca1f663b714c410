//! A cursor over bytes held in memory.

use crate::support::bytes::{be_u16, be_u32, read_be_u16, read_be_u32};
use crate::support::Error;
use vstd::prelude::*;
use vstd::slice::slice_subrange;

verus! {

/// How many bytes of `s` come before its first `b`; all of them where it
/// holds none.
pub open spec fn run_before(s: Seq<u8>, b: u8) -> nat
    decreases s.len(),
{
    if s.len() == 0 || s[0] == b {
        0
    } else {
        1 + run_before(s.skip(1), b)
    }
}

/// `run_before(s, b)` is the one position at which `s` ends or holds `b`
/// with no `b` in front of it.
pub proof fn lemma_run_before(s: Seq<u8>, b: u8, n: int)
    requires
        0 <= n <= s.len(),
        forall|j: int| 0 <= j < n ==> s[j] != b,
        n < s.len() ==> s[n] == b,
    ensures
        run_before(s, b) == n,
    decreases s.len(),
{
    if n > 0 {
        let t = s.skip(1);
        assert forall|j: int| 0 <= j < n - 1 implies t[j] != b by {
            assert(t[j] == s[j + 1]);
        }
        lemma_run_before(t, b, n - 1);
    }
}

/// Bytes in memory with a read position. Its view is what is still to be
/// read. A read of a fixed number of bytes that fails for want of bytes
/// reads nothing.
pub struct ByteReader {
    data: Vec<u8>,
    pos: usize,
}

impl View for ByteReader {
    type V = Seq<u8>;

    open spec fn view(&self) -> Seq<u8> {
        self.source().skip(self.offset() as int)
    }
}

impl ByteReader {
    #[verifier::type_invariant]
    spec fn in_bounds(self) -> bool {
        self.pos <= self.data@.len()
    }

    /// All the bytes, read or not.
    pub closed spec fn source(&self) -> Seq<u8> {
        self.data@
    }

    /// How many bytes have been read.
    pub closed spec fn offset(&self) -> nat {
        self.pos as nat
    }

    /// This reader is `before` after `n` more bytes were read.
    pub open spec fn follows(&self, before: ByteReader, n: nat) -> bool {
        &&& self.source() == before.source()
        &&& self.offset() == before.offset() + n
        &&& n <= before@.len()
        &&& self@ == before@.skip(n as int)
    }

    /// A reader with the bytes and the position of `before` has read
    /// nothing more.
    pub proof fn lemma_follows_none(self, before: ByteReader)
        requires
            self.source() == before.source(),
            self.offset() == before.offset(),
        ensures
            self.follows(before, 0),
    {
        assert(before@.skip(0) =~= before@);
    }

    /// Reading `m` bytes and then `n` more is reading `m + n` bytes.
    pub proof fn lemma_follows_twice(self, before: ByteReader, between: ByteReader, m: nat, n: nat)
        requires
            between.follows(before, m),
            self.follows(between, n),
        ensures
            self.follows(before, m + n),
    {
        assert(before@.skip(m as int).skip(n as int) =~= before@.skip((m + n) as int));
    }

    /// A reader at the start of `data`.
    pub fn new(data: Vec<u8>) -> (r: ByteReader)
        ensures
            r.source() == data@,
            r.offset() == 0,
            r@ == data@,
    {
        let r = ByteReader { data, pos: 0 };
        assert(r@ =~= data@);
        r
    }

    /// How many bytes have been read.
    pub fn position(&self) -> (n: usize)
        ensures
            n == self.offset(),
            n <= self.source().len(),
    {
        proof {
            use_type_invariant(self);
        }
        self.pos
    }

    /// Moves the read position to `position`, counted from the start.
    pub(crate) fn seek(&mut self, position: usize)
        requires
            position <= old(self).source().len(),
        ensures
            final(self).source() == old(self).source(),
            final(self).offset() == position,
    {
        self.pos = position;
    }

    /// Where the first `b` stands among the bytes still to be read, if
    /// there is one.
    pub fn find(&self, b: u8) -> (r: Option<usize>)
        ensures
            match r {
                Some(i) => i == run_before(self@, b) && i < self@.len(),
                None => run_before(self@, b) >= self@.len(),
            },
    {
        proof {
            use_type_invariant(self);
        }
        let n: usize = self.data.len() - self.pos;
        let mut i: usize = 0;
        while i < n && self.data[self.pos + i] != b
            invariant
                self.pos + n == self.data@.len() <= usize::MAX,
                i <= n,
                n == self@.len(),
                forall|j: int| 0 <= j < i ==> self@[j] != b,
            decreases n - i,
        {
            i = i + 1;
        }
        proof {
            lemma_run_before(self@, b, i as int);
        }
        if i < n {
            Some(i)
        } else {
            None
        }
    }

    /// Reads `n` bytes.
    pub fn read_bytes(&mut self, n: usize) -> (r: Result<Vec<u8>, Error>)
        ensures
            old(self)@.len() >= n ==> r is Ok && r.unwrap()@ == old(self)@.take(n as int),
            old(self)@.len() >= n ==> final(self).follows(*old(self), n as nat),
            old(self)@.len() < n ==> r == Err::<Vec<u8>, Error>(Error::IO),
            old(self)@.len() < n ==> final(self).follows(*old(self), 0),
    {
        proof {
            use_type_invariant(&*self);
        }
        if self.data.len() - self.pos < n {
            assert(self@.skip(0) =~= self@);
            return Err(Error::IO);
        }
        let mut out: Vec<u8> = Vec::new();
        let mut i: usize = 0;
        while i < n
            invariant
                self.pos + n <= self.data@.len() <= usize::MAX,
                i <= n,
                out@ == self@.take(i as int),
            decreases n - i,
        {
            out.push(self.data[self.pos + i]);
            i = i + 1;
            assert(out@ =~= self@.take(i as int));
        }
        self.pos = self.pos + n;
        assert(self@ =~= old(self)@.skip(n as int));
        Ok(out)
    }

    /// How many bytes are still to be read.
    pub fn remaining(&self) -> (n: usize)
        ensures
            n == self@.len(),
    {
        proof {
            use_type_invariant(self);
        }
        self.data.len() - self.pos
    }

    /// Whether every byte has been read.
    pub fn is_at_end(&self) -> (b: bool)
        ensures
            b == (self@.len() == 0),
    {
        self.remaining() == 0
    }

    /// Reads one byte.
    pub fn read_u8(&mut self) -> (r: Result<u8, Error>)
        ensures
            old(self)@.len() >= 1 ==> r == Ok::<u8, Error>(old(self)@[0]),
            old(self)@.len() >= 1 ==> final(self).follows(*old(self), 1),
            old(self)@.len() < 1 ==> r == Err::<u8, Error>(Error::IO),
            old(self)@.len() < 1 ==> final(self).follows(*old(self), 0),
    {
        proof {
            use_type_invariant(&*self);
        }
        if self.data.len() - self.pos < 1 {
            assert(self@.skip(0) =~= self@);
            return Err(Error::IO);
        }
        let b: u8 = self.data[self.pos];
        self.pos = self.pos + 1;
        assert(self@ =~= old(self)@.skip(1));
        Ok(b)
    }

    /// Reads a big-endian 16-bit number.
    pub fn read_u16(&mut self) -> (r: Result<u16, Error>)
        ensures
            old(self)@.len() >= 2 ==> r == Ok::<u16, Error>(be_u16(old(self)@)),
            old(self)@.len() >= 2 ==> final(self).follows(*old(self), 2),
            old(self)@.len() < 2 ==> r == Err::<u16, Error>(Error::IO),
            old(self)@.len() < 2 ==> final(self).follows(*old(self), 0),
    {
        proof {
            use_type_invariant(&*self);
        }
        if self.data.len() - self.pos < 2 {
            assert(self@.skip(0) =~= self@);
            return Err(Error::IO);
        }
        let field = slice_subrange(self.data.as_slice(), self.pos, self.pos + 2);
        let v: u16 = read_be_u16(field);
        self.pos = self.pos + 2;
        assert(self@ =~= old(self)@.skip(2));
        Ok(v)
    }

    /// Reads a big-endian 32-bit number.
    pub fn read_u32(&mut self) -> (r: Result<u32, Error>)
        ensures
            old(self)@.len() >= 4 ==> r == Ok::<u32, Error>(be_u32(old(self)@)),
            old(self)@.len() >= 4 ==> final(self).follows(*old(self), 4),
            old(self)@.len() < 4 ==> r == Err::<u32, Error>(Error::IO),
            old(self)@.len() < 4 ==> final(self).follows(*old(self), 0),
    {
        proof {
            use_type_invariant(&*self);
        }
        if self.data.len() - self.pos < 4 {
            assert(self@.skip(0) =~= self@);
            return Err(Error::IO);
        }
        let field = slice_subrange(self.data.as_slice(), self.pos, self.pos + 4);
        let v: u32 = read_be_u32(field);
        self.pos = self.pos + 4;
        assert(self@ =~= old(self)@.skip(4));
        Ok(v)
    }
}

} // verus!
