//! Values that are written to, and read from, a stream of bytes: the integers
//! most significant byte first, arrays of bytes as they are.

use vstd::prelude::*;
use vstd::slice::slice_subrange;

use crate::error::IndexError;
use crate::wire::{
    be_bytes, be_value, get_u16_be, get_u32_be, get_u64_be, lemma_be_bytes_len, lemma_be_round_trip,
    lemma_pow256_values, put_u16_be, put_u32_be, put_u64_be,
};

verus! {

/// A value with a form in bytes.
pub trait StreamWrite {
    /// The bytes that stand for the value.
    spec fn encoding(&self) -> Seq<u8>;

    /// Appends the value's bytes to `w` and returns their number.
    fn write_to(&self, w: &mut Vec<u8>) -> (n: usize)
        ensures
            final(w)@ == old(w)@ + self.encoding(),
            n == self.encoding().len(),
    ;

    /// The value's bytes.
    fn to_vec(&self) -> (v: Vec<u8>)
        ensures
            v@ == self.encoding(),
    {
        let mut v = Vec::new();
        self.write_to(&mut v);
        proof {
            assert(Seq::<u8>::empty() + self.encoding() =~= self.encoding());
        }
        v
    }
}

/// Bytes, and how far they have been read.
pub struct ByteReader<'a> {
    bytes: &'a [u8],
    pos: usize,
}

impl<'a> ByteReader<'a> {
    /// The invariant of the reader: it has not read past the end.
    pub closed spec fn wf(&self) -> bool {
        self.pos <= self.bytes@.len()
    }

    /// The bytes that are still to be read.
    pub closed spec fn rest(&self) -> Seq<u8> {
        self.bytes@.skip(self.pos as int)
    }

    /// A reader at the start of `bytes`.
    pub fn new(bytes: &'a [u8]) -> (r: Self)
        ensures
            r.wf(),
            r.rest() == bytes@,
    {
        proof {
            assert(bytes@.skip(0) =~= bytes@);
        }
        ByteReader { bytes, pos: 0 }
    }

    /// The number of bytes still to be read.
    pub fn remaining(&self) -> (n: usize)
        requires
            self.wf(),
        ensures
            n == self.rest().len(),
    {
        self.bytes.len() - self.pos
    }

    /// The next `n` bytes, which are then read; `None`, and nothing is read,
    /// where fewer are left.
    pub fn take(&mut self, n: usize) -> (r: Option<&'a [u8]>)
        requires
            old(self).wf(),
        ensures
            final(self).wf(),
            match r {
                Some(s) => n <= old(self).rest().len() && s@ == old(self).rest().subrange(
                    0,
                    n as int,
                ) && final(self).rest() == old(self).rest().skip(n as int),
                None => n > old(self).rest().len() && final(self).rest() == old(self).rest(),
            },
    {
        if self.bytes.len() - self.pos < n {
            return None;
        }
        let s = slice_subrange(self.bytes, self.pos, self.pos + n);
        proof {
            assert(s@ =~= self.rest().subrange(0, n as int));
            assert(self.bytes@.skip(self.pos + n) =~= self.rest().skip(n as int));
        }
        self.pos = self.pos + n;
        Some(s)
    }
}

/// A value that can be read from its form in bytes.
pub trait StreamRead: Sized {
    /// The value at the front of `bytes` and the number of bytes that it
    /// takes, where `bytes` begins with the form of a value.
    spec fn parse(bytes: Seq<u8>) -> Option<(Self, int)>;

    /// Reads a value; fails with `CorruptStream` where the bytes to come do not
    /// begin with the form of one.
    fn read_from(r: &mut ByteReader) -> (res: Result<Self, IndexError>)
        requires
            old(r).wf(),
        ensures
            final(r).wf(),
            match res {
                Ok(v) => Self::parse(old(r).rest()) matches Some((x, n)) && x == v && 0 <= n
                    <= old(r).rest().len() && final(r).rest() == old(r).rest().skip(n),
                Err(e) => e == IndexError::CorruptStream && Self::parse(old(r).rest()) is None,
            },
    ;
}

impl StreamWrite for u8 {
    open spec fn encoding(&self) -> Seq<u8> {
        seq![*self]
    }

    fn write_to(&self, w: &mut Vec<u8>) -> (n: usize) {
        let ghost before = w@;
        w.push(*self);
        proof {
            assert(w@ =~= before + self.encoding());
        }
        1
    }
}

impl StreamWrite for u16 {
    open spec fn encoding(&self) -> Seq<u8> {
        be_bytes(*self as nat, 2)
    }

    fn write_to(&self, w: &mut Vec<u8>) -> (n: usize) {
        put_u16_be(w, *self);
        proof {
            lemma_be_bytes_len(*self as nat, 2);
        }
        2
    }
}

impl StreamWrite for u32 {
    open spec fn encoding(&self) -> Seq<u8> {
        be_bytes(*self as nat, 4)
    }

    fn write_to(&self, w: &mut Vec<u8>) -> (n: usize) {
        put_u32_be(w, *self);
        proof {
            lemma_be_bytes_len(*self as nat, 4);
        }
        4
    }
}

impl StreamWrite for u64 {
    open spec fn encoding(&self) -> Seq<u8> {
        be_bytes(*self as nat, 8)
    }

    fn write_to(&self, w: &mut Vec<u8>) -> (n: usize) {
        put_u64_be(w, *self);
        proof {
            lemma_be_bytes_len(*self as nat, 8);
        }
        8
    }
}

impl<const N: usize> StreamWrite for [u8; N] {
    open spec fn encoding(&self) -> Seq<u8> {
        self@
    }

    fn write_to(&self, w: &mut Vec<u8>) -> (n: usize) {
        let ghost before = w@;
        let mut i: usize = 0;
        while i < N
            invariant
                i <= N,
                self@.len() == N,
                w@ == before + self@.subrange(0, i as int),
            decreases N - i,
        {
            w.push(self[i]);
            proof {
                assert(w@ =~= before + self@.subrange(0, i + 1));
            }
            i += 1;
        }
        proof {
            assert(self@.subrange(0, N as int) =~= self@);
        }
        N
    }
}

impl StreamRead for u8 {
    open spec fn parse(bytes: Seq<u8>) -> Option<(Self, int)> {
        if bytes.len() >= 1 {
            Some((bytes[0], 1))
        } else {
            None
        }
    }

    fn read_from(r: &mut ByteReader) -> (res: Result<Self, IndexError>) {
        let ghost before = r.rest();
        match r.take(1) {
            Some(s) => {
                proof {
                    assert(s@[0] == before[0]);
                    assert(<u8 as StreamRead>::parse(before) == Some((before[0], 1int)));
                }
                Ok(s[0])
            },
            None => Err(IndexError::CorruptStream),
        }
    }
}

impl StreamRead for u16 {
    open spec fn parse(bytes: Seq<u8>) -> Option<(Self, int)> {
        if bytes.len() >= 2 {
            Some((be_value(bytes.subrange(0, 2)) as u16, 2))
        } else {
            None
        }
    }

    fn read_from(r: &mut ByteReader) -> (res: Result<Self, IndexError>) {
        match r.take(2) {
            Some(s) => {
                proof {
                    assert(s@.subrange(0, 2) =~= s@);
                }
                Ok(get_u16_be(s))
            },
            None => Err(IndexError::CorruptStream),
        }
    }
}

impl StreamRead for u32 {
    open spec fn parse(bytes: Seq<u8>) -> Option<(Self, int)> {
        if bytes.len() >= 4 {
            Some((be_value(bytes.subrange(0, 4)) as u32, 4))
        } else {
            None
        }
    }

    fn read_from(r: &mut ByteReader) -> (res: Result<Self, IndexError>) {
        match r.take(4) {
            Some(s) => {
                proof {
                    assert(s@.subrange(0, 4) =~= s@);
                }
                Ok(get_u32_be(s))
            },
            None => Err(IndexError::CorruptStream),
        }
    }
}

impl StreamRead for u64 {
    open spec fn parse(bytes: Seq<u8>) -> Option<(Self, int)> {
        if bytes.len() >= 8 {
            Some((be_value(bytes.subrange(0, 8)) as u64, 8))
        } else {
            None
        }
    }

    fn read_from(r: &mut ByteReader) -> (res: Result<Self, IndexError>) {
        match r.take(8) {
            Some(s) => {
                proof {
                    assert(s@.subrange(0, 8) =~= s@);
                }
                Ok(get_u64_be(s))
            },
            None => Err(IndexError::CorruptStream),
        }
    }
}

impl StreamRead for [u8; 3] {
    open spec fn parse(bytes: Seq<u8>) -> Option<(Self, int)> {
        if bytes.len() >= 3 {
            Some(([bytes[0], bytes[1], bytes[2]], 3))
        } else {
            None
        }
    }

    fn read_from(r: &mut ByteReader) -> (res: Result<Self, IndexError>) {
        let ghost before = r.rest();
        match r.take(3) {
            Some(s) => {
                let a = [s[0], s[1], s[2]];
                proof {
                    assert(a =~= [before[0], before[1], before[2]]);
                }
                Ok(a)
            },
            None => Err(IndexError::CorruptStream),
        }
    }
}

/// Reading gives back a 16-bit number that was written, whatever follows it.
pub proof fn lemma_u16_round_trip(v: u16, rest: Seq<u8>)
    ensures
        <u16 as StreamRead>::parse(v.encoding() + rest) == Some((v, 2int)),
{
    lemma_pow256_values();
    lemma_be_round_trip(v as nat, 2);
    assert((v.encoding() + rest).subrange(0, 2) =~= v.encoding());
}

/// Reading gives back a 32-bit number that was written, whatever follows it.
pub proof fn lemma_u32_round_trip(v: u32, rest: Seq<u8>)
    ensures
        <u32 as StreamRead>::parse(v.encoding() + rest) == Some((v, 4int)),
{
    lemma_pow256_values();
    lemma_be_round_trip(v as nat, 4);
    assert((v.encoding() + rest).subrange(0, 4) =~= v.encoding());
}

/// Reading gives back a 64-bit number that was written, whatever follows it.
pub proof fn lemma_u64_round_trip(v: u64, rest: Seq<u8>)
    ensures
        <u64 as StreamRead>::parse(v.encoding() + rest) == Some((v, 8int)),
{
    lemma_pow256_values();
    lemma_be_round_trip(v as nat, 8);
    assert((v.encoding() + rest).subrange(0, 8) =~= v.encoding());
}

/// Reading gives back three bytes that were written, whatever follows them.
pub proof fn lemma_bytes3_round_trip(v: [u8; 3], rest: Seq<u8>)
    ensures
        <[u8; 3] as StreamRead>::parse(v.encoding() + rest) == Some((v, 3int)),
{
    let b = v.encoding() + rest;
    assert([b[0], b[1], b[2]] =~= v);
}

} // verus!
