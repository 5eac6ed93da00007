//! Random-access byte sources, a cursor over one, and typed sections of a file.

pub mod stream;

use std::marker::PhantomData;
use vstd::prelude::*;

use crate::build::serialize::StreamWriter;
use crate::error::ReadError;
use crate::wire::{le_bytes, lemma_le_bytes_len, put_u64_le};

verus! {

/// How many bytes a read of `want` bytes at `offset` yields from a source of `total` bytes.
pub open spec fn read_len(total: nat, offset: u64, want: nat) -> nat {
    if offset >= total {
        0
    } else if want <= total - offset {
        want
    } else {
        (total - offset) as nat
    }
}

/// A source of bytes that can be read at any offset.
pub trait ReadAt {
    /// The bytes of the source.
    spec fn content(&self) -> Seq<u8>;

    /// Whether the source never fails a read: an in-memory source does not, a file may.
    spec fn reliable(&self) -> bool;

    /// Reads up to `buf.len()` bytes at `offset` into the front of `buf`, and
    /// returns how many were read.
    fn read_at(&self, buf: &mut [u8], offset: u64) -> (r: Result<usize, ReadError>)
        ensures
            final(buf)@.len() == old(buf)@.len(),
            r matches Ok(n) ==> {
                &&& n <= old(buf)@.len()
                &&& self.content().len() <= u64::MAX
                &&& n > 0 ==> offset + n <= self.content().len()
                &&& forall|j: int| 0 <= j < n ==> final(buf)@[j] == self.content()[offset + j]
                &&& forall|j: int| n <= j < old(buf)@.len() ==> final(buf)@[j] == old(buf)@[j]
            },
            self.reliable() ==> (r matches Ok(n) && n == read_len(
                self.content().len(),
                offset,
                old(buf)@.len(),
            )),
    ;

    /// Fills `buf` with the bytes at `offset`, or fails where the source has too few.
    fn read_exact_at(&self, buf: &mut [u8], offset: u64) -> (r: Result<(), ReadError>)
        ensures
            final(buf)@.len() == old(buf)@.len(),
            r is Ok ==> {
                &&& offset + old(buf)@.len() <= self.content().len() <= u64::MAX
                &&& final(buf)@ == self.content().subrange(
                    offset as int,
                    offset + old(buf)@.len(),
                )
            },
            self.reliable() ==> (r is Ok <==> offset + old(buf)@.len() <= self.content().len()),
    ;
}

/// A source that knows its length.
pub trait Len: ReadAt {
    /// The number of bytes in the source.
    fn len(&self) -> (r: Result<u64, ReadError>)
        ensures
            r matches Ok(n) ==> n == self.content().len(),
            self.reliable() ==> r is Ok,
    ;
}

/// A source held in memory.
pub struct Mem(pub Vec<u8>);

impl ReadAt for Mem {
    open spec fn content(&self) -> Seq<u8> {
        self.0@
    }

    open spec fn reliable(&self) -> bool {
        true
    }

    fn read_at(&self, buf: &mut [u8], offset: u64) -> (r: Result<usize, ReadError>) {
        let total = self.0.len();
        if offset >= total as u64 {
            return Ok(0);
        }
        let start = offset as usize;
        let left = total - start;
        let n = if buf.len() <= left {
            buf.len()
        } else {
            left
        };
        let ghost before = buf@;
        let mut i: usize = 0;
        while i < n
            invariant
                i <= n,
                n <= buf@.len(),
                buf@.len() == before.len(),
                total == self.0@.len(),
                start + n <= total,
                forall|j: int| 0 <= j < i ==> buf@[j] == self.0@[start + j],
                forall|j: int| i <= j < buf@.len() ==> buf@[j] == before[j],
            decreases n - i,
        {
            buf[i] = self.0[start + i];
            i += 1;
        }
        Ok(n)
    }

    fn read_exact_at(&self, buf: &mut [u8], offset: u64) -> (r: Result<(), ReadError>) {
        let total = self.0.len();
        let n = buf.len();
        if offset > total as u64 || total - (offset as usize) < n {
            return Err(ReadError { message: "could not fill buffer".to_string() });
        }
        let start = offset as usize;
        let mut i: usize = 0;
        while i < n
            invariant
                i <= n,
                n == buf@.len(),
                total == self.0@.len(),
                start + n <= total,
                forall|j: int| 0 <= j < i ==> buf@[j] == self.0@[start + j],
            decreases n - i,
        {
            buf[i] = self.0[start + i];
            i += 1;
        }
        assert(buf@ =~= self.0@.subrange(offset as int, offset + n));
        Ok(())
    }
}

impl Len for Mem {
    fn len(&self) -> (r: Result<u64, ReadError>) {
        Ok(self.0.len() as u64)
    }
}

/// Marks the types that can stand for the frame of reference of a section.
pub trait SectionType {

}

impl<T: SectionType> SectionType for Section<T> {

}

impl SectionType for () {

}

/// A range of bytes inside the range that `P` names; `()` stands for the whole file.
#[derive(Debug)]
pub struct Section<P: SectionType = ()> {
    pub offset: u64,
    pub len: u64,
    pub _parent_type: PhantomData<P>,
}

impl<P: SectionType> Clone for Section<P> {
    fn clone(&self) -> (s: Self)
        ensures
            s == *self,
    {
        Section { offset: self.offset, len: self.len, _parent_type: PhantomData }
    }
}

impl<P: SectionType> Copy for Section<P> {

}

impl<P: SectionType> Section<P> {
    /// The index just past the section's last byte.
    pub open spec fn end(self) -> int {
        self.offset + self.len
    }

    /// Whether `child`, given relative to this section, lies inside it.
    pub open spec fn holds(self, child: Section<Self>) -> bool {
        child.offset + child.len <= self.len
    }

    pub fn new(offset: u64, len: u64) -> (s: Self)
        ensures
            s.offset == offset,
            s.len == len,
    {
        Section { offset, len, _parent_type: PhantomData::<P> }
    }

    /// The section `child` of this section, in the coordinates that this section is given in.
    pub fn narrow(&self, child: Section<Self>) -> (s: Self)
        requires
            self.holds(child),
            self.offset + child.offset <= u64::MAX,
        ensures
            s.offset == self.offset + child.offset,
            s.len == child.len,
            self.offset <= s.offset,
            s.end() <= self.end(),
    {
        Self::new(self.offset + child.offset, child.len)
    }

    /// As `narrow`, where `child` lies inside this section and the result's offset
    /// fits 64 bits; `None` otherwise.
    pub fn checked_narrow(&self, child: Section<Self>) -> (r: Option<Self>)
        ensures
            r matches Some(s) ==> s.offset == self.offset + child.offset && s.len == child.len,
            r is Some <==> self.holds(child) && self.offset + child.offset <= u64::MAX,
    {
        match child.offset.checked_add(child.len) {
            Some(e) => {
                if e <= self.len {
                    match self.offset.checked_add(child.offset) {
                        Some(o) => Some(Self::new(o, child.len)),
                        None => None,
                    }
                } else {
                    None
                }
            },
            None => None,
        }
    }
}

impl<P: SectionType> StreamWriter for Section<P> {
    /// The offset, then the length, each as eight bytes, least significant first.
    open spec fn wire(&self) -> Seq<u8> {
        le_bytes(self.offset as nat, 8) + le_bytes(self.len as nat, 8)
    }

    open spec fn writable(&self) -> bool {
        true
    }

    fn write_to(&self, w: &mut Vec<u8>) -> (n: usize) {
        let ghost before = w@;
        put_u64_le(w, self.offset);
        put_u64_le(w, self.len);
        proof {
            lemma_le_bytes_len(self.offset as nat, 8);
            lemma_le_bytes_len(self.len as nat, 8);
            assert(w@ =~= before + self.wire());
        }
        16
    }
}

/// Where a seek is counted from.
#[derive(Debug, Clone, Copy)]
pub enum SeekFrom {
    Start(u64),
    End(i64),
    Current(i64),
}

/// A position in a source, which reads advance.
#[derive(Clone)]
pub struct Cursor<T> {
    pub r: T,
    pub offset: u64,
}

impl<T> Cursor<T> {
    /// A cursor at the start of `r`.
    pub fn new(r: T) -> (c: Self)
        ensures
            c.r == r,
            c.offset == 0,
    {
        Self { r, offset: 0 }
    }

    /// A cursor at the start of `section` of `r`.
    pub fn new_in(r: T, section: Section) -> (c: Self)
        ensures
            c.r == r,
            c.offset == section.offset,
    {
        Self { r, offset: section.offset }
    }
}

impl<'a, T: ReadAt> Cursor<&'a T> {
    /// Reads up to `buf.len()` bytes at the cursor and moves it past them.
    pub fn read(&mut self, buf: &mut [u8]) -> (r: Result<usize, ReadError>)
        ensures
            final(self).r == old(self).r,
            final(buf)@.len() == old(buf)@.len(),
            r matches Ok(n) ==> {
                &&& n <= old(buf)@.len()
                &&& final(self).offset == old(self).offset + n
                &&& n > 0 ==> final(self).offset <= old(self).r.content().len()
                &&& forall|j: int|
                    0 <= j < n ==> final(buf)@[j] == old(self).r.content()[old(self).offset + j]
                &&& forall|j: int| n <= j < old(buf)@.len() ==> final(buf)@[j] == old(buf)@[j]
            },
            r is Err ==> final(self).offset == old(self).offset,
            old(self).r.reliable() ==> (r matches Ok(n) && n == read_len(
                old(self).r.content().len(),
                old(self).offset,
                old(buf)@.len(),
            )),
    {
        match self.r.read_at(buf, self.offset) {
            Ok(n) => {
                if n > 0 {
                    self.offset = self.offset + n as u64;
                }
                Ok(n)
            },
            Err(e) => Err(e),
        }
    }

    /// Fills `buf` with the bytes at the cursor and moves it past them.
    pub fn read_exact(&mut self, buf: &mut [u8]) -> (r: Result<(), ReadError>)
        ensures
            final(self).r == old(self).r,
            final(buf)@.len() == old(buf)@.len(),
            r is Ok ==> {
                &&& final(self).offset == old(self).offset + old(buf)@.len()
                &&& final(self).offset <= old(self).r.content().len()
                &&& final(buf)@ == old(self).r.content().subrange(
                    old(self).offset as int,
                    old(self).offset + old(buf)@.len(),
                )
            },
            r is Err ==> final(self).offset == old(self).offset,
            old(self).r.reliable() ==> (r is Ok <==> old(self).offset + old(buf)@.len() <= old(
                self,
            ).r.content().len()),
    {
        match self.r.read_exact_at(buf, self.offset) {
            Ok(()) => {
                self.offset = self.offset + buf.len() as u64;
                Ok(())
            },
            Err(e) => Err(e),
        }
    }
}

/// The position that a seek to `pos` ends at, from `offset` in a source of `total`
/// bytes; `None` where it falls before the start or past what 64 bits hold.
pub open spec fn seek_target(offset: u64, total: nat, pos: SeekFrom) -> Option<u64> {
    let target: int = match pos {
        SeekFrom::Start(i) => i as int,
        SeekFrom::End(i) => total + i,
        SeekFrom::Current(i) => offset + i,
    };
    if 0 <= target <= u64::MAX {
        Some(target as u64)
    } else {
        None
    }
}

/// `base + delta`, where that is a `u64`.
fn offset_by(base: u64, delta: i64) -> (r: Option<u64>)
    ensures
        r == (if 0 <= base + delta <= u64::MAX {
            Some((base + delta) as u64)
        } else {
            None
        }),
{
    if delta >= 0 {
        base.checked_add(delta as u64)
    } else {
        let back: u64 = if delta == i64::MIN {
            0x8000_0000_0000_0000u64
        } else {
            (-delta) as u64
        };
        base.checked_sub(back)
    }
}

impl<'a, T: Len> Cursor<&'a T> {
    /// Moves the cursor and returns its new position. A seek from the end asks the
    /// source for its length.
    pub fn seek(&mut self, pos: SeekFrom) -> (r: Result<u64, ReadError>)
        ensures
            final(self).r == old(self).r,
            r matches Ok(n) ==> final(self).offset == n && seek_target(
                old(self).offset,
                old(self).r.content().len(),
                pos,
            ) == Some(n),
            r is Err ==> final(self).offset == old(self).offset,
            old(self).r.reliable() ==> (r is Ok <==> seek_target(
                old(self).offset,
                old(self).r.content().len(),
                pos,
            ) is Some),
    {
        let target = match pos {
            SeekFrom::Start(i) => Some(i),
            SeekFrom::Current(i) => offset_by(self.offset, i),
            SeekFrom::End(i) => {
                match self.r.len() {
                    Ok(total) => offset_by(total, i),
                    Err(e) => { return Err(e); },
                }
            },
        };
        match target {
            Some(n) => {
                self.offset = n;
                Ok(n)
            },
            None => Err(ReadError { message: "seek outside the source".to_string() }),
        }
    }
}

} // verus!
