//! Trigrams and their 24-bit integer form.

use std::cmp::Ordering;
use vstd::prelude::*;

verus! {

/// The integer form of a trigram: `b0 * 2^16 + b1 * 2^8 + b2`.
pub type TrigramID = u32;

/// The position of a successor within one posting's list of unique successors.
pub type LocalSuccessorIdx = u32;

/// A document's identifier, assigned densely from zero in the order of addition.
pub type DocID = u32;

/// The position of a document within one posting's list of documents.
pub type LocalDocIdx = u32;

/// The sentinel byte that pads a document's end.
pub const SENTINEL: u8 = 0xFF;

/// An ordered triple of bytes.
#[derive(Clone, Copy, Debug, Hash, Eq, Ord)]
pub struct Trigram(pub [u8; 3]);

impl PartialEq for Trigram {
    fn eq(&self, other: &Trigram) -> (r: bool) {
        let r = self.0[0] == other.0[0] && self.0[1] == other.0[1] && self.0[2] == other.0[2];
        proof {
            if r {
                assert(self.0 =~= other.0);
            }
        }
        r
    }
}

impl vstd::std_specs::cmp::PartialEqSpecImpl for Trigram {
    open spec fn obeys_eq_spec() -> bool {
        true
    }

    open spec fn eq_spec(&self, other: &Trigram) -> bool {
        *self == *other
    }
}

impl PartialOrd for Trigram {
    fn partial_cmp(&self, other: &Trigram) -> (r: Option<Ordering>) {
        if self.0[0] < other.0[0] {
            Some(Ordering::Less)
        } else if self.0[0] > other.0[0] {
            Some(Ordering::Greater)
        } else if self.0[1] < other.0[1] {
            Some(Ordering::Less)
        } else if self.0[1] > other.0[1] {
            Some(Ordering::Greater)
        } else if self.0[2] < other.0[2] {
            Some(Ordering::Less)
        } else if self.0[2] > other.0[2] {
            Some(Ordering::Greater)
        } else {
            Some(Ordering::Equal)
        }
    }
}

impl vstd::std_specs::cmp::PartialOrdSpecImpl for Trigram {
    open spec fn obeys_partial_cmp_spec() -> bool {
        true
    }

    open spec fn partial_cmp_spec(&self, other: &Trigram) -> Option<Ordering> {
        if self.spec_lt(*other) {
            Some(Ordering::Less)
        } else if other.spec_lt(*self) {
            Some(Ordering::Greater)
        } else {
            Some(Ordering::Equal)
        }
    }
}

impl Default for Trigram {
    fn default() -> (t: Trigram)
        ensures
            t.spec_id() == 0,
    {
        Trigram([0, 0, 0])
    }
}

/// The integer form of the triple `(b0, b1, b2)`.
pub open spec fn pack3(b0: u8, b1: u8, b2: u8) -> u32 {
    (b0 as u32 * 65536 + b1 as u32 * 256 + b2 as u32) as u32
}

impl Trigram {
    /// The three bytes, as a sequence.
    pub open spec fn bytes(self) -> Seq<u8> {
        self.0@
    }

    /// The integer form, big-endian.
    pub open spec fn spec_id(self) -> u32 {
        pack3(self.0[0], self.0[1], self.0[2])
    }

    /// The trigram whose integer form is the low 24 bits of `u`.
    pub open spec fn spec_from_id(u: u32) -> Trigram {
        Trigram([(u / 65536 % 256) as u8, (u / 256 % 256) as u8, (u % 256) as u8])
    }

    /// Strict lexicographic order on the triples.
    pub open spec fn spec_lt(self, other: Trigram) -> bool {
        self.0[0] < other.0[0] || (self.0[0] == other.0[0] && (self.0[1] < other.0[1] || (self.0[1]
            == other.0[1] && self.0[2] < other.0[2])))
    }

    /// Lexicographic order on the triples.
    pub open spec fn spec_le(self, other: Trigram) -> bool {
        self.0[0] < other.0[0] || (self.0[0] == other.0[0] && (self.0[1] < other.0[1] || (self.0[1]
            == other.0[1] && self.0[2] <= other.0[2])))
    }

    /// The integer form of the trigram.
    pub fn id(&self) -> (u: TrigramID)
        ensures
            u == self.spec_id(),
            u < 0x100_0000,
    {
        let b0: u8 = self.0[0];
        let b1: u8 = self.0[1];
        let b2: u8 = self.0[2];
        assert(((b0 as u32) << 16) == b0 as u32 * 65536 && ((b1 as u32) << 8) == b1 as u32 * 256)
            by (bit_vector);
        ((b0 as u32) << 16) + ((b1 as u32) << 8) + b2 as u32
    }

    /// The trigram with the integer form `u`, of which only the low 24 bits count.
    pub fn from_id(u: TrigramID) -> (t: Trigram)
        ensures
            t == Trigram::spec_from_id(u),
            u < 0x100_0000 ==> t.spec_id() == u,
    {
        assert(((u & 0x00FF0000) >> 16) == u / 65536 % 256 && ((u & 0x0000FF00) >> 8) == u / 256
            % 256 && (u & 0x000000FF) == u % 256) by (bit_vector);
        let t = Trigram(
            [((u & 0x00FF0000) >> 16) as u8, ((u & 0x0000FF00) >> 8) as u8, (u & 0x000000FF) as u8],
        );
        assert(t.0@ =~= Trigram::spec_from_id(u).0@);
        t
    }
}

impl From<u32> for Trigram {
    fn from(u: u32) -> (t: Trigram) {
        Trigram::from_id(u)
    }
}

impl vstd::std_specs::convert::FromSpecImpl<u32> for Trigram {
    open spec fn obeys_from_spec() -> bool {
        true
    }

    open spec fn from_spec(u: u32) -> Trigram {
        Trigram::spec_from_id(u)
    }
}

impl From<Trigram> for u32 {
    fn from(t: Trigram) -> (u: u32) {
        t.id()
    }
}

impl vstd::std_specs::convert::FromSpecImpl<Trigram> for u32 {
    open spec fn obeys_from_spec() -> bool {
        true
    }

    open spec fn from_spec(t: Trigram) -> u32 {
        t.spec_id()
    }
}

impl From<[u8; 3]> for Trigram {
    fn from(b: [u8; 3]) -> (t: Trigram) {
        Trigram(b)
    }
}

impl vstd::std_specs::convert::FromSpecImpl<[u8; 3]> for Trigram {
    open spec fn obeys_from_spec() -> bool {
        true
    }

    open spec fn from_spec(b: [u8; 3]) -> Trigram {
        Trigram(b)
    }
}

impl From<Trigram> for [u8; 3] {
    fn from(t: Trigram) -> (b: [u8; 3]) {
        t.0
    }
}

impl vstd::std_specs::convert::FromSpecImpl<Trigram> for [u8; 3] {
    open spec fn obeys_from_spec() -> bool {
        true
    }

    open spec fn from_spec(t: Trigram) -> [u8; 3] {
        t.0
    }
}

impl Trigram {
    /// The trigram of the first three bytes of `s`, where `s` has three.
    pub fn try_from_slice(s: &[u8]) -> (r: Option<Trigram>)
        ensures
            match r {
                Some(t) => s@.len() >= 3 && t.bytes() == s@.subrange(0, 3),
                None => s@.len() < 3,
            },
    {
        if s.len() < 3 {
            return None;
        }
        let t = Trigram([s[0], s[1], s[2]]);
        proof {
            assert(t.bytes() =~= s@.subrange(0, 3));
        }
        Some(t)
    }
}

/// The integer form of a trigram is below `2^24`, and gives the trigram back.
pub proof fn lemma_id_round_trip(t: Trigram)
    ensures
        t.spec_id() < 0x100_0000,
        Trigram::spec_from_id(t.spec_id()) == t,
{
    assert(Trigram::spec_from_id(t.spec_id()).0 =~= t.0);
}

/// A number below `2^24` is the integer form of the trigram that it gives.
pub proof fn lemma_from_id_round_trip(u: u32)
    requires
        u < 0x100_0000,
    ensures
        Trigram::spec_from_id(u).spec_id() == u,
{
}

/// The integer form orders the trigrams as the triples are ordered: one trigram
/// is at or below another if and only if its integer form is.
pub proof fn lemma_id_preserves_order(t1: Trigram, t2: Trigram)
    ensures
        t1.spec_le(t2) <==> t1.spec_id() <= t2.spec_id(),
        t1.spec_lt(t2) <==> t1.spec_id() < t2.spec_id(),
        t1 == t2 <==> t1.spec_id() == t2.spec_id(),
{
    if t1.spec_id() == t2.spec_id() {
        assert(t1.0 =~= t2.0);
    }
}

} // verus!
