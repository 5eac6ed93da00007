//! The keys: a partition, in it the index or the contents of a document, in the
//! index the posting of a trigram, in the posting a count or a block of a stream.
//!
//! A key is written as the number of its variant in one byte, then its fields,
//! the integers most significant byte first, so that the keys sort as their
//! bytes do.

use vstd::prelude::*;

use crate::error::IndexError;
use crate::ioutil::stream::{
    ByteReader, lemma_bytes3_round_trip, lemma_u16_round_trip, lemma_u32_round_trip, StreamRead,
    StreamWrite,
};
use crate::trigram::DocID;
use crate::wire::lemma_be_bytes_len;

verus! {

/// The number of a partition.
pub type PartitionID = u16;

/// The number of a block of a stream.
pub type BlockID = u32;

/// A part of a posting.
#[derive(PartialEq, Eq, Clone, Debug)]
pub enum TrigramPostingKey {
    SuccessorCount,
    MatrixCount,
    DocCount,
    SuccessorsBlock(BlockID),
    MatrixBlock(BlockID),
    DocsBlock(BlockID),
}

impl TrigramPostingKey {
    /// The number of the variant.
    pub open spec fn spec_discriminant(&self) -> u8 {
        match self {
            Self::SuccessorCount => 0,
            Self::MatrixCount => 1,
            Self::DocCount => 2,
            Self::SuccessorsBlock(_) => 3,
            Self::MatrixBlock(_) => 4,
            Self::DocsBlock(_) => 5,
        }
    }

    pub fn discriminant(&self) -> (d: u8)
        ensures
            d == self.spec_discriminant(),
    {
        match self {
            Self::SuccessorCount => 0,
            Self::MatrixCount => 1,
            Self::DocCount => 2,
            Self::SuccessorsBlock(_) => 3,
            Self::MatrixBlock(_) => 4,
            Self::DocsBlock(_) => 5,
        }
    }
}

impl StreamWrite for TrigramPostingKey {
    open spec fn encoding(&self) -> Seq<u8> {
        match self {
            Self::SuccessorCount | Self::MatrixCount | Self::DocCount => seq![
                self.spec_discriminant(),
            ],
            Self::SuccessorsBlock(b) | Self::MatrixBlock(b) | Self::DocsBlock(b) => seq![
                self.spec_discriminant(),
            ] + b.encoding(),
        }
    }

    fn write_to(&self, w: &mut Vec<u8>) -> (n: usize) {
        let ghost before = w@;
        let mut n = self.discriminant().write_to(w);
        match self {
            Self::SuccessorCount | Self::MatrixCount | Self::DocCount => {},
            Self::SuccessorsBlock(b) | Self::MatrixBlock(b) | Self::DocsBlock(b) => {
                proof {
                    lemma_be_bytes_len(*b as nat, 4);
                }
                n = n + b.write_to(w);
            },
        }
        proof {
            assert(w@ =~= before + self.encoding());
        }
        n
    }
}

impl StreamRead for TrigramPostingKey {
    open spec fn parse(bytes: Seq<u8>) -> Option<(Self, int)> {
        if bytes.len() < 1 {
            None
        } else if bytes[0] == 0 {
            Some((Self::SuccessorCount, 1))
        } else if bytes[0] == 1 {
            Some((Self::MatrixCount, 1))
        } else if bytes[0] == 2 {
            Some((Self::DocCount, 1))
        } else if bytes[0] <= 5 {
            match <u32 as StreamRead>::parse(bytes.skip(1)) {
                Some((b, n)) => Some(
                    (
                        if bytes[0] == 3 {
                            Self::SuccessorsBlock(b)
                        } else if bytes[0] == 4 {
                            Self::MatrixBlock(b)
                        } else {
                            Self::DocsBlock(b)
                        },
                        1 + n,
                    ),
                ),
                None => None,
            }
        } else {
            None
        }
    }

    fn read_from(r: &mut ByteReader) -> (res: Result<Self, IndexError>) {
        let ghost start = r.rest();
        let d = match u8::read_from(r) {
            Ok(d) => d,
            Err(e) => {
                return Err(e);
            },
        };
        if d <= 2 {
            return Ok(
                if d == 0 {
                    Self::SuccessorCount
                } else if d == 1 {
                    Self::MatrixCount
                } else {
                    Self::DocCount
                },
            );
        }
        if d > 5 {
            return Err(IndexError::CorruptStream);
        }
        let b = match u32::read_from(r) {
            Ok(b) => b,
            Err(e) => {
                return Err(e);
            },
        };
        proof {
            assert(start.skip(1).skip(4) =~= start.skip(5));
        }
        Ok(
            if d == 3 {
                Self::SuccessorsBlock(b)
            } else if d == 4 {
                Self::MatrixBlock(b)
            } else {
                Self::DocsBlock(b)
            },
        )
    }
}

/// A part of the index of a partition.
#[derive(PartialEq, Eq, Clone, Debug)]
pub enum IndexKey {
    TrigramPosting([u8; 3], TrigramPostingKey),
}

impl IndexKey {
    /// The number of the variant.
    pub open spec fn spec_discriminant(&self) -> u8 {
        0
    }

    pub fn discriminant(&self) -> (d: u8)
        ensures
            d == self.spec_discriminant(),
    {
        match self {
            Self::TrigramPosting(_, _) => 0,
        }
    }
}

impl StreamWrite for IndexKey {
    open spec fn encoding(&self) -> Seq<u8> {
        match self {
            Self::TrigramPosting(trigram, key) => seq![0u8] + trigram.encoding() + key.encoding(),
        }
    }

    fn write_to(&self, w: &mut Vec<u8>) -> (n: usize) {
        let ghost before = w@;
        let mut n = self.discriminant().write_to(w);
        match self {
            Self::TrigramPosting(trigram, key) => {
                let a = trigram.write_to(w);
                let b = key.write_to(w);
                proof {
                    assert(w@ =~= before + self.encoding());
                }
                n = w.len() - (w.len() - n - a - b);
            },
        }
        n
    }
}

impl StreamRead for IndexKey {
    open spec fn parse(bytes: Seq<u8>) -> Option<(Self, int)> {
        if bytes.len() < 1 || bytes[0] != 0 {
            None
        } else {
            match <[u8; 3] as StreamRead>::parse(bytes.skip(1)) {
                Some((trigram, n1)) => match <TrigramPostingKey as StreamRead>::parse(
                    bytes.skip(1 + n1),
                ) {
                    Some((key, n2)) => Some((Self::TrigramPosting(trigram, key), 1 + n1 + n2)),
                    None => None,
                },
                None => None,
            }
        }
    }

    fn read_from(r: &mut ByteReader) -> (res: Result<Self, IndexError>) {
        let ghost start = r.rest();
        let d = match u8::read_from(r) {
            Ok(d) => d,
            Err(e) => {
                return Err(e);
            },
        };
        if d != 0 {
            return Err(IndexError::CorruptStream);
        }
        let trigram = match <[u8; 3]>::read_from(r) {
            Ok(t) => t,
            Err(e) => {
                return Err(e);
            },
        };
        proof {
            assert(start.skip(1).skip(3) =~= start.skip(4));
        }
        let ghost middle = r.rest();
        let key = match TrigramPostingKey::read_from(r) {
            Ok(k) => k,
            Err(e) => {
                return Err(e);
            },
        };
        proof {
            let got = <TrigramPostingKey as StreamRead>::parse(middle)->0;
            let n2 = got.1;
            assert(start.skip(4).skip(n2) =~= start.skip(4 + n2));
        }
        Ok(Self::TrigramPosting(trigram, key))
    }
}

/// A part of a partition.
#[derive(PartialEq, Eq, Clone, Debug)]
pub enum PartitionKey {
    Index(IndexKey),
    Contents(DocID),
}

impl PartitionKey {
    /// The number of the variant.
    pub open spec fn spec_discriminant(&self) -> u8 {
        match self {
            Self::Index(_) => 0,
            Self::Contents(_) => 1,
        }
    }

    pub fn discriminant(&self) -> (d: u8)
        ensures
            d == self.spec_discriminant(),
    {
        match self {
            Self::Index(_) => 0,
            Self::Contents(_) => 1,
        }
    }
}

impl StreamWrite for PartitionKey {
    open spec fn encoding(&self) -> Seq<u8> {
        match self {
            Self::Index(key) => seq![0u8] + key.encoding(),
            Self::Contents(doc) => seq![1u8] + doc.encoding(),
        }
    }

    fn write_to(&self, w: &mut Vec<u8>) -> (n: usize) {
        let ghost before = w@;
        let start = w.len();
        self.discriminant().write_to(w);
        match self {
            Self::Index(key) => {
                key.write_to(w);
            },
            Self::Contents(doc) => {
                doc.write_to(w);
            },
        }
        proof {
            assert(w@ =~= before + self.encoding());
        }
        w.len() - start
    }
}

impl StreamRead for PartitionKey {
    open spec fn parse(bytes: Seq<u8>) -> Option<(Self, int)> {
        if bytes.len() < 1 {
            None
        } else if bytes[0] == 0 {
            match <IndexKey as StreamRead>::parse(bytes.skip(1)) {
                Some((key, n)) => Some((Self::Index(key), 1 + n)),
                None => None,
            }
        } else if bytes[0] == 1 {
            match <u32 as StreamRead>::parse(bytes.skip(1)) {
                Some((doc, n)) => Some((Self::Contents(doc), 1 + n)),
                None => None,
            }
        } else {
            None
        }
    }

    fn read_from(r: &mut ByteReader) -> (res: Result<Self, IndexError>) {
        let ghost start = r.rest();
        let d = match u8::read_from(r) {
            Ok(d) => d,
            Err(e) => {
                return Err(e);
            },
        };
        if d == 0 {
            let key = match IndexKey::read_from(r) {
                Ok(k) => k,
                Err(e) => {
                    return Err(e);
                },
            };
            proof {
                let got = <IndexKey as StreamRead>::parse(start.skip(1))->0;
                let n = got.1;
                assert(start.skip(1).skip(n) =~= start.skip(1 + n));
            }
            Ok(Self::Index(key))
        } else if d == 1 {
            let doc = match u32::read_from(r) {
                Ok(v) => v,
                Err(e) => {
                    return Err(e);
                },
            };
            proof {
                assert(start.skip(1).skip(4) =~= start.skip(5));
            }
            Ok(Self::Contents(doc))
        } else {
            Err(IndexError::CorruptStream)
        }
    }
}

/// A key of the store.
#[derive(PartialEq, Eq, Clone, Debug)]
pub enum DBKey {
    Partition(PartitionID, PartitionKey),
}

impl DBKey {
    /// The number of the variant.
    pub open spec fn spec_discriminant(&self) -> u8 {
        0
    }

    pub fn discriminant(&self) -> (d: u8)
        ensures
            d == self.spec_discriminant(),
    {
        match self {
            Self::Partition(_, _) => 0,
        }
    }
}

impl StreamWrite for DBKey {
    open spec fn encoding(&self) -> Seq<u8> {
        match self {
            Self::Partition(id, key) => seq![0u8] + id.encoding() + key.encoding(),
        }
    }

    fn write_to(&self, w: &mut Vec<u8>) -> (n: usize) {
        let ghost before = w@;
        let start = w.len();
        self.discriminant().write_to(w);
        match self {
            Self::Partition(id, key) => {
                id.write_to(w);
                key.write_to(w);
            },
        }
        proof {
            assert(w@ =~= before + self.encoding());
        }
        w.len() - start
    }
}

impl StreamRead for DBKey {
    open spec fn parse(bytes: Seq<u8>) -> Option<(Self, int)> {
        if bytes.len() < 1 || bytes[0] != 0 {
            None
        } else {
            match <u16 as StreamRead>::parse(bytes.skip(1)) {
                Some((id, n1)) => match <PartitionKey as StreamRead>::parse(bytes.skip(1 + n1)) {
                    Some((key, n2)) => Some((Self::Partition(id, key), 1 + n1 + n2)),
                    None => None,
                },
                None => None,
            }
        }
    }

    fn read_from(r: &mut ByteReader) -> (res: Result<Self, IndexError>) {
        let ghost start = r.rest();
        let d = match u8::read_from(r) {
            Ok(d) => d,
            Err(e) => {
                return Err(e);
            },
        };
        if d != 0 {
            return Err(IndexError::CorruptStream);
        }
        let id = match u16::read_from(r) {
            Ok(v) => v,
            Err(e) => {
                return Err(e);
            },
        };
        proof {
            assert(start.skip(1).skip(2) =~= start.skip(3));
        }
        let key = match PartitionKey::read_from(r) {
            Ok(k) => k,
            Err(e) => {
                return Err(e);
            },
        };
        proof {
            let got = <PartitionKey as StreamRead>::parse(start.skip(3))->0;
            let n2 = got.1;
            assert(start.skip(3).skip(n2) =~= start.skip(3 + n2));
        }
        Ok(Self::Partition(id, key))
    }
}

/// Reading gives back a part of a posting that was written, whatever follows it.
pub proof fn lemma_posting_key_round_trip(key: TrigramPostingKey, rest: Seq<u8>)
    ensures
        <TrigramPostingKey as StreamRead>::parse(key.encoding() + rest) == Some(
            (key, key.encoding().len() as int),
        ),
{
    let bytes = key.encoding() + rest;
    match key {
        TrigramPostingKey::SuccessorCount
        | TrigramPostingKey::MatrixCount
        | TrigramPostingKey::DocCount => {},
        TrigramPostingKey::SuccessorsBlock(b)
        | TrigramPostingKey::MatrixBlock(b)
        | TrigramPostingKey::DocsBlock(b) => {
            lemma_be_bytes_len(b as nat, 4);
            lemma_u32_round_trip(b, rest);
            assert(bytes.skip(1) =~= b.encoding() + rest);
        },
    }
}

/// Reading gives back a part of an index that was written, whatever follows it.
pub proof fn lemma_index_key_round_trip(key: IndexKey, rest: Seq<u8>)
    ensures
        <IndexKey as StreamRead>::parse(key.encoding() + rest) == Some(
            (key, key.encoding().len() as int),
        ),
{
    let bytes = key.encoding() + rest;
    match key {
        IndexKey::TrigramPosting(trigram, inner) => {
            lemma_bytes3_round_trip(trigram, inner.encoding() + rest);
            lemma_posting_key_round_trip(inner, rest);
            assert(bytes.skip(1) =~= trigram.encoding() + (inner.encoding() + rest));
            assert(bytes.skip(4) =~= inner.encoding() + rest);
        },
    }
}

/// Reading gives back a part of a partition that was written, whatever follows it.
pub proof fn lemma_partition_key_round_trip(key: PartitionKey, rest: Seq<u8>)
    ensures
        <PartitionKey as StreamRead>::parse(key.encoding() + rest) == Some(
            (key, key.encoding().len() as int),
        ),
{
    let bytes = key.encoding() + rest;
    match key {
        PartitionKey::Index(inner) => {
            lemma_index_key_round_trip(inner, rest);
            assert(bytes.skip(1) =~= inner.encoding() + rest);
        },
        PartitionKey::Contents(doc) => {
            lemma_be_bytes_len(doc as nat, 4);
            lemma_u32_round_trip(doc, rest);
            assert(bytes.skip(1) =~= doc.encoding() + rest);
        },
    }
}

/// Reading gives back a key that was written, whatever follows it.
pub proof fn lemma_db_key_round_trip(key: DBKey, rest: Seq<u8>)
    ensures
        <DBKey as StreamRead>::parse(key.encoding() + rest) == Some(
            (key, key.encoding().len() as int),
        ),
{
    let bytes = key.encoding() + rest;
    match key {
        DBKey::Partition(id, inner) => {
            lemma_be_bytes_len(id as nat, 2);
            lemma_u16_round_trip(id, inner.encoding() + rest);
            lemma_partition_key_round_trip(inner, rest);
            assert(bytes.skip(1) =~= id.encoding() + (inner.encoding() + rest));
            assert(bytes.skip(3) =~= inner.encoding() + rest);
        },
    }
}

} // verus!
