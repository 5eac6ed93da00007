//! The two fixed-size records of the file: the footer, and the header of a posting.

use std::marker::PhantomData;
use vstd::prelude::*;
use vstd::slice::slice_subrange;

use crate::build::serialize::StreamWriter;
use crate::error::IndexError;
use crate::ioutil::Section;
use crate::trigram::Trigram;
use crate::wire::{
    get_u32_le, get_u64_le, le_bytes, le_value, lemma_le_bytes_len, lemma_le_round_trip,
    lemma_pow256_values, put_u32_le,
};

verus! {

/// The trigram directory, in the file.
pub type UniqueTrigramsSection = Section;

/// The table of posting ends, in the file.
pub type TrigramPostingEndsSection = Section;

/// The region of all postings, in the file.
pub type TrigramPostingsSection = Section;

/// One posting, in the region of postings.
pub type TrigramPostingSection = Section<TrigramPostingsSection>;

/// The stream of unique successors, in a posting.
pub type SuccessorsSection = Section<TrigramPostingSection>;

/// The stream of documents, in a posting.
pub type DocsSection = Section<TrigramPostingSection>;

/// The stream of the matrix, in a posting.
pub type MatrixSection = Section<TrigramPostingSection>;

/// The section of the sixteen bytes `b`: the offset, then the length.
pub open spec fn section_of(b: Seq<u8>) -> Section {
    Section {
        offset: le_value(b.subrange(0, 8)) as u64,
        len: le_value(b.subrange(8, 16)) as u64,
        _parent_type: PhantomData,
    }
}

/// The footer, at the very end of the file.
#[derive(Debug, Clone)]
pub struct IndexHeader {
    pub num_docs: u32,
    pub trigram_postings: TrigramPostingsSection,
    pub unique_trigrams: UniqueTrigramsSection,
    pub trigram_posting_ends: TrigramPostingEndsSection,
}

impl IndexHeader {
    pub const SIZE_BYTES: usize = 52;

    /// The number of trigrams that the sizes announce.
    pub open spec fn num_trigrams(self) -> nat {
        (self.unique_trigrams.len / 3) as nat
    }

    /// Whether the directory is a whole number of trigrams, the table a whole
    /// number of ends, and the two numbers are one.
    pub open spec fn sizes_consistent(self) -> bool {
        &&& self.unique_trigrams.len % 3 == 0
        &&& self.trigram_posting_ends.len % 8 == 0
        &&& self.unique_trigrams.len / 3 == self.trigram_posting_ends.len / 8
    }

    /// The footer that the 52 bytes `b` hold.
    pub open spec fn spec_parse(b: Seq<u8>) -> IndexHeader {
        IndexHeader {
            num_docs: le_value(b.subrange(0, 4)) as u32,
            trigram_postings: section_of(b.subrange(4, 20)),
            unique_trigrams: section_of(b.subrange(20, 36)),
            trigram_posting_ends: section_of(b.subrange(36, 52)),
        }
    }

    /// What reading a footer from `b` gives.
    pub open spec fn spec_read(b: Seq<u8>) -> Result<IndexHeader, IndexError> {
        if b.len() < 52 {
            Err(IndexError::OpenTooShort)
        } else if !Self::spec_parse(b.subrange(0, 52)).sizes_consistent() {
            Err(IndexError::CorruptHeader)
        } else {
            Ok(Self::spec_parse(b.subrange(0, 52)))
        }
    }

    /// Reads the footer from the first 52 bytes of `bytes`: `OpenTooShort` where
    /// there are fewer, `CorruptHeader` where the sizes are not consistent.
    pub fn read_from(bytes: &[u8]) -> (r: Result<IndexHeader, IndexError>)
        ensures
            r == Self::spec_read(bytes@),
    {
        if bytes.len() < 52 {
            return Err(IndexError::OpenTooShort);
        }
        let ghost b = bytes@.subrange(0, 52);
        let num_docs = get_u32_le(slice_subrange(bytes, 0, 4));
        let tp_offset = get_u64_le(slice_subrange(bytes, 4, 12));
        let tp_len = get_u64_le(slice_subrange(bytes, 12, 20));
        let ut_offset = get_u64_le(slice_subrange(bytes, 20, 28));
        let ut_len = get_u64_le(slice_subrange(bytes, 28, 36));
        let pe_offset = get_u64_le(slice_subrange(bytes, 36, 44));
        let pe_len = get_u64_le(slice_subrange(bytes, 44, 52));
        proof {
            assert(bytes@.subrange(0, 4).subrange(0, 4) =~= b.subrange(0, 4));
            assert(bytes@.subrange(4, 12).subrange(0, 8) =~= b.subrange(4, 20).subrange(0, 8));
            assert(bytes@.subrange(12, 20).subrange(0, 8) =~= b.subrange(4, 20).subrange(8, 16));
            assert(bytes@.subrange(20, 28).subrange(0, 8) =~= b.subrange(20, 36).subrange(0, 8));
            assert(bytes@.subrange(28, 36).subrange(0, 8) =~= b.subrange(20, 36).subrange(8, 16));
            assert(bytes@.subrange(36, 44).subrange(0, 8) =~= b.subrange(36, 52).subrange(0, 8));
            assert(bytes@.subrange(44, 52).subrange(0, 8) =~= b.subrange(36, 52).subrange(8, 16));
        }
        let header = IndexHeader {
            num_docs,
            trigram_postings: Section::new(tp_offset, tp_len),
            unique_trigrams: Section::new(ut_offset, ut_len),
            trigram_posting_ends: Section::new(pe_offset, pe_len),
        };
        assert(header == Self::spec_parse(b));
        if header.unique_trigrams.len % 3 != 0 || header.trigram_posting_ends.len % 8 != 0
            || header.unique_trigrams.len / 3 != header.trigram_posting_ends.len / 8 {
            return Err(IndexError::CorruptHeader);
        }
        Ok(header)
    }

    /// Reading the bytes of a footer gives the footer back.
    pub proof fn lemma_parse_wire(self)
        ensures
            self.wire().len() == 52,
            Self::spec_parse(self.wire()) == self,
    {
        let b = self.wire();
        lemma_pow256_values();
        lemma_le_round_trip(self.num_docs as nat, 4);
        lemma_section_wire(self.trigram_postings);
        lemma_section_wire(self.unique_trigrams);
        lemma_section_wire(self.trigram_posting_ends);
        assert(b.subrange(0, 4) =~= le_bytes(self.num_docs as nat, 4));
        assert(b.subrange(4, 20) =~= self.trigram_postings.wire());
        assert(b.subrange(20, 36) =~= self.unique_trigrams.wire());
        assert(b.subrange(36, 52) =~= self.trigram_posting_ends.wire());
    }
}

/// Reading the bytes of a section gives the section back.
pub proof fn lemma_section_wire(s: Section)
    ensures
        s.wire().len() == 16,
        section_of(s.wire()) == s,
{
    let b = s.wire();
    lemma_pow256_values();
    lemma_le_round_trip(s.offset as nat, 8);
    lemma_le_round_trip(s.len as nat, 8);
    assert(b.subrange(0, 8) =~= le_bytes(s.offset as nat, 8));
    assert(b.subrange(8, 16) =~= le_bytes(s.len as nat, 8));
}

impl StreamWriter for IndexHeader {
    /// The number of documents as four bytes, then the three sections: the
    /// postings, the directory, the table of ends.
    open spec fn wire(&self) -> Seq<u8> {
        le_bytes(self.num_docs as nat, 4) + self.trigram_postings.wire()
            + self.unique_trigrams.wire() + self.trigram_posting_ends.wire()
    }

    open spec fn writable(&self) -> bool {
        true
    }

    fn write_to(&self, w: &mut Vec<u8>) -> (n: usize) {
        let ghost before = w@;
        put_u32_le(w, self.num_docs);
        self.trigram_postings.write_to(w);
        self.unique_trigrams.write_to(w);
        self.trigram_posting_ends.write_to(w);
        proof {
            self.lemma_parse_wire();
            assert(w@ =~= before + self.wire());
        }
        52
    }
}

/// The header at the start of a posting: the trigram, then the number of values
/// and of bytes of each of the three streams that follow.
#[derive(Debug, Clone)]
pub struct PostingHeader {
    pub trigram: Trigram,
    pub successors_count: u32,
    pub successors_bytes: u32,
    pub matrix_count: u32,
    pub matrix_bytes: u32,
    pub docs_count: u32,
    pub docs_bytes: u32,
}

impl Default for PostingHeader {
    fn default() -> (h: PostingHeader)
        ensures
            h.trigram.spec_id() == 0,
            h.successors_count == 0,
            h.successors_bytes == 0,
            h.matrix_count == 0,
            h.matrix_bytes == 0,
            h.docs_count == 0,
            h.docs_bytes == 0,
    {
        PostingHeader {
            trigram: Trigram::default(),
            successors_count: 0,
            successors_bytes: 0,
            matrix_count: 0,
            matrix_bytes: 0,
            docs_count: 0,
            docs_bytes: 0,
        }
    }
}

impl PostingHeader {
    pub const SIZE_BYTES: usize = 27;

    /// The header that the 27 bytes `b` hold.
    pub open spec fn spec_parse(b: Seq<u8>) -> PostingHeader {
        PostingHeader {
            trigram: Trigram([b[0], b[1], b[2]]),
            successors_count: le_value(b.subrange(3, 7)) as u32,
            successors_bytes: le_value(b.subrange(7, 11)) as u32,
            matrix_count: le_value(b.subrange(11, 15)) as u32,
            matrix_bytes: le_value(b.subrange(15, 19)) as u32,
            docs_count: le_value(b.subrange(19, 23)) as u32,
            docs_bytes: le_value(b.subrange(23, 27)) as u32,
        }
    }

    /// The number of bytes of the posting: the header and the three streams.
    pub open spec fn total_bytes(self) -> nat {
        (27 + self.successors_bytes + self.matrix_bytes + self.docs_bytes) as nat
    }

    /// Reads the header from the first 27 bytes of `bytes`: `CorruptStream` where
    /// there are fewer.
    pub fn read_from(bytes: &[u8]) -> (r: Result<PostingHeader, IndexError>)
        ensures
            match r {
                Ok(h) => bytes@.len() >= 27 && h == Self::spec_parse(bytes@.subrange(0, 27)),
                Err(e) => bytes@.len() < 27 && e == IndexError::CorruptStream,
            },
    {
        if bytes.len() < 27 {
            return Err(IndexError::CorruptStream);
        }
        let ghost b = bytes@.subrange(0, 27);
        let trigram = Trigram([bytes[0], bytes[1], bytes[2]]);
        let successors_count = get_u32_le(slice_subrange(bytes, 3, 7));
        let successors_bytes = get_u32_le(slice_subrange(bytes, 7, 11));
        let matrix_count = get_u32_le(slice_subrange(bytes, 11, 15));
        let matrix_bytes = get_u32_le(slice_subrange(bytes, 15, 19));
        let docs_count = get_u32_le(slice_subrange(bytes, 19, 23));
        let docs_bytes = get_u32_le(slice_subrange(bytes, 23, 27));
        proof {
            assert(bytes@.subrange(3, 7).subrange(0, 4) =~= b.subrange(3, 7));
            assert(bytes@.subrange(7, 11).subrange(0, 4) =~= b.subrange(7, 11));
            assert(bytes@.subrange(11, 15).subrange(0, 4) =~= b.subrange(11, 15));
            assert(bytes@.subrange(15, 19).subrange(0, 4) =~= b.subrange(15, 19));
            assert(bytes@.subrange(19, 23).subrange(0, 4) =~= b.subrange(19, 23));
            assert(bytes@.subrange(23, 27).subrange(0, 4) =~= b.subrange(23, 27));
            assert(trigram.0 =~= Self::spec_parse(b).trigram.0);
        }
        Ok(
            PostingHeader {
                trigram,
                successors_count,
                successors_bytes,
                matrix_count,
                matrix_bytes,
                docs_count,
                docs_bytes,
            },
        )
    }

    /// Where the stream of unique successors lies in the posting.
    pub fn successors_section(&self) -> (s: SuccessorsSection)
        ensures
            s.offset == 27,
            s.len == self.successors_bytes,
    {
        Section::new(27, self.successors_bytes as u64)
    }

    /// Where the stream of the matrix lies in the posting.
    pub fn matrix_section(&self) -> (s: MatrixSection)
        ensures
            s.offset == 27 + self.successors_bytes,
            s.len == self.matrix_bytes,
    {
        Section::new(27 + self.successors_bytes as u64, self.matrix_bytes as u64)
    }

    /// Where the stream of documents lies in the posting.
    pub fn docs_section(&self) -> (s: DocsSection)
        ensures
            s.offset == 27 + self.successors_bytes + self.matrix_bytes,
            s.len == self.docs_bytes,
    {
        Section::new(
            27 + self.successors_bytes as u64 + self.matrix_bytes as u64,
            self.docs_bytes as u64,
        )
    }

    /// Reading the bytes of a header gives the header back.
    pub proof fn lemma_parse_wire(self)
        ensures
            self.wire().len() == 27,
            Self::spec_parse(self.wire()) == self,
    {
        let b = self.wire();
        lemma_pow256_values();
        lemma_le_round_trip(self.successors_count as nat, 4);
        lemma_le_round_trip(self.successors_bytes as nat, 4);
        lemma_le_round_trip(self.matrix_count as nat, 4);
        lemma_le_round_trip(self.matrix_bytes as nat, 4);
        lemma_le_round_trip(self.docs_count as nat, 4);
        lemma_le_round_trip(self.docs_bytes as nat, 4);
        assert(b.subrange(3, 7) =~= le_bytes(self.successors_count as nat, 4));
        assert(b.subrange(7, 11) =~= le_bytes(self.successors_bytes as nat, 4));
        assert(b.subrange(11, 15) =~= le_bytes(self.matrix_count as nat, 4));
        assert(b.subrange(15, 19) =~= le_bytes(self.matrix_bytes as nat, 4));
        assert(b.subrange(19, 23) =~= le_bytes(self.docs_count as nat, 4));
        assert(b.subrange(23, 27) =~= le_bytes(self.docs_bytes as nat, 4));
        assert(Self::spec_parse(b).trigram.0 =~= self.trigram.0);
    }
}

impl StreamWriter for PostingHeader {
    /// The trigram's three bytes, then the six numbers, each as four bytes.
    open spec fn wire(&self) -> Seq<u8> {
        self.trigram.bytes() + le_bytes(self.successors_count as nat, 4) + le_bytes(
            self.successors_bytes as nat,
            4,
        ) + le_bytes(self.matrix_count as nat, 4) + le_bytes(self.matrix_bytes as nat, 4)
            + le_bytes(self.docs_count as nat, 4) + le_bytes(self.docs_bytes as nat, 4)
    }

    open spec fn writable(&self) -> bool {
        true
    }

    fn write_to(&self, w: &mut Vec<u8>) -> (n: usize) {
        let ghost before = w@;
        w.push(self.trigram.0[0]);
        w.push(self.trigram.0[1]);
        w.push(self.trigram.0[2]);
        put_u32_le(w, self.successors_count);
        put_u32_le(w, self.successors_bytes);
        put_u32_le(w, self.matrix_count);
        put_u32_le(w, self.matrix_bytes);
        put_u32_le(w, self.docs_count);
        put_u32_le(w, self.docs_bytes);
        proof {
            lemma_le_bytes_len(self.successors_count as nat, 4);
            lemma_le_bytes_len(self.successors_bytes as nat, 4);
            lemma_le_bytes_len(self.matrix_count as nat, 4);
            lemma_le_bytes_len(self.matrix_bytes as nat, 4);
            lemma_le_bytes_len(self.docs_count as nat, 4);
            lemma_le_bytes_len(self.docs_bytes as nat, 4);
            assert(w@ =~= before + self.wire());
        }
        27
    }
}

} // verus!
