//! Reading an index: the footer, the trigram directory, and the queries.

pub mod header;
pub mod query;
pub mod stats;

use vstd::prelude::*;
use vstd::slice::slice_subrange;

use crate::build::extract::strictly_increasing;
use crate::build::serialize::{delta_decoding, read_sorted_u32s};
use crate::error::IndexError;
use crate::guarantees::{docs_in_order, lemma_answer_ascends, postings_in_order};
use crate::index::query::{filtered, 
    dedup_rows, DocIDMapper, find_prefix_range, find_rows, find_successor, position, search_streams,
};
use crate::ioutil::{Cursor, Len, ReadAt, Section, SectionType};
use crate::trigram::{DocID, pack3, Trigram};
use crate::wire::{get_u64_le, le_value};

pub use header::{
    DocsSection, IndexHeader, MatrixSection, PostingHeader, SuccessorsSection,
    TrigramPostingEndsSection, TrigramPostingSection, TrigramPostingsSection,
    UniqueTrigramsSection,
};

verus! {

/// What opening an index keeps of it: the footer, the trigrams of the directory
/// in their integer form, and the ends of the postings.
pub struct IndexMeta {
    pub header: IndexHeader,
    pub trigrams: Seq<u32>,
    pub ends: Seq<u64>,
}

/// The `i`-th trigram of the directory that the footer `h` locates in `file`.
pub open spec fn directory_at(file: Seq<u8>, h: IndexHeader, i: int) -> u32 {
    let at = h.unique_trigrams.offset + 3 * i;
    pack3(file[at], file[at + 1], file[at + 2])
}

/// The `i`-th end of the table that the footer `h` locates in `file`.
pub open spec fn end_at(file: Seq<u8>, h: IndexHeader, i: int) -> u64 {
    let at = h.trigram_posting_ends.offset + 8 * i;
    le_value(file.subrange(at, at + 8)) as u64
}

/// Whether the ends never decrease and stay within `limit`.
pub open spec fn ends_ordered(ends: Seq<u64>, limit: u64) -> bool {
    &&& forall|i: int, j: int| 0 <= i <= j < ends.len() ==> ends[i] <= ends[j]
    &&& forall|i: int| 0 <= i < ends.len() ==> ends[i] <= limit
}

/// Whether the three sections of the footer lie within a file of `len` bytes.
pub open spec fn sections_within(h: IndexHeader, len: nat) -> bool {
    &&& h.trigram_postings.offset + h.trigram_postings.len <= len
    &&& h.unique_trigrams.offset + h.unique_trigrams.len <= len
    &&& h.trigram_posting_ends.offset + h.trigram_posting_ends.len <= len
}

/// What the footer `h` locates in `file`.
pub open spec fn meta_of(file: Seq<u8>, h: IndexHeader) -> IndexMeta {
    IndexMeta {
        header: h,
        trigrams: Seq::new(h.num_trigrams(), |i: int| directory_at(file, h, i)),
        ends: Seq::new(h.num_trigrams(), |i: int| end_at(file, h, i)),
    }
}

/// What opening `file` gives: `OpenTooShort` where it is shorter than the footer;
/// `CorruptHeader` where the sizes of the footer are not consistent, a section
/// does not lie within the file, the directory does not ascend strictly, or
/// the table of ends decreases or passes the end of the postings; `TooLarge`
/// where the directory or the table does not fit the memory of the machine.
pub open spec fn spec_open(file: Seq<u8>) -> Result<IndexMeta, IndexError> {
    if file.len() < 52 {
        Err(IndexError::OpenTooShort)
    } else if file.len() > u64::MAX {
        Err(IndexError::TooLarge)
    } else {
        match IndexHeader::spec_read(file.subrange(file.len() - 52, file.len() as int)) {
            Err(e) => Err(e),
            Ok(h) => {
                let meta = meta_of(file, h);
                if !sections_within(h, file.len()) {
                    Err(IndexError::CorruptHeader)
                } else if h.unique_trigrams.len > usize::MAX || h.trigram_posting_ends.len
                    > usize::MAX {
                    Err(IndexError::TooLarge)
                } else if !strictly_increasing(meta.trigrams) || !ends_ordered(
                    meta.ends,
                    h.trigram_postings.len,
                ) {
                    Err(IndexError::CorruptHeader)
                } else {
                    Ok(meta)
                }
            },
        }
    }
}

/// The answer of the posting with the header `h` at `at` in `file`.
pub open spec fn search_header(file: Seq<u8>, at: int, h: PostingHeader, rest: Seq<u8>) -> Result<
    Seq<u32>,
    IndexError,
> {
    let u_at = at + 27;
    let m_at = u_at + h.successors_bytes;
    let d_at = m_at + h.matrix_bytes;
    search_streams(
        delta_decoding(file.subrange(u_at, m_at), h.successors_count as nat, 0),
        delta_decoding(file.subrange(m_at, d_at), h.matrix_count as nat, 0),
        delta_decoding(file.subrange(d_at, d_at + h.docs_bytes), h.docs_count as nat, 0),
        rest,
    )
}

/// The answer of the posting of `len` bytes at `at` in `file` to what is left of
/// a query: `CorruptStream` where the posting is shorter than its header, or than
/// its header says.
pub open spec fn search_posting(file: Seq<u8>, at: int, len: int, rest: Seq<u8>) -> Result<
    Seq<u32>,
    IndexError,
> {
    if len < 27 {
        Err(IndexError::CorruptStream)
    } else {
        let h = PostingHeader::spec_parse(file.subrange(at, at + 27));
        if h.total_bytes() > len {
            Err(IndexError::CorruptStream)
        } else {
            search_header(file, at, h, rest)
        }
    }
}

/// The offset at which the `i`-th posting begins in the region of postings.
pub open spec fn start_of(ends: Seq<u64>, i: int) -> u64 {
    if i == 0 {
        0
    } else {
        ends[i - 1]
    }
}

/// The answer of an opened index to `query`: every document where the query has
/// fewer than three bytes, no document where its first three bytes are no key,
/// and else the answer of their posting.
pub open spec fn candidates_of(file: Seq<u8>, meta: IndexMeta, query: Seq<u8>) -> Result<
    Seq<u32>,
    IndexError,
> {
    if query.len() < 3 {
        Ok(Seq::new(meta.header.num_docs as nat, |i: int| i as u32))
    } else {
        match position(meta.trigrams, pack3(query[0], query[1], query[2]), 0) {
            None => Ok(Seq::empty()),
            Some(i) => search_posting(
                file,
                meta.header.trigram_postings.offset + start_of(meta.ends, i),
                meta.ends[i] - start_of(meta.ends, i),
                query.skip(3),
            ),
        }
    }
}

/// The answer of the index file `file` to `query`.
pub open spec fn spec_candidates(file: Seq<u8>, query: Seq<u8>) -> Result<Seq<u32>, IndexError> {
    match spec_open(file) {
        Ok(meta) => candidates_of(file, meta, query),
        Err(e) => Err(e),
    }
}

/// In an ascending sequence a value stands at one index only.
pub proof fn lemma_position_found(s: Seq<u32>, x: u32, i: int, from: int)
    requires
        strictly_increasing(s),
        0 <= from <= i < s.len(),
        s[i] == x,
    ensures
        position(s, x, from) == Some(i),
    decreases i - from,
{
    if from < i {
        assert(s[from] < s[i]);
        lemma_position_found(s, x, i, from + 1);
    }
}

/// A value that a sequence does not hold has no position in it.
pub proof fn lemma_position_absent(s: Seq<u32>, x: u32, from: int)
    requires
        0 <= from,
        forall|j: int| from <= j < s.len() ==> s[j] != x,
    ensures
        position(s, x, from) is None,
    decreases s.len() - from,
{
    if from < s.len() {
        lemma_position_absent(s, x, from + 1);
    }
}

/// Reads the `len` bytes at `offset` of a source.
pub fn read_bytes<R: ReadAt>(r: &R, offset: u64, len: usize) -> (res: Result<Vec<u8>, IndexError>)
    ensures
        match res {
            Ok(b) => offset + len <= r.content().len() && b@ == r.content().subrange(
                offset as int,
                offset + len,
            ),
            Err(e) => e is Io && !(r.reliable() && offset + len <= r.content().len()),
        },
{
    let mut buf: Vec<u8> = vec![0u8; len];
    let mut cursor = Cursor::new_in(r, Section::new(offset, len as u64));
    match cursor.read_exact(buf.as_mut_slice()) {
        Ok(()) => Ok(buf),
        Err(e) => Err(IndexError::from_read(e)),
    }
}

/// An index, opened over a source of bytes.
pub struct Index<R> {
    header: IndexHeader,
    unique_trigrams: Vec<Trigram>,
    trigram_posting_ends: Vec<u64>,
    r: R,
}

/// The integer forms of the trigrams of a directory.
pub open spec fn ids_of(trigrams: Seq<Trigram>) -> Seq<u32> {
    Seq::new(trigrams.len(), |i: int| trigrams[i].spec_id())
}

impl<R: ReadAt + Len> Index<R> {
    /// The bytes of the index file.
    pub closed spec fn content(&self) -> Seq<u8> {
        self.r.content()
    }

    /// Whether the source of the index never fails a read.
    pub closed spec fn reliable(&self) -> bool {
        self.r.reliable()
    }

    /// What the index keeps in memory.
    pub closed spec fn meta(&self) -> IndexMeta {
        IndexMeta {
            header: self.header,
            trigrams: ids_of(self.unique_trigrams@),
            ends: self.trigram_posting_ends@,
        }
    }

    /// The invariant of an opened index: what it keeps is what its file holds.
    pub closed spec fn wf(&self) -> bool {
        spec_open(self.r.content()) == Ok::<IndexMeta, IndexError>(self.meta())
    }

    /// What an opened index keeps is what opening its file gives: the footer at
    /// the end of the file, with consistent sizes and its sections within the
    /// file; the directory, which ascends strictly; and the table of ends, which
    /// never decreases and stays within the postings. Both have as many entries
    /// as the footer announces.
    pub proof fn lemma_opened(&self)
        requires
            self.wf(),
        ensures
            spec_open(self.content()) == Ok::<IndexMeta, IndexError>(self.meta()),
            self.content().len() >= 52,
            self.meta().header.sizes_consistent(),
            sections_within(self.meta().header, self.content().len()),
            self.meta() == meta_of(self.content(), self.meta().header),
            self.meta().trigrams.len() == self.meta().header.num_trigrams(),
            self.meta().ends.len() == self.meta().header.num_trigrams(),
            strictly_increasing(self.meta().trigrams),
            ends_ordered(self.meta().ends, self.meta().header.trigram_postings.len),
    {
    }

    /// The footer, read from the last 52 bytes of the source.
    fn read_header(r: &R) -> (res: Result<IndexHeader, IndexError>)
        ensures
            match res {
                Ok(h) => 52 <= r.content().len() <= u64::MAX && IndexHeader::spec_read(
                    r.content().subrange(r.content().len() - 52, r.content().len() as int),
                ) == Ok::<IndexHeader, IndexError>(h),
                Err(e) => (e is Io && !r.reliable()) || (e == IndexError::OpenTooShort
                    && r.content().len() < 52) || (52 <= r.content().len() <= u64::MAX
                    && IndexHeader::spec_read(
                    r.content().subrange(r.content().len() - 52, r.content().len() as int),
                ) == Err::<IndexHeader, IndexError>(e)),
            },
    {
        let total = match r.len() {
            Ok(n) => n,
            Err(e) => {
                return Err(IndexError::from_read(e));
            },
        };
        if total < 52 {
            return Err(IndexError::OpenTooShort);
        }
        let footer = match read_bytes(r, total - 52, 52) {
            Ok(b) => b,
            Err(e) => {
                return Err(e);
            },
        };
        proof {
            assert(footer@.subrange(0, 52) =~= footer@);
        }
        match IndexHeader::read_from(footer.as_slice()) {
            Ok(h) => Ok(h),
            Err(e) => Err(e),
        }
    }

    /// Opens the index that `r` holds: reads the footer, and loads the directory
    /// and the table of ends. Fails as `spec_open` says of the bytes of `r`, and
    /// with the error of `r` where `r` fails a read.
    #[verifier::rlimit(30)]
    pub fn new(r: R) -> (res: Result<Self, IndexError>)
        ensures
            match res {
                Ok(index) => index.wf() && index.content() == r.content() && index.reliable()
                    == r.reliable() && spec_open(r.content()) == Ok::<IndexMeta, IndexError>(
                    index.meta(),
                ),
                Err(e) => (e is Io && !r.reliable()) || spec_open(r.content()) == Err::<
                    IndexMeta,
                    IndexError,
                >(e),
            },
    {
        let header = match Self::read_header(&r) {
            Ok(h) => h,
            Err(e) => {
                return Err(e);
            },
        };
        let ghost file = r.content();
        let total = match r.len() {
            Ok(n) => n,
            Err(e) => {
                return Err(IndexError::from_read(e));
            },
        };
        if !section_within(&header.trigram_postings, total) || !section_within(
            &header.unique_trigrams,
            total,
        ) || !section_within(&header.trigram_posting_ends, total) {
            return Err(IndexError::CorruptHeader);
        }
        if header.unique_trigrams.len > usize::MAX as u64 || header.trigram_posting_ends.len
            > usize::MAX as u64 {
            return Err(IndexError::TooLarge);
        }
        let n: usize = (header.unique_trigrams.len / 3) as usize;
        let directory = match read_bytes(
            &r,
            header.unique_trigrams.offset,
            header.unique_trigrams.len as usize,
        ) {
            Ok(b) => b,
            Err(e) => {
                return Err(e);
            },
        };
        let ghost meta = meta_of(file, header);
        let mut unique_trigrams: Vec<Trigram> = Vec::new();
        let mut sorted = true;
        let mut i: usize = 0;
        let directory_len = directory.len();
        while i < n
            invariant
                i <= n,
                directory@.len() == 3 * n,
                directory_len == 3 * n,
                n == header.num_trigrams(),
                meta == meta_of(file, header),
                directory@ == file.subrange(
                    header.unique_trigrams.offset as int,
                    header.unique_trigrams.offset + 3 * n,
                ),
                header.unique_trigrams.offset + 3 * n <= file.len(),
                unique_trigrams@.len() == i,
                forall|j: int| 0 <= j < i ==> unique_trigrams@[j].spec_id() == meta.trigrams[j],
                sorted <==> strictly_increasing(meta.trigrams.subrange(0, i as int)),
            decreases n - i,
        {
            let t = Trigram([directory[3 * i], directory[3 * i + 1], directory[3 * i + 2]]);
            let id = t.id();
            proof {
                assert(id == meta.trigrams[i as int]);
                let shorter = meta.trigrams.subrange(0, i as int);
                let longer = meta.trigrams.subrange(0, i + 1);
                if i > 0 {
                    assert(shorter[i - 1] == meta.trigrams[i - 1]);
                }
                assert(forall|j: int| 0 <= j < i ==> shorter[j] == longer[j]);
                assert(longer[i as int] == id);
                if strictly_increasing(longer) {
                    assert forall|a: int, b: int| 0 <= a < b < shorter.len() implies shorter[a]
                        < shorter[b] by {
                        assert(longer[a] < longer[b]);
                    }
                    if i > 0 {
                        assert(longer[i - 1] < longer[i as int]);
                    }
                }
                if strictly_increasing(shorter) && (i == 0 || meta.trigrams[i - 1] < id) {
                    assert forall|a: int, b: int| 0 <= a < b < longer.len() implies longer[a]
                        < longer[b] by {
                        if b < i {
                            assert(shorter[a] < shorter[b]);
                        } else if a < i - 1 {
                            assert(shorter[a] < shorter[i - 1]);
                        }
                    }
                }
            }
            if i > 0 {
                let before = unique_trigrams[i - 1].id();
                if before >= id {
                    sorted = false;
                }
            }
            unique_trigrams.push(t);
            i += 1;
        }
        proof {
            assert(meta.trigrams.subrange(0, n as int) =~= meta.trigrams);
            assert(ids_of(unique_trigrams@) =~= meta.trigrams);
        }
        if !sorted {
            return Err(IndexError::CorruptHeader);
        }
        let table = match read_bytes(
            &r,
            header.trigram_posting_ends.offset,
            header.trigram_posting_ends.len as usize,
        ) {
            Ok(b) => b,
            Err(e) => {
                return Err(e);
            },
        };
        let mut trigram_posting_ends: Vec<u64> = Vec::new();
        let mut ordered = true;
        let mut i: usize = 0;
        let table_len = table.len();
        while i < n
            invariant
                i <= n,
                table@.len() == 8 * n,
                table_len == 8 * n,
                n == header.num_trigrams(),
                meta == meta_of(file, header),
                table@ == file.subrange(
                    header.trigram_posting_ends.offset as int,
                    header.trigram_posting_ends.offset + 8 * n,
                ),
                header.trigram_posting_ends.offset + 8 * n <= file.len(),
                trigram_posting_ends@.len() == i,
                forall|j: int| 0 <= j < i ==> trigram_posting_ends@[j] == meta.ends[j],
                ordered <==> ends_ordered(
                    meta.ends.subrange(0, i as int),
                    header.trigram_postings.len,
                ),
            decreases n - i,
        {
            let end = get_u64_le(slice_subrange(table.as_slice(), 8 * i, 8 * i + 8));
            proof {
                let at = header.trigram_posting_ends.offset + 8 * i;
                assert(table@.subrange(8 * i, 8 * i + 8).subrange(0, 8) =~= file.subrange(
                    at,
                    at + 8,
                ));
                assert(end == meta.ends[i as int]);
                let shorter = meta.ends.subrange(0, i as int);
                let longer = meta.ends.subrange(0, i + 1);
                let limit = header.trigram_postings.len;
                if i > 0 {
                    assert(shorter[i - 1] == meta.ends[i - 1]);
                }
                assert(forall|j: int| 0 <= j < i ==> shorter[j] == longer[j]);
                assert(longer[i as int] == end);
                if ends_ordered(longer, limit) {
                    assert forall|a: int, b: int| 0 <= a <= b < shorter.len() implies shorter[a]
                        <= shorter[b] by {
                        assert(longer[a] <= longer[b]);
                    }
                    assert forall|a: int| 0 <= a < shorter.len() implies shorter[a] <= limit by {
                        assert(longer[a] <= limit);
                    }
                    if i > 0 {
                        assert(longer[i - 1] <= longer[i as int]);
                    }
                    assert(longer[i as int] <= limit);
                }
                if ends_ordered(shorter, limit) && (i == 0 || meta.ends[i - 1] <= end) && end
                    <= limit {
                    assert forall|a: int, b: int| 0 <= a <= b < longer.len() implies longer[a]
                        <= longer[b] by {
                        if b < i {
                            assert(shorter[a] <= shorter[b]);
                        } else if a < i - 1 {
                            assert(shorter[a] <= shorter[i - 1]);
                        }
                    }
                    assert forall|a: int| 0 <= a < longer.len() implies longer[a] <= limit by {
                        if a < i {
                            assert(shorter[a] <= limit);
                        }
                    }
                }
            }
            if end > header.trigram_postings.len {
                ordered = false;
            }
            if i > 0 {
                if trigram_posting_ends[i - 1] > end {
                    ordered = false;
                }
            }
            trigram_posting_ends.push(end);
            i += 1;
        }
        proof {
            assert(meta.ends.subrange(0, n as int) =~= meta.ends);
            assert(trigram_posting_ends@ =~= meta.ends);
        }
        if !ordered {
            return Err(IndexError::CorruptHeader);
        }
        Ok(Self { header, unique_trigrams, trigram_posting_ends, r })
    }

    /// The number of documents of the index.
    pub fn num_docs(&self) -> (n: u32)
        ensures
            n == self.meta().header.num_docs,
    {
        self.header.num_docs
    }

    /// The footer of the index.
    pub fn header(&self) -> (h: &IndexHeader)
        ensures
            *h == self.meta().header,
    {
        &self.header
    }

    /// The trigram directory.
    pub fn unique_trigrams(&self) -> (t: &Vec<Trigram>)
        ensures
            ids_of(t@) == self.meta().trigrams,
    {
        &self.unique_trigrams
    }

    /// The table of the ends of the postings.
    pub fn trigram_posting_ends(&self) -> (t: &Vec<u64>)
        ensures
            t@ == self.meta().ends,
    {
        &self.trigram_posting_ends
    }

    /// Where the posting of `t` lies in the region of postings, where there is one.
    pub fn trigram_section(&self, t: Trigram) -> (r: Option<TrigramPostingSection>)
        requires
            self.wf(),
        ensures
            match r {
                Some(s) => position(self.meta().trigrams, t.spec_id(), 0) matches Some(i)
                    && s.offset == start_of(self.meta().ends, i) && s.len == self.meta().ends[i]
                    - start_of(self.meta().ends, i) && s.offset + s.len
                    <= self.meta().header.trigram_postings.len,
                None => position(self.meta().trigrams, t.spec_id(), 0) is None,
            },
    {
        let id = t.id();
        let ghost ids = ids_of(self.unique_trigrams@);
        let mut lo: usize = 0;
        let mut hi: usize = self.unique_trigrams.len();
        while lo < hi
            invariant
                lo <= hi <= ids.len(),
                ids == ids_of(self.unique_trigrams@),
                strictly_increasing(ids),
                forall|i: int| 0 <= i < lo ==> ids[i] < id,
                forall|i: int| hi <= i < ids.len() ==> ids[i] >= id,
            decreases hi - lo,
        {
            let mid = lo + (hi - lo) / 2;
            let at = self.unique_trigrams[mid].id();
            proof {
                assert(at == ids[mid as int]);
            }
            if at < id {
                assert forall|i: int| 0 <= i < mid + 1 implies ids[i] < id by {
                    if i < mid {
                        assert(ids[i] < ids[mid as int]);
                    }
                }
                lo = mid + 1;
            } else {
                assert forall|i: int| mid <= i < ids.len() implies ids[i] >= id by {
                    if i > mid {
                        assert(ids[mid as int] < ids[i]);
                    }
                }
                hi = mid;
            }
        }
        if lo < self.unique_trigrams.len() && self.unique_trigrams[lo].id() == id {
            proof {
                assert(ids[lo as int] == id);
                lemma_position_found(ids, id, lo as int, 0);
            }
            let start = if lo == 0 {
                0
            } else {
                self.trigram_posting_ends[lo - 1]
            };
            let end = self.trigram_posting_ends[lo];
            proof {
                if lo > 0 {
                    assert(self.meta().ends[lo - 1] <= self.meta().ends[lo as int]);
                }
            }
            Some(Section::new(start, end - start))
        } else {
            proof {
                assert forall|j: int| 0 <= j < ids.len() implies ids[j] != id by {
                    if j > lo {
                        assert(ids[lo as int] < ids[j]);
                    }
                }
                lemma_position_absent(ids, id, 0);
            }
            None
        }
    }

    /// The documents that may hold `query`: every document where the query has
    /// fewer than three bytes; else those of the posting of its first three
    /// bytes in which a successor of that trigram begins with the next bytes,
    /// up to three of them. Bytes of the query past the sixth are not looked at:
    /// the answer may name documents that do not hold the query, and the caller
    /// has to look into them. Fails with `CorruptStream` where the posting or a
    /// stream that the query needs cannot be read as the format says. Where the
    /// postings of the file name their documents in ascending order, the answer
    /// ascends, names no document twice, and names documents of the index only.
    pub fn candidates(&self, query: &[u8]) -> (res: Result<Vec<DocID>, IndexError>)
        requires
            self.wf(),
        ensures
            match res {
                Ok(ids) => spec_candidates(self.content(), query@) == Ok::<Seq<u32>, IndexError>(
                    ids@,
                ),
                Err(e) => (e is Io && !self.reliable()) || spec_candidates(self.content(), query@)
                    == Err::<Seq<u32>, IndexError>(e),
            },
            postings_in_order(self.content()) ==> (res matches Ok(ids) ==> docs_in_order(
                ids@,
                self.meta().header.num_docs,
            )),
    {
        proof {
            if postings_in_order(self.content()) {
                lemma_answer_ascends(self.content(), query@);
            }
        }
        if query.len() < 3 {
            let mut all: Vec<u32> = Vec::new();
            let mut d: u32 = 0;
            while d < self.header.num_docs
                invariant
                    d <= self.header.num_docs,
                    all@ == Seq::new(d as nat, |i: int| i as u32),
                decreases self.header.num_docs - d,
            {
                all.push(d);
                proof {
                    assert(all@ =~= Seq::new((d + 1) as nat, |i: int| i as u32));
                }
                d += 1;
            }
            return Ok(all);
        }
        let leading = Trigram([query[0], query[1], query[2]]);
        let rest = slice_subrange(query, 3, query.len());
        proof {
            assert(rest@ =~= query@.skip(3));
        }
        let section = match self.trigram_section(leading) {
            Some(s) => s,
            None => {
                return Ok(Vec::new());
            },
        };
        if section.len < 27 {
            return Err(IndexError::CorruptStream);
        }
        let absolute = self.header.trigram_postings.narrow(section);
        let head = match read_bytes(&self.r, absolute.offset, 27) {
            Ok(b) => b,
            Err(e) => {
                return Err(e);
            },
        };
        let posting_header = match PostingHeader::read_from(head.as_slice()) {
            Ok(h) => h,
            Err(e) => {
                return Err(e);
            },
        };
        proof {
            assert(head@.subrange(0, 27) =~= head@);
        }
        let searcher = PostingSearcher::new(
            self.header.trigram_postings,
            section,
            posting_header,
            &self.r,
        );
        searcher.search(rest)
    }
}

/// Whether `s` lies within a file of `total` bytes.
fn section_within(s: &Section, total: u64) -> (b: bool)
    ensures
        b == (s.offset + s.len <= total),
{
    match s.offset.checked_add(s.len) {
        Some(end) => end <= total,
        None => false,
    }
}

/// One posting of an index, ready to answer what is left of a query.
pub struct PostingSearcher<'a, R> {
    postings_section: TrigramPostingsSection,
    posting_section: TrigramPostingSection,
    header: PostingHeader,
    r: &'a R,
}

impl<'a, R: ReadAt + Len> PostingSearcher<'a, R> {
    /// Whether the posting lies in the region of postings, the region in the
    /// source, and the three streams in the posting.
    pub closed spec fn fits(&self) -> bool {
        &&& self.posting_section.offset + self.posting_section.len <= self.postings_section.len
        &&& self.postings_section.offset + self.postings_section.len <= self.r.content().len()
        &&& self.r.content().len() <= u64::MAX
        &&& self.header.total_bytes() <= self.posting_section.len
    }

    /// The answer of the posting: `CorruptStream` where it does not fit.
    pub closed spec fn spec_search(&self, rest: Seq<u8>) -> Result<Seq<u32>, IndexError> {
        if !self.fits() {
            Err(IndexError::CorruptStream)
        } else {
            search_header(
                self.r.content(),
                self.postings_section.offset + self.posting_section.offset,
                self.header,
                rest,
            )
        }
    }

    /// Whether the source never fails a read.
    pub closed spec fn reliable(&self) -> bool {
        self.r.reliable()
    }

    /// The `count` values of the stream of `len` bytes at `at` in the posting, as
    /// far as they can be decoded.
    pub closed spec fn spec_stream(&self, at: int, len: int, count: u32) -> Option<Seq<u32>> {
        let from = self.postings_section.offset + self.posting_section.offset + at;
        delta_decoding(self.r.content().subrange(from, from + len), count as nat, 0)
    }

    /// The unique successors, as far as they can be decoded.
    pub closed spec fn spec_successors(&self) -> Option<Seq<u32>> {
        self.spec_stream(27, self.header.successors_bytes as int, self.header.successors_count)
    }

    /// The matrix, as far as it can be decoded.
    pub closed spec fn spec_matrix(&self) -> Option<Seq<u32>> {
        self.spec_stream(
            27 + self.header.successors_bytes,
            self.header.matrix_bytes as int,
            self.header.matrix_count,
        )
    }

    /// The documents, as far as they can be decoded.
    pub closed spec fn spec_docs(&self) -> Option<Seq<u32>> {
        self.spec_stream(
            27 + self.header.successors_bytes + self.header.matrix_bytes,
            self.header.docs_bytes as int,
            self.header.docs_count,
        )
    }

    /// Whether `res` is what reading and decoding a stream gives, where `stream`
    /// is the stream as far as it can be decoded: its values, or `CorruptStream`,
    /// or the error of a source that fails a read.
    pub closed spec fn decoded(
        &self,
        res: Result<Vec<u32>, IndexError>,
        stream: Option<Seq<u32>>,
    ) -> bool {
        match res {
            Ok(vals) => stream == Some(vals@),
            Err(e) => (e is Io && !self.r.reliable()) || (e == IndexError::CorruptStream
                && stream is None),
        }
    }

    pub fn new(
        postings_section: TrigramPostingsSection,
        posting_section: TrigramPostingSection,
        header: PostingHeader,
        r: &'a R,
    ) -> (s: Self)
        ensures
            s.reliable() == r.reliable(),
            s.fits() == (posting_section.offset + posting_section.len <= postings_section.len
                && postings_section.offset + postings_section.len <= r.content().len()
                && r.content().len() <= u64::MAX && header.total_bytes()
                <= posting_section.len),
            forall|rest: Seq<u8>|
                s.fits() ==> #[trigger] s.spec_search(rest) == search_header(
                    r.content(),
                    postings_section.offset + posting_section.offset,
                    header,
                    rest,
                ),
            forall|rest: Seq<u8>|
                !s.fits() ==> #[trigger] s.spec_search(rest) == Err::<Seq<u32>, IndexError>(
                    IndexError::CorruptStream,
                ),
    {
        Self { postings_section, posting_section, header, r }
    }

    /// Reads and decodes the stream at `section` of the posting, of `count` values.
    fn stream(&self, section: Section<TrigramPostingSection>, count: u32) -> (res: Result<
        Vec<u32>,
        IndexError,
    >)
        requires
            self.fits(),
            27 <= section.offset,
            section.offset + section.len <= self.header.total_bytes(),
            section.len <= u32::MAX,
        ensures
            self.decoded(res, self.spec_stream(section.offset as int, section.len as int, count)),
            res matches Ok(vals) ==> vals@.len() == count,
    {
        let absolute = self.postings_section.narrow(self.posting_section.narrow(section));
        let bytes = match read_bytes(self.r, absolute.offset, absolute.len as usize) {
            Ok(b) => b,
            Err(e) => {
                return Err(e);
            },
        };
        read_sorted_u32s(bytes.as_slice(), count as usize)
    }

    /// The unique successors of the posting.
    fn successors(&self) -> (res: Result<Vec<u32>, IndexError>)
        requires
            self.fits(),
        ensures
            self.decoded(res, self.spec_successors()),
            res matches Ok(vals) ==> vals@.len() == self.header.successors_count,
    {
        self.stream(self.header.successors_section(), self.header.successors_count)
    }

    /// The matrix of the posting.
    fn matrix(&self) -> (res: Result<Vec<u32>, IndexError>)
        requires
            self.fits(),
        ensures
            self.decoded(res, self.spec_matrix()),
    {
        self.stream(self.header.matrix_section(), self.header.matrix_count)
    }

    /// The documents of the posting.
    fn docs(&self) -> (res: Result<Vec<u32>, IndexError>)
        requires
            self.fits(),
        ensures
            self.decoded(res, self.spec_docs()),
    {
        self.stream(self.header.docs_section(), self.header.docs_count)
    }

    /// Whether the posting fits, as `fits` says; the length of the source is asked for.
    fn check_fits(&self) -> (res: Result<bool, IndexError>)
        ensures
            match res {
                Ok(b) => b == self.fits(),
                Err(e) => e is Io && !self.r.reliable(),
            },
    {
        let total: u64 = 27 + self.header.successors_bytes as u64 + self.header.matrix_bytes as u64
            + self.header.docs_bytes as u64;
        let file_len = match self.r.len() {
            Ok(n) => n,
            Err(e) => {
                return Err(IndexError::from_read(e));
            },
        };
        Ok(
            section_within_len(&self.posting_section, self.postings_section.len)
                && section_within(&self.postings_section, file_len) && total
                <= self.posting_section.len,
        )
    }

    /// The documents at the rows of the matrix with a column from `lo` up to `hi`.
    fn filter(&self, cols: u32, lo: u32, hi: u32, skip_repeats: bool) -> (res: Result<
        Vec<DocID>,
        IndexError,
    >)
        requires
            self.fits(),
            cols > 0,
        ensures
            match res {
                Ok(ids) => filtered(
                    cols as int,
                    lo as int,
                    hi as int,
                    skip_repeats,
                    self.spec_matrix(),
                    self.spec_docs(),
                ) == Ok::<Seq<u32>, IndexError>(ids@),
                Err(e) => (e is Io && !self.r.reliable()) || filtered(
                    cols as int,
                    lo as int,
                    hi as int,
                    skip_repeats,
                    self.spec_matrix(),
                    self.spec_docs(),
                ) == Err::<Seq<u32>, IndexError>(e),
            },
    {
        let matrix = match self.matrix() {
            Ok(m) => m,
            Err(e) => {
                return Err(e);
            },
        };
        let docs = match self.docs() {
            Ok(d) => d,
            Err(e) => {
                return Err(e);
            },
        };
        let rows = find_rows(&matrix, cols, lo, hi);
        let rows = if skip_repeats {
            dedup_rows(rows)
        } else {
            rows
        };
        Ok(DocIDMapper::new(docs, rows).collect())
    }

    /// The documents of the posting that may hold a query whose bytes past its
    /// first three are `remainder`.
    pub fn search(self, remainder: &[u8]) -> (res: Result<Vec<DocID>, IndexError>)
        ensures
            match res {
                Ok(ids) => self.spec_search(remainder@) == Ok::<Seq<u32>, IndexError>(ids@),
                Err(e) => (e is Io && !self.reliable()) || self.spec_search(remainder@) == Err::<
                    Seq<u32>,
                    IndexError,
                >(e),
            },
    {
        match self.check_fits() {
            Ok(true) => {},
            Ok(false) => {
                return Err(IndexError::CorruptStream);
            },
            Err(e) => {
                return Err(e);
            },
        }
        let n = remainder.len();
        if n == 0 {
            return self.docs();
        }
        let unique = match self.successors() {
            Ok(u) => u,
            Err(e) => {
                return Err(e);
            },
        };
        let cols = unique.len() as u32;
        if n <= 2 {
            let prefix: u32 = if n == 1 {
                remainder[0] as u32
            } else {
                (remainder[0] as u32) * 256 + remainder[1] as u32
            };
            let divisor: u32 = if n == 1 {
                65536
            } else {
                256
            };
            let (lo, hi) = find_prefix_range(&unique, divisor, prefix);
            if lo == hi {
                return Ok(Vec::new());
            }
            self.filter(cols, lo as u32, hi as u32, true)
        } else {
            let target = Trigram([remainder[0], remainder[1], remainder[2]]).id();
            match find_successor(&unique, target) {
                None => Ok(Vec::new()),
                Some(t) => self.filter(cols, t as u32, t as u32 + 1, false),
            }
        }
    }
}

/// Whether `s` lies within a parent of `len` bytes.
fn section_within_len<P: SectionType>(s: &Section<P>, len: u64) -> (b: bool)
    ensures
        b == (s.offset + s.len <= len),
{
    match s.offset.checked_add(s.len) {
        Some(end) => end <= len,
        None => false,
    }
}

} // verus!
