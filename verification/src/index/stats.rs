//! What building an index reports: counts, sizes and timings.

use std::time::Duration;
use vstd::prelude::*;

use crate::clock::no_duration;

verus! {

/// The sum of two sizes, or the greatest size where the sum is above it.
pub open spec fn capped_sum(a: usize, b: usize) -> usize {
    if a + b > usize::MAX {
        usize::MAX
    } else {
        (a + b) as usize
    }
}

/// The lesser of two sizes.
pub open spec fn lesser(a: usize, b: usize) -> usize {
    if a <= b {
        a
    } else {
        b
    }
}

/// The greater of two sizes.
pub open spec fn greater(a: usize, b: usize) -> usize {
    if a >= b {
        a
    } else {
        b
    }
}

/// The statistics of one compressed sequence.
#[derive(Debug, Clone, Copy, PartialEq, Eq, Structural)]
pub struct SequenceStats {
    /// The number of values in the sequence.
    pub len: usize,
    /// The size of the compressed sequence in bytes.
    pub bytes: usize,
}

impl Default for SequenceStats {
    fn default() -> (s: SequenceStats)
        ensures
            s.len == 0,
            s.bytes == 0,
    {
        SequenceStats { len: 0, bytes: 0 }
    }
}

impl SequenceStats {
    /// The greatest statistics there are: where a minimum starts.
    pub fn new_max() -> (s: Self)
        ensures
            s.len == usize::MAX,
            s.bytes == usize::MAX,
    {
        Self { len: usize::MAX, bytes: usize::MAX }
    }

    /// The greater of each field.
    pub open spec fn spec_max(self, other: SequenceStats) -> SequenceStats {
        SequenceStats { len: greater(self.len, other.len), bytes: greater(self.bytes, other.bytes) }
    }

    /// The lesser of each field.
    pub open spec fn spec_min(self, other: SequenceStats) -> SequenceStats {
        SequenceStats { len: lesser(self.len, other.len), bytes: lesser(self.bytes, other.bytes) }
    }

    /// The sum of each field, capped at the greatest size.
    pub open spec fn spec_sum(self, other: SequenceStats) -> SequenceStats {
        SequenceStats {
            len: capped_sum(self.len, other.len),
            bytes: capped_sum(self.bytes, other.bytes),
        }
    }

    pub fn max(&self, other: &SequenceStats) -> (r: SequenceStats)
        ensures
            r == self.spec_max(*other),
    {
        Self {
            len: if self.len >= other.len {
                self.len
            } else {
                other.len
            },
            bytes: if self.bytes >= other.bytes {
                self.bytes
            } else {
                other.bytes
            },
        }
    }

    pub fn min(&self, other: &SequenceStats) -> (r: SequenceStats)
        ensures
            r == self.spec_min(*other),
    {
        Self {
            len: if self.len <= other.len {
                self.len
            } else {
                other.len
            },
            bytes: if self.bytes <= other.bytes {
                self.bytes
            } else {
                other.bytes
            },
        }
    }

    pub fn sum(&self, other: &SequenceStats) -> (r: SequenceStats)
        ensures
            r == self.spec_sum(*other),
    {
        Self {
            len: self.len.saturating_add(other.len),
            bytes: self.bytes.saturating_add(other.bytes),
        }
    }
}

/// The statistics of one posting.
#[derive(Debug, Clone, Copy, PartialEq, Eq, Structural)]
pub struct TrigramPostingStats {
    /// The size of the posting's header.
    pub header_bytes: usize,
    /// The stream of unique successors.
    pub unique_successors: SequenceStats,
    /// Run lengths, which the format with a matrix has none of: always empty.
    pub run_lengths: SequenceStats,
    /// The stream of the matrix.
    pub successors: SequenceStats,
    /// The stream of documents.
    pub unique_docs: SequenceStats,
}

impl Default for TrigramPostingStats {
    fn default() -> (s: TrigramPostingStats)
        ensures
            s == TrigramPostingStats::spec_zero(),
    {
        TrigramPostingStats {
            header_bytes: 0,
            unique_successors: SequenceStats::default(),
            run_lengths: SequenceStats::default(),
            successors: SequenceStats::default(),
            unique_docs: SequenceStats::default(),
        }
    }
}

impl TrigramPostingStats {
    /// The statistics of nothing.
    pub open spec fn spec_zero() -> TrigramPostingStats {
        let none = SequenceStats { len: 0, bytes: 0 };
        TrigramPostingStats {
            header_bytes: 0,
            unique_successors: none,
            run_lengths: none,
            successors: none,
            unique_docs: none,
        }
    }

    /// The greatest statistics there are.
    pub open spec fn spec_new_max() -> TrigramPostingStats {
        let most = SequenceStats { len: usize::MAX, bytes: usize::MAX };
        TrigramPostingStats {
            header_bytes: usize::MAX,
            unique_successors: most,
            run_lengths: most,
            successors: most,
            unique_docs: most,
        }
    }

    /// The size of the posting: its header and its streams, capped at the greatest size.
    pub open spec fn spec_total_bytes(self) -> usize {
        capped_sum(
            capped_sum(
                capped_sum(
                    capped_sum(self.header_bytes, self.unique_successors.bytes),
                    self.run_lengths.bytes,
                ),
                self.successors.bytes,
            ),
            self.unique_docs.bytes,
        )
    }

    /// The greater of each field.
    pub open spec fn spec_max(self, other: TrigramPostingStats) -> TrigramPostingStats {
        TrigramPostingStats {
            header_bytes: greater(self.header_bytes, other.header_bytes),
            unique_successors: self.unique_successors.spec_max(other.unique_successors),
            run_lengths: self.run_lengths.spec_max(other.run_lengths),
            successors: self.successors.spec_max(other.successors),
            unique_docs: self.unique_docs.spec_max(other.unique_docs),
        }
    }

    /// The lesser of each field.
    pub open spec fn spec_min(self, other: TrigramPostingStats) -> TrigramPostingStats {
        TrigramPostingStats {
            header_bytes: lesser(self.header_bytes, other.header_bytes),
            unique_successors: self.unique_successors.spec_min(other.unique_successors),
            run_lengths: self.run_lengths.spec_min(other.run_lengths),
            successors: self.successors.spec_min(other.successors),
            unique_docs: self.unique_docs.spec_min(other.unique_docs),
        }
    }

    /// The sum of each field, capped at the greatest size.
    pub open spec fn spec_sum(self, other: TrigramPostingStats) -> TrigramPostingStats {
        TrigramPostingStats {
            header_bytes: capped_sum(self.header_bytes, other.header_bytes),
            unique_successors: self.unique_successors.spec_sum(other.unique_successors),
            run_lengths: self.run_lengths.spec_sum(other.run_lengths),
            successors: self.successors.spec_sum(other.successors),
            unique_docs: self.unique_docs.spec_sum(other.unique_docs),
        }
    }

    /// The greatest statistics there are: where a minimum starts.
    pub fn new_max() -> (s: Self)
        ensures
            s == Self::spec_new_max(),
    {
        Self {
            header_bytes: usize::MAX,
            unique_successors: SequenceStats::new_max(),
            run_lengths: SequenceStats::new_max(),
            successors: SequenceStats::new_max(),
            unique_docs: SequenceStats::new_max(),
        }
    }

    pub fn total_bytes(&self) -> (n: usize)
        ensures
            n == self.spec_total_bytes(),
    {
        self.header_bytes.saturating_add(self.unique_successors.bytes).saturating_add(
            self.run_lengths.bytes,
        ).saturating_add(self.successors.bytes).saturating_add(self.unique_docs.bytes)
    }

    pub fn max(&self, other: &TrigramPostingStats) -> (r: TrigramPostingStats)
        ensures
            r == self.spec_max(*other),
    {
        Self {
            header_bytes: if self.header_bytes >= other.header_bytes {
                self.header_bytes
            } else {
                other.header_bytes
            },
            unique_successors: self.unique_successors.max(&other.unique_successors),
            unique_docs: self.unique_docs.max(&other.unique_docs),
            run_lengths: self.run_lengths.max(&other.run_lengths),
            successors: self.successors.max(&other.successors),
        }
    }

    pub fn min(&self, other: &TrigramPostingStats) -> (r: TrigramPostingStats)
        ensures
            r == self.spec_min(*other),
    {
        Self {
            header_bytes: if self.header_bytes <= other.header_bytes {
                self.header_bytes
            } else {
                other.header_bytes
            },
            unique_successors: self.unique_successors.min(&other.unique_successors),
            unique_docs: self.unique_docs.min(&other.unique_docs),
            run_lengths: self.run_lengths.min(&other.run_lengths),
            successors: self.successors.min(&other.successors),
        }
    }

    pub fn sum(&self, other: &TrigramPostingStats) -> (r: TrigramPostingStats)
        ensures
            r == self.spec_sum(*other),
    {
        Self {
            header_bytes: self.header_bytes.saturating_add(other.header_bytes),
            unique_successors: self.unique_successors.sum(&other.unique_successors),
            unique_docs: self.unique_docs.sum(&other.unique_docs),
            run_lengths: self.run_lengths.sum(&other.run_lengths),
            successors: self.successors.sum(&other.successors),
        }
    }
}

/// What the extraction of trigrams from the documents came to.
#[derive(Debug)]
pub struct ExtractStats {
    /// The number of documents indexed.
    pub num_docs: usize,
    /// The total size of the documents indexed, capped at the greatest size.
    pub doc_bytes: usize,
    /// The number of unique trigrams in the documents.
    pub unique_trigrams: usize,
    /// The time it took to extract the trigrams from the documents.
    pub extract_time: Duration,
}

/// What the writing of the index came to.
#[derive(Debug)]
pub struct BuildStats {
    /// The least of each statistic over the postings.
    pub postings_min: TrigramPostingStats,
    /// The greatest of each statistic over the postings.
    pub postings_max: TrigramPostingStats,
    /// The sum of each statistic over the postings.
    pub postings_sum: TrigramPostingStats,
    /// The size of the directory and the table of ends.
    pub posting_offsets_bytes: usize,
    /// The time it took to write the index.
    pub build_time: Duration,
}

impl Default for BuildStats {
    fn default() -> (s: BuildStats)
        ensures
            s.postings_min == TrigramPostingStats::spec_new_max(),
            s.postings_max == TrigramPostingStats::spec_zero(),
            s.postings_sum == TrigramPostingStats::spec_zero(),
            s.posting_offsets_bytes == 0,
    {
        Self {
            postings_min: TrigramPostingStats::new_max(),
            postings_max: TrigramPostingStats::default(),
            postings_sum: TrigramPostingStats::default(),
            posting_offsets_bytes: 0,
            build_time: no_duration(),
        }
    }
}

impl BuildStats {
    /// Counts one more posting.
    pub fn add_posting(&mut self, other: &TrigramPostingStats)
        ensures
            final(self).postings_min == old(self).postings_min.spec_min(*other),
            final(self).postings_max == old(self).postings_max.spec_max(*other),
            final(self).postings_sum == old(self).postings_sum.spec_sum(*other),
            final(self).posting_offsets_bytes == old(self).posting_offsets_bytes,
            final(self).build_time == old(self).build_time,
    {
        self.postings_min = self.postings_min.min(other);
        self.postings_max = self.postings_max.max(other);
        self.postings_sum = self.postings_sum.sum(other);
    }

    /// The size of the index without its footer, capped at the greatest size.
    pub fn total_size_bytes(&self) -> (n: usize)
        ensures
            n == capped_sum(self.postings_sum.spec_total_bytes(), self.posting_offsets_bytes),
    {
        self.postings_sum.total_bytes().saturating_add(self.posting_offsets_bytes)
    }
}

/// What building an index came to.
#[derive(Debug)]
pub struct IndexStats {
    pub extract: ExtractStats,
    pub build: BuildStats,
    /// The time from the making of the builder to the end of the build.
    pub total_time: Duration,
}

} // verus!
