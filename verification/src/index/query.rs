//! The query plans over the three streams of a posting.
//!
//! A query's first three bytes pick the posting. Where nothing is left of the
//! query, the posting's documents answer it. Where one or two bytes are left,
//! they are the prefix of a successor: the matrix is read for the columns of the
//! successors that begin so. Where three bytes or more are left, the first three
//! are a successor, and the matrix is read for its one column; the bytes past
//! those three are not looked at, so that a document which continues otherwise
//! is still an answer, and the caller has to look into the documents.

use itertools::Itertools;
use vstd::prelude::*;

use crate::error::IndexError;
use crate::trigram::pack3;

verus! {

/// The rows of the values of `matrix` whose column is `lo` or above and below `hi`.
pub open spec fn matching_rows(matrix: Seq<u32>, cols: int, lo: int, hi: int) -> Seq<u32>
    decreases matrix.len(),
{
    if matrix.len() == 0 {
        Seq::empty()
    } else {
        let rest = matching_rows(matrix.drop_last(), cols, lo, hi);
        let v = matrix.last() as int;
        if lo <= v % cols < hi {
            rest.push((v / cols) as u32)
        } else {
            rest
        }
    }
}

/// `s` without the values that repeat the value before them.
pub open spec fn without_repeats(s: Seq<u32>) -> Seq<u32>
    decreases s.len(),
{
    if s.len() == 0 {
        Seq::empty()
    } else {
        let rest = without_repeats(s.drop_last());
        if s.len() >= 2 && s[s.len() - 2] == s.last() {
            rest
        } else {
            rest.push(s.last())
        }
    }
}

/// The documents at the rows `rows`, as far as the rows go upwards from `from`
/// and stay within `docs`: at the first row that does not, the answer ends.
pub open spec fn map_rows(docs: Seq<u32>, from: int, rows: Seq<u32>) -> Seq<u32>
    decreases rows.len(),
{
    if rows.len() == 0 {
        Seq::empty()
    } else {
        let r = rows[0] as int;
        if r < from || r >= docs.len() {
            Seq::empty()
        } else {
            seq![docs[r]] + map_rows(docs, r + 1, rows.skip(1))
        }
    }
}

/// The range of the indices of `unique` at which the value, divided by `divisor`,
/// is `prefix`, as one pass over `unique` finds it: a value below the prefix moves
/// both ends past it, a value with the prefix moves the upper end past it.
pub open spec fn prefix_range(unique: Seq<u32>, divisor: int, prefix: int) -> (int, int)
    decreases unique.len(),
{
    if unique.len() == 0 {
        (0, 0)
    } else {
        let (lo, hi) = prefix_range(unique.drop_last(), divisor, prefix);
        let x = unique.last() as int / divisor;
        let n = unique.len() as int;
        if x < prefix {
            (n, n)
        } else if x == prefix {
            (lo, n)
        } else {
            (lo, hi)
        }
    }
}

/// The first index from `from` on at which `s` holds `x`.
pub open spec fn position(s: Seq<u32>, x: u32, from: int) -> Option<int>
    decreases s.len() - from,
{
    if from < 0 || from >= s.len() {
        None
    } else if s[from] == x {
        Some(from)
    } else {
        position(s, x, from + 1)
    }
}

/// What one or two bytes left of a query divide a successor by, to compare its
/// first bytes with theirs.
pub open spec fn prefix_divisor(rest: Seq<u8>) -> int {
    if rest.len() == 1 {
        65536
    } else {
        256
    }
}

/// The one or two bytes left of a query, as a number.
pub open spec fn prefix_value(rest: Seq<u8>) -> int {
    if rest.len() == 1 {
        rest[0] as int
    } else {
        rest[0] as int * 256 + rest[1] as int
    }
}

/// The documents of the rows of `matrix` with a column from `lo` up to `hi`.
pub open spec fn filtered(
    cols: int,
    lo: int,
    hi: int,
    skip_repeats: bool,
    matrix: Option<Seq<u32>>,
    docs: Option<Seq<u32>>,
) -> Result<Seq<u32>, IndexError> {
    match (matrix, docs) {
        (Some(m), Some(d)) => {
            let rows = matching_rows(m, cols, lo, hi);
            Ok(
                map_rows(
                    d,
                    0,
                    if skip_repeats {
                        without_repeats(rows)
                    } else {
                        rows
                    },
                ),
            )
        },
        _ => Err(IndexError::CorruptStream),
    }
}

/// The answer of a posting with the streams `unique`, `matrix` and `docs`, each as
/// far as it could be decoded, to what is left of a query past its first three bytes.
pub open spec fn search_streams(
    unique: Option<Seq<u32>>,
    matrix: Option<Seq<u32>>,
    docs: Option<Seq<u32>>,
    rest: Seq<u8>,
) -> Result<Seq<u32>, IndexError> {
    if rest.len() == 0 {
        match docs {
            Some(d) => Ok(d),
            None => Err(IndexError::CorruptStream),
        }
    } else {
        match unique {
            None => Err(IndexError::CorruptStream),
            Some(u) => if rest.len() <= 2 {
                let (lo, hi) = prefix_range(u, prefix_divisor(rest), prefix_value(rest));
                if lo == hi {
                    Ok(Seq::empty())
                } else {
                    filtered(u.len() as int, lo, hi, true, matrix, docs)
                }
            } else {
                match position(u, pack3(rest[0], rest[1], rest[2]), 0) {
                    None => Ok(Seq::empty()),
                    Some(t) => filtered(u.len() as int, t, t + 1, false, matrix, docs),
                }
            },
        }
    }
}

/// `Itertools::dedup` over the values of a vector: the values without those that
/// repeat the value before them.
#[verifier::external_body]
pub(crate) fn dedup_rows(rows: Vec<u32>) -> (out: Vec<u32>)
    ensures
        out@ == without_repeats(rows@),
{
    rows.into_iter().dedup().collect()
}

/// The range of the columns whose successor begins with the prefix.
pub fn find_prefix_range(unique: &Vec<u32>, divisor: u32, prefix: u32) -> (r: (usize, usize))
    requires
        divisor > 0,
    ensures
        (r.0 as int, r.1 as int) == prefix_range(unique@, divisor as int, prefix as int),
        r.0 <= r.1 <= unique@.len(),
{
    let mut lo: usize = 0;
    let mut hi: usize = 0;
    let mut i: usize = 0;
    while i < unique.len()
        invariant
            i <= unique@.len(),
            divisor > 0,
            lo <= hi <= i,
            (lo as int, hi as int) == prefix_range(
                unique@.subrange(0, i as int),
                divisor as int,
                prefix as int,
            ),
        decreases unique@.len() - i,
    {
        let x = unique[i] / divisor;
        proof {
            let next = unique@.subrange(0, i + 1);
            assert(next.drop_last() =~= unique@.subrange(0, i as int));
            assert(next.last() == unique@[i as int]);
        }
        if x < prefix {
            lo = i + 1;
            hi = i + 1;
        } else if x == prefix {
            hi = i + 1;
        }
        i += 1;
    }
    proof {
        assert(unique@.subrange(0, i as int) =~= unique@);
    }
    (lo, hi)
}

/// The first column whose successor is `target`.
pub fn find_successor(unique: &Vec<u32>, target: u32) -> (r: Option<usize>)
    ensures
        match r {
            Some(t) => position(unique@, target, 0) == Some(t as int) && t < unique@.len(),
            None => position(unique@, target, 0) is None,
        },
{
    let mut i: usize = 0;
    while i < unique.len()
        invariant
            i <= unique@.len(),
            position(unique@, target, 0) == position(unique@, target, i as int),
        decreases unique@.len() - i,
    {
        if unique[i] == target {
            return Some(i);
        }
        i += 1;
    }
    None
}

/// The rows of the values of `matrix` whose column is `lo` or above and below `hi`.
pub fn find_rows(matrix: &Vec<u32>, cols: u32, lo: u32, hi: u32) -> (rows: Vec<u32>)
    requires
        cols > 0,
    ensures
        rows@ == matching_rows(matrix@, cols as int, lo as int, hi as int),
{
    let mut rows: Vec<u32> = Vec::new();
    let mut i: usize = 0;
    while i < matrix.len()
        invariant
            i <= matrix@.len(),
            cols > 0,
            rows@ == matching_rows(
                matrix@.subrange(0, i as int),
                cols as int,
                lo as int,
                hi as int,
            ),
        decreases matrix@.len() - i,
    {
        let v = matrix[i];
        let col = v % cols;
        proof {
            let next = matrix@.subrange(0, i + 1);
            assert(next.drop_last() =~= matrix@.subrange(0, i as int));
            assert(next.last() == v);
        }
        if lo <= col && col < hi {
            rows.push(v / cols);
        }
        i += 1;
    }
    proof {
        assert(matrix@.subrange(0, i as int) =~= matrix@);
    }
    rows
}

/// Walks the documents of a posting once and hands out those at the rows asked for.
pub struct DocIDMapper {
    docs: Vec<u32>,
    rows: Vec<u32>,
    next_doc: usize,
    next_row: usize,
}

impl DocIDMapper {
    /// What is still to come.
    pub closed spec fn remaining(&self) -> Seq<u32> {
        if self.next_row <= self.rows@.len() {
            map_rows(self.docs@, self.next_doc as int, self.rows@.skip(self.next_row as int))
        } else {
            Seq::empty()
        }
    }

    /// A mapper over the documents `docs` for the rows `rows`.
    pub fn new(docs: Vec<u32>, rows: Vec<u32>) -> (m: Self)
        ensures
            m.remaining() == map_rows(docs@, 0, rows@),
    {
        proof {
            assert(rows@.skip(0) =~= rows@);
        }
        DocIDMapper { docs, rows, next_doc: 0, next_row: 0 }
    }

    /// The next document, or `None` at the end.
    pub fn next(&mut self) -> (r: Option<u32>)
        ensures
            match r {
                Some(d) => old(self).remaining().len() > 0 && d == old(self).remaining()[0]
                    && final(self).remaining() == old(self).remaining().skip(1),
                None => old(self).remaining().len() == 0 && final(self).remaining().len() == 0,
            },
    {
        if self.next_row >= self.rows.len() {
            self.next_row = self.rows.len();
            return None;
        }
        let row = self.rows[self.next_row] as usize;
        let ghost rest = self.rows@.skip(self.next_row as int);
        proof {
            assert(rest[0] == self.rows@[self.next_row as int]);
            assert(rest.skip(1) =~= self.rows@.skip(self.next_row + 1));
        }
        if row < self.next_doc || row >= self.docs.len() {
            self.next_row = self.rows.len();
            proof {
                assert(self.rows@.skip(self.rows@.len() as int) =~= Seq::empty());
            }
            return None;
        }
        let d = self.docs[row];
        proof {
            let tail = map_rows(self.docs@, row + 1, rest.skip(1));
            assert((seq![d] + tail).skip(1) =~= tail);
        }
        self.next_doc = row + 1;
        self.next_row = self.next_row + 1;
        Some(d)
    }

    /// All that is still to come.
    pub fn collect(self) -> (out: Vec<u32>)
        ensures
            out@ == self.remaining(),
    {
        let mut mapper = self;
        let mut out: Vec<u32> = Vec::new();
        loop
            invariant
                self.remaining() == out@ + mapper.remaining(),
            ensures
                out@ == self.remaining(),
            decreases mapper.remaining().len(),
        {
            let ghost left = mapper.remaining();
            match mapper.next() {
                Some(d) => {
                    out.push(d);
                    proof {
                        assert(left =~= seq![d] + left.skip(1));
                        assert(out@ + mapper.remaining() =~= self.remaining());
                    }
                },
                None => {
                    proof {
                        assert(out@ + left =~= out@);
                    }
                    break ;
                },
            }
        }
        out
    }
}

} // verus!
