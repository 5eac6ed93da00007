//! The three streams of a posting, and the posting's bytes.

use vstd::arithmetic::div_mod::{lemma_fundamental_div_mod, lemma_fundamental_div_mod_converse};
use vstd::prelude::*;

use crate::bitpack::ascending_from;
use crate::build::{doc_ids, DocSuccessors, PostingList};
use crate::build::extract::{follows, insert_sorted, lower_bound, strictly_increasing};
use crate::build::serialize::{delta_encoding, StreamWriter, write_sorted_u32s};
use crate::error::IndexError;
use crate::index::header::PostingHeader;
use crate::index::stats::{SequenceStats, TrigramPostingStats};
use crate::layout::{
    doc_set, follow_set, lemma_ascending_is, lemma_follows_key, lists, matrix_set, posting_body,
    posting_decodes, posting_docs, posting_fits, posting_header, posting_matrix, posting_successors,
    posting_wire, successor_set,
};
use crate::trigram::Trigram;

verus! {

/// Whether some row holds the successor `s`.
pub open spec fn in_some_row(rows: Seq<DocSuccessors>, s: u32) -> bool {
    exists|i: int| 0 <= i < rows.len() && (#[trigger] rows[i]).successors@.contains(s)
}

/// Whether some row below `upto` holds the successor `s`.
pub open spec fn in_row_below(rows: Seq<DocSuccessors>, upto: int, s: u32) -> bool {
    exists|i: int| 0 <= i < upto && (#[trigger] rows[i]).successors@.contains(s)
}

/// Whether `v` stands for a row and a column of which the row holds the
/// successor at the column.
pub open spec fn pair_in(unique: Seq<u32>, rows: Seq<DocSuccessors>, v: u32) -> bool {
    let cols = unique.len() as int;
    &&& cols > 0
    &&& v as int / cols < rows.len()
    &&& rows[v as int / cols].successors@.contains(unique[v as int % cols])
}

/// Whether every successor of every row is among `unique`, and each row ascends.
pub open spec fn rows_within(unique: Seq<u32>, rows: Seq<DocSuccessors>) -> bool {
    forall|i: int|
        0 <= i < rows.len() ==> strictly_increasing((#[trigger] rows[i]).successors@) && forall|
            t: int,
        |
            0 <= t < rows[i].successors@.len() ==> unique.contains(
                #[trigger] rows[i].successors@[t],
            )
}

/// A sequence that ascends strictly never decreases.
pub proof fn lemma_increasing_ascends(s: Seq<u32>)
    requires
        strictly_increasing(s),
    ensures
        ascending_from(0, s),
{
}

/// The successors of all the rows, each once, ascending.
pub fn build_unique_successors(rows: &Vec<DocSuccessors>) -> (unique: Vec<u32>)
    ensures
        strictly_increasing(unique@),
        forall|s: u32| unique@.contains(s) <==> in_some_row(rows@, s),
{
    let mut unique: Vec<u32> = Vec::new();
    let mut i: usize = 0;
    while i < rows.len()
        invariant
            i <= rows@.len(),
            strictly_increasing(unique@),
            forall|s: u32| unique@.contains(s) <==> in_row_below(rows@, i as int, s),
        decreases rows@.len() - i,
    {
        let mut t: usize = 0;
        let n = rows[i].successors.len();
        while t < n
            invariant
                i < rows@.len(),
                n == rows@[i as int].successors@.len(),
                t <= n,
                strictly_increasing(unique@),
                forall|s: u32|
                    unique@.contains(s) <==> in_row_below(rows@, i as int, s) || exists|t2: int|
                        0 <= t2 < t && rows@[i as int].successors@[t2] == s,
            decreases n - t,
        {
            let x = rows[i].successors[t];
            let ghost before = unique@;
            insert_sorted(&mut unique, x);
            proof {
                assert forall|s: u32|
                    unique@.contains(s) <==> in_row_below(rows@, i as int, s) || exists|t2: int|
                        0 <= t2 < t + 1 && rows@[i as int].successors@[t2] == s by {
                    if s == x {
                        assert(rows@[i as int].successors@[t as int] == s);
                    }
                    if before.contains(s) && !in_row_below(rows@, i as int, s) {
                        let t2 = choose|t2: int|
                            0 <= t2 < t && rows@[i as int].successors@[t2] == s;
                        assert(0 <= t2 < t + 1 && rows@[i as int].successors@[t2] == s);
                    }
                }
            }
            t += 1;
        }
        proof {
            assert forall|s: u32| unique@.contains(s) <==> in_row_below(rows@, i + 1, s) by {
                if in_row_below(rows@, i + 1, s) {
                    let r = choose|r: int|
                        0 <= r < i + 1 && (#[trigger] rows@[r]).successors@.contains(s);
                    if r < i {
                        assert(in_row_below(rows@, i as int, s));
                    } else {
                        let t2 = choose|t2: int|
                            0 <= t2 < rows@[r].successors@.len() && rows@[r].successors@[t2] == s;
                        assert(0 <= t2 < n && rows@[i as int].successors@[t2] == s);
                    }
                }
                if in_row_below(rows@, i as int, s) {
                    let r = choose|r: int|
                        0 <= r < i && (#[trigger] rows@[r]).successors@.contains(s);
                    assert(0 <= r < i + 1 && rows@[r].successors@.contains(s));
                }
                if exists|t2: int| 0 <= t2 < n && rows@[i as int].successors@[t2] == s {
                    assert(rows@[i as int].successors@.contains(s));
                }
            }
        }
        i += 1;
    }
    proof {
        assert forall|s: u32| unique@.contains(s) <==> in_some_row(rows@, s) by {
            if in_some_row(rows@, s) {
                let r = choose|r: int|
                    0 <= r < rows@.len() && (#[trigger] rows@[r]).successors@.contains(s);
                assert(in_row_below(rows@, i as int, s));
            }
            if in_row_below(rows@, i as int, s) {
                let r = choose|r: int|
                    0 <= r < i && (#[trigger] rows@[r]).successors@.contains(s);
                assert(in_some_row(rows@, s));
            }
        }
    }
    unique
}

/// The row and the column of a pair's number.
pub proof fn lemma_pair_number(row: int, cols: int, col: int)
    requires
        0 <= row,
        0 <= col < cols,
    ensures
        (row * cols + col) / cols == row,
        (row * cols + col) % cols == col,
        row * cols + col < (row + 1) * cols,
        0 <= row * cols,
{
    lemma_fundamental_div_mod_converse(row * cols + col, cols, row, col);
    assert((row + 1) * cols == row * cols + cols) by (nonlinear_arith);
    assert(0 <= row * cols) by (nonlinear_arith)
        requires
            0 <= row,
            0 <= cols,
    ;
}

/// A number is the number of the pair of its row and its column.
pub proof fn lemma_number_pair(v: int, cols: int)
    requires
        0 <= v,
        0 < cols,
    ensures
        v == (v / cols) * cols + v % cols,
        0 <= v % cols < cols,
        0 <= v / cols,
{
    lemma_fundamental_div_mod(v, cols);
    assert(cols * (v / cols) == (v / cols) * cols) by (nonlinear_arith);
    vstd::arithmetic::div_mod::lemma_mod_bound(v, cols);
    vstd::arithmetic::div_mod::lemma_div_pos_is_pos(v, cols);
}

/// Rows below a bound have numbers below the bound's first number.
pub proof fn lemma_rows_ordered(r1: int, r2: int, cols: int)
    requires
        0 <= r1 <= r2,
        0 <= cols,
    ensures
        r1 * cols <= r2 * cols,
{
    assert(r1 * cols <= r2 * cols) by (nonlinear_arith)
        requires
            0 <= r1 <= r2,
            0 <= cols,
    ;
}

/// The matrix of the rows over the columns `unique`: the pairs of a row and a
/// column of which the row holds the successor at the column, each as the number
/// `row * |unique| + column`, ascending. `None` where some pair has no 32-bit number.
#[verifier::rlimit(30)]
pub fn build_successors(unique: &Vec<u32>, rows: &Vec<DocSuccessors>) -> (r: Option<Vec<u32>>)
    requires
        strictly_increasing(unique@),
        rows_within(unique@, rows@),
    ensures
        match r {
            Some(m) => unique@.len() * rows@.len() <= 0x1_0000_0000 && strictly_increasing(m@)
                && forall|v: u32| m@.contains(v) <==> pair_in(unique@, rows@, v),
            None => unique@.len() * rows@.len() > 0x1_0000_0000,
        },
{
    let cols = unique.len();
    let n = rows.len();
    let mut m: Vec<u32> = Vec::new();
    if cols == 0 || n == 0 {
        proof {
            assert(unique@.len() * rows@.len() == 0) by (nonlinear_arith)
                requires
                    unique@.len() == 0 || rows@.len() == 0,
            ;
            assert forall|v: u32| !pair_in(unique@, rows@, v) by {
                if cols > 0 {
                    lemma_number_pair(v as int, cols as int);
                }
            }
        }
        return Some(m);
    }
    if cols as u64 > 0x1_0000_0000u64 || n as u64 > 0x1_0000_0000u64 {
        proof {
            assert(unique@.len() * rows@.len() > 0x1_0000_0000) by (nonlinear_arith)
                requires
                    unique@.len() >= 1,
                    rows@.len() >= 1,
                    unique@.len() > 0x1_0000_0000 || rows@.len() > 0x1_0000_0000,
            ;
        }
        return None;
    }
    let product: u64 = match (cols as u64).checked_mul(n as u64) {
        Some(p) => p,
        None => {
            return None;
        },
    };
    if product > 0x1_0000_0000 {
        return None;
    }
    let mut i: usize = 0;
    while i < n
        invariant
            i <= n,
            n == rows@.len(),
            cols == unique@.len(),
            cols > 0,
            cols * n == product,
            product <= 0x1_0000_0000,
            strictly_increasing(unique@),
            rows_within(unique@, rows@),
            strictly_increasing(m@),
            forall|a: int| 0 <= a < m@.len() ==> m@[a] < i * cols,
            forall|v: u32|
                m@.contains(v) <==> v as int / (cols as int) < i && pair_in(unique@, rows@, v),
        decreases n - i,
    {
        let row = &rows[i].successors;
        let len = row.len();
        proof {
            lemma_rows_ordered(i as int, n as int, cols as int);
            assert(n * cols == cols * n) by (nonlinear_arith);
            lemma_pair_number(i as int, cols as int, 0);
            assert(rows@[i as int].successors@ == row@);
        }
        let base: u64 = (i as u64) * (cols as u64);
        let mut t: usize = 0;
        let ghost mut low: int = 0;
        while t < len
            invariant
                i < n,
                n == rows@.len(),
                cols == unique@.len(),
                cols > 0,
                cols * n == product,
                product <= 0x1_0000_0000,
                base == i * cols,
                len == row@.len(),
                row@ == rows@[i as int].successors@,
                t <= len,
                0 <= low <= cols,
                t == 0 ==> low == 0,
                t > 0 ==> low > 0 && unique@[low - 1] == row@[t - 1],
                strictly_increasing(unique@),
                strictly_increasing(row@),
                rows_within(unique@, rows@),
                strictly_increasing(m@),
                forall|a: int| 0 <= a < m@.len() ==> m@[a] < i * cols + low,
                forall|v: u32|
                    m@.contains(v) <==> (v as int / (cols as int) < i && pair_in(
                        unique@,
                        rows@,
                        v,
                    )) || (v as int / (cols as int) == i && exists|t2: int|
                        0 <= t2 < t && unique@[v as int % (cols as int)] == row@[t2]),
            decreases len - t,
        {
            let s = row[t];
            let pos = lower_bound(unique, s);
            let ghost before = m@;
            proof {
                assert(unique@.contains(s)) by {
                    assert(rows@[i as int].successors@[t as int] == s);
                }
                let q = choose|q: int| 0 <= q < unique@.len() && unique@[q] == s;
                if q > pos {
                    assert(unique@[pos as int] < unique@[q]);
                }
                assert(pos == q);
                assert(unique@[pos as int] == s);
                assert(row@[t as int] == s);
                if t > 0 {
                    assert(row@[t - 1] < row@[t as int]);
                    assert(unique@[low - 1] < s);
                    if (pos as int) < low - 1 {
                        assert(unique@[pos as int] < unique@[low - 1]);
                    }
                    assert(pos as int != low - 1);
                }
                assert(pos >= low);
                lemma_pair_number(i as int, cols as int, pos as int);
                lemma_rows_ordered(i as int + 1, n as int, cols as int);
                assert(n * cols == cols * n) by (nonlinear_arith);
            }
            let v: u32 = (base + pos as u64) as u32;
            m.push(v);
            proof {
                assert(v == i * cols + pos);
                assert(v as int / (cols as int) == i && v as int % (cols as int) == pos);
                assert forall|a: int, b: int| 0 <= a < b < m@.len() implies m@[a] < m@[b] by {
                    if b < before.len() {
                        assert(before[a] < before[b]);
                    } else {
                        assert(m@[a] == before[a]);
                    }
                }
                assert forall|w: u32|
                    m@.contains(w) <==> (w as int / (cols as int) < i && pair_in(
                        unique@,
                        rows@,
                        w,
                    )) || (w as int / (cols as int) == i && exists|t2: int|
                        0 <= t2 < t + 1 && unique@[w as int % (cols as int)] == row@[t2]) by {
                    if m@.contains(w) {
                        let a = choose|a: int| 0 <= a < m@.len() && m@[a] == w;
                        if a < before.len() {
                            assert(before[a] == w);
                            assert(before.contains(w));
                            if !(w as int / (cols as int) < i && pair_in(unique@, rows@, w)) {
                                let t2 = choose|t2: int|
                                    0 <= t2 < t && unique@[w as int % (cols as int)] == row@[t2];
                                assert(0 <= t2 < t + 1 && unique@[w as int % (cols as int)]
                                    == row@[t2]);
                            }
                        } else {
                            assert(w == v);
                            assert(unique@[w as int % (cols as int)] == row@[t as int]);
                        }
                    }
                    if w as int / (cols as int) < i && pair_in(unique@, rows@, w) {
                        assert(before.contains(w));
                        let a = choose|a: int| 0 <= a < before.len() && before[a] == w;
                        assert(m@[a] == w);
                    }
                    if w as int / (cols as int) == i && exists|t2: int|
                        0 <= t2 < t + 1 && unique@[w as int % (cols as int)] == row@[t2] {
                        let t2 = choose|t2: int|
                            0 <= t2 < t + 1 && unique@[w as int % (cols as int)] == row@[t2];
                        if t2 < t {
                            assert(before.contains(w));
                            let a = choose|a: int| 0 <= a < before.len() && before[a] == w;
                            assert(m@[a] == w);
                        } else {
                            lemma_number_pair(w as int, cols as int);
                            let c = w as int % (cols as int);
                            if c != pos {
                                if c < pos {
                                    assert(unique@[c] < unique@[pos as int]);
                                } else {
                                    assert(unique@[pos as int] < unique@[c]);
                                }
                            }
                            assert(w == v);
                            assert(m@[before.len() as int] == w);
                        }
                    }
                }
                low = pos + 1;
            }
            t += 1;
        }
        proof {
            assert((i + 1) * cols == i * cols + cols) by (nonlinear_arith);
            assert forall|v: u32|
                m@.contains(v) <==> v as int / (cols as int) < i + 1 && pair_in(
                    unique@,
                    rows@,
                    v,
                ) by {
                lemma_number_pair(v as int, cols as int);
                if v as int / (cols as int) == i {
                    if pair_in(unique@, rows@, v) {
                        let c = v as int % (cols as int);
                        let t2 = choose|t2: int| 0 <= t2 < row@.len() && row@[t2] == unique@[c];
                        assert(0 <= t2 < t && unique@[c] == row@[t2]);
                    }
                    if exists|t2: int|
                        0 <= t2 < t && unique@[v as int % (cols as int)] == row@[t2] {
                        let t2 = choose|t2: int|
                            0 <= t2 < t && unique@[v as int % (cols as int)] == row@[t2];
                        assert(row@.contains(unique@[v as int % (cols as int)]));
                    }
                }
            }
        }
        i += 1;
    }
    proof {
        assert forall|v: u32| m@.contains(v) <==> pair_in(unique@, rows@, v) by {
            lemma_number_pair(v as int, cols as int);
        }
    }
    Some(m)
}

/// The identifiers of the rows, in order.
pub fn build_unique_docs(rows: &Vec<DocSuccessors>) -> (ids: Vec<u32>)
    ensures
        ids@ == Seq::new(rows@.len(), |i: int| rows@[i].doc),
{
    let mut ids: Vec<u32> = Vec::new();
    let mut i: usize = 0;
    while i < rows.len()
        invariant
            i <= rows@.len(),
            ids@ == Seq::new(i as nat, |j: int| rows@[j].doc),
        decreases rows@.len() - i,
    {
        ids.push(rows[i].doc);
        proof {
            assert(ids@ =~= Seq::new((i + 1) as nat, |j: int| rows@[j].doc));
        }
        i += 1;
    }
    ids
}

/// The statistics of the posting of `k`.
pub open spec fn posting_stats(docs: Seq<Seq<u8>>, k: u32) -> TrigramPostingStats {
    let u = posting_successors(docs, k);
    let m = posting_matrix(docs, k);
    let d = posting_docs(docs, k);
    TrigramPostingStats {
        header_bytes: 27,
        unique_successors: SequenceStats {
            len: u.len() as usize,
            bytes: delta_encoding(u, 0).len() as usize,
        },
        run_lengths: SequenceStats { len: 0, bytes: 0 },
        successors: SequenceStats {
            len: m.len() as usize,
            bytes: delta_encoding(m, 0).len() as usize,
        },
        unique_docs: SequenceStats {
            len: d.len() as usize,
            bytes: delta_encoding(d, 0).len() as usize,
        },
    }
}

/// Whether the posting `p` holds the documents of its trigram and, for each, the
/// trigrams that follow it there.
pub open spec fn posting_of(docs: Seq<Seq<u8>>, p: PostingList) -> bool {
    &&& docs.len() <= u32::MAX
    &&& lists(doc_ids(p), doc_set(docs, p.trigram))
    &&& forall|i: int|
        0 <= i < p.docs@.len() ==> p.docs@[i].doc < docs.len() && lists(
            (#[trigger] p.docs@[i]).successors@,
            follow_set(docs[p.docs@[i].doc as int], p.trigram),
        )
}

/// The successors of every row are among the successors of all the rows.
pub proof fn lemma_rows_within(p: PostingList, unique: Seq<u32>)
    requires
        forall|i: int|
            0 <= i < p.docs@.len() ==> strictly_increasing((#[trigger] p.docs@[i]).successors@),
        forall|s: u32| unique.contains(s) <==> in_some_row(p.docs@, s),
    ensures
        rows_within(unique, p.docs@),
{
    assert forall|i: int| 0 <= i < p.docs@.len() implies strictly_increasing(
        (#[trigger] p.docs@[i]).successors@,
    ) && forall|t: int|
        0 <= t < p.docs@[i].successors@.len() ==> unique.contains(
            #[trigger] p.docs@[i].successors@[t],
        ) by {
        assert forall|t: int| 0 <= t < p.docs@[i].successors@.len() implies unique.contains(
            #[trigger] p.docs@[i].successors@[t],
        ) by {
            assert(p.docs@[i].successors@.contains(p.docs@[i].successors@[t]));
            assert(in_some_row(p.docs@, p.docs@[i].successors@[t]));
        }
    }
}

/// The streams that are computed from a posting are those of the layout.
pub proof fn lemma_streams(
    docs: Seq<Seq<u8>>,
    p: PostingList,
    unique: Seq<u32>,
    matrix: Seq<u32>,
    ids: Seq<u32>,
)
    requires
        posting_of(docs, p),
        strictly_increasing(unique),
        forall|s: u32| unique.contains(s) <==> in_some_row(p.docs@, s),
        strictly_increasing(matrix),
        forall|v: u32| matrix.contains(v) <==> pair_in(unique, p.docs@, v),
        ids == doc_ids(p),
    ensures
        posting_successors(docs, p.trigram) == unique,
        posting_matrix(docs, p.trigram) == matrix,
        posting_docs(docs, p.trigram) == ids,
{
    let k = p.trigram;
    lemma_ascending_is(ids, doc_set(docs, k));
    assert(lists(unique, successor_set(docs, k))) by {
        assert forall|s: u32| unique.contains(s) <==> successor_set(docs, k).contains(s) by {
            if in_some_row(p.docs@, s) {
                let i = choose|i: int|
                    0 <= i < p.docs@.len() && (#[trigger] p.docs@[i]).successors@.contains(s);
                let d = p.docs@[i].doc as int;
                assert(follow_set(docs[d], k).contains(s));
                assert(0 <= d < docs.len() && follows(docs[d], k, s));
            }
            if successor_set(docs, k).contains(s) {
                let d = choose|d: int| 0 <= d < docs.len() && follows(#[trigger] docs[d], k, s);
                lemma_follows_key(docs[d], k, s);
                assert(doc_set(docs, k).contains(d as u32));
                assert(ids.contains(d as u32));
                let i = choose|i: int| 0 <= i < ids.len() && ids[i] == d as u32;
                assert(p.docs@[i].doc == d);
                assert(follow_set(docs[d], k).contains(s));
                assert(p.docs@[i].successors@.contains(s));
            }
        }
    }
    lemma_ascending_is(unique, successor_set(docs, k));
    assert(lists(matrix, matrix_set(docs, k))) by {
        assert forall|v: u32| matrix.contains(v) <==> matrix_set(docs, k).contains(v) by {
            let cols = unique.len() as int;
            if cols > 0 && v as int / cols < ids.len() {
                lemma_number_pair(v as int, cols);
                let i = v as int / cols;
                assert(ids[i] == p.docs@[i].doc);
                assert(follow_set(docs[p.docs@[i].doc as int], k).contains(unique[v as int % cols])
                    <==> p.docs@[i].successors@.contains(unique[v as int % cols]));
            }
        }
    }
    lemma_ascending_is(matrix, matrix_set(docs, k));
}

/// Appends the posting `p` to `w`: its header, then its three streams. Fails, and
/// writes nothing, where the posting does not fit the format.
pub(crate) fn build_posting(
    p: &PostingList,
    w: &mut Vec<u8>,
    Ghost(docs): Ghost<Seq<Seq<u8>>>,
) -> (r: Result<TrigramPostingStats, IndexError>)
    requires
        posting_of(docs, *p),
    ensures
        match r {
            Ok(stats) => {
                &&& posting_fits(docs, p.trigram)
                &&& posting_decodes(docs, p.trigram)
                &&& final(w)@ == old(w)@ + posting_wire(docs, p.trigram)
                &&& stats == posting_stats(docs, p.trigram)
            },
            Err(e) => e == IndexError::TooLarge && !posting_fits(docs, p.trigram) && final(w)@
                == old(w)@,
        },
{
    let ghost k = p.trigram;
    let unique = build_unique_successors(&p.docs);
    let ids = build_unique_docs(&p.docs);
    proof {
        assert(ids@ =~= doc_ids(*p));
        lemma_rows_within(*p, unique@);
    }
    let matrix = match build_successors(&unique, &p.docs) {
        Some(m) => m,
        None => {
            proof {
                lemma_ascending_is(ids@, doc_set(docs, k));
                lemma_unique_is(docs, *p, unique@);
            }
            return Err(IndexError::TooLarge);
        },
    };
    proof {
        lemma_streams(docs, *p, unique@, matrix@, ids@);
        lemma_increasing_ascends(unique@);
        lemma_increasing_ascends(matrix@);
        lemma_increasing_ascends(ids@);
    }
    if matrix.len() > 0xFFFF_FFFF || ids.len() > 0xFFFF_FFFF || unique.len() > 0xFFFF_FFFF {
        return Err(IndexError::TooLarge);
    }
    let mut body: Vec<u8> = Vec::new();
    let successors_bytes = write_sorted_u32s(unique.as_slice(), &mut body);
    let matrix_bytes = write_sorted_u32s(matrix.as_slice(), &mut body);
    let docs_bytes = write_sorted_u32s(ids.as_slice(), &mut body);
    proof {
        assert(body@ =~= posting_body(docs, k));
    }
    if successors_bytes > 0xFFFF_FFFF || matrix_bytes > 0xFFFF_FFFF || docs_bytes > 0xFFFF_FFFF {
        return Err(IndexError::TooLarge);
    }
    let header = PostingHeader {
        trigram: Trigram::from_id(p.trigram),
        successors_count: unique.len() as u32,
        successors_bytes: successors_bytes as u32,
        matrix_count: matrix.len() as u32,
        matrix_bytes: matrix_bytes as u32,
        docs_count: ids.len() as u32,
        docs_bytes: docs_bytes as u32,
    };
    let ghost before = w@;
    let header_bytes = header.write_to(w);
    w.append(&mut body);
    proof {
        assert(header == posting_header(docs, k));
        assert(w@ =~= before + posting_wire(docs, k));
        header.lemma_parse_wire();
    }
    Ok(
        TrigramPostingStats {
            header_bytes,
            unique_successors: SequenceStats { len: unique.len(), bytes: successors_bytes },
            run_lengths: SequenceStats { len: 0, bytes: 0 },
            successors: SequenceStats { len: matrix.len(), bytes: matrix_bytes },
            unique_docs: SequenceStats { len: ids.len(), bytes: docs_bytes },
        },
    )
}

/// The unique successors that are computed from a posting are those of the layout.
pub proof fn lemma_unique_is(docs: Seq<Seq<u8>>, p: PostingList, unique: Seq<u32>)
    requires
        posting_of(docs, p),
        strictly_increasing(unique),
        forall|s: u32| unique.contains(s) <==> in_some_row(p.docs@, s),
    ensures
        posting_successors(docs, p.trigram) == unique,
{
    let k = p.trigram;
    let ids = doc_ids(p);
    assert(lists(unique, successor_set(docs, k))) by {
        assert forall|s: u32| unique.contains(s) <==> successor_set(docs, k).contains(s) by {
            if in_some_row(p.docs@, s) {
                let i = choose|i: int|
                    0 <= i < p.docs@.len() && (#[trigger] p.docs@[i]).successors@.contains(s);
                let d = p.docs@[i].doc as int;
                assert(follow_set(docs[d], k).contains(s));
                assert(0 <= d < docs.len() && follows(docs[d], k, s));
            }
            if successor_set(docs, k).contains(s) {
                let d = choose|d: int| 0 <= d < docs.len() && follows(#[trigger] docs[d], k, s);
                lemma_follows_key(docs[d], k, s);
                assert(doc_set(docs, k).contains(d as u32));
                assert(ids.contains(d as u32));
                let i = choose|i: int| 0 <= i < ids.len() && ids[i] == d as u32;
                assert(p.docs@[i].doc == d);
                assert(follow_set(docs[d], k).contains(s));
                assert(p.docs@[i].successors@.contains(s));
            }
        }
    }
    lemma_ascending_is(unique, successor_set(docs, k));
}

} // verus!
