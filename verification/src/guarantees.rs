//! What holds of an index that was built: it opens, and it answers every query
//! with the documents that the query's bytes pick out, each once and ascending.

use vstd::prelude::*;

use crate::build::extract::{follows, gram_at, is_key, key_position, padded, strictly_increasing};
use crate::build::posting::{lemma_number_pair, lemma_pair_number, lemma_rows_ordered};
use crate::build::serialize::{delta_decoding, delta_encoding, StreamWriter};
use crate::error::IndexError;
use crate::index::{
    candidates_of, directory_at, end_at, ends_ordered, IndexMeta, lemma_position_absent,
    lemma_position_found, meta_of, search_header, search_posting, sections_within, spec_candidates,
    spec_open, start_of,
};
use crate::index::header::{IndexHeader, PostingHeader};
use crate::index::query::{
    filtered, map_rows, matching_rows, position, prefix_divisor, prefix_range, prefix_value,
    search_streams, without_repeats,
};
use crate::layout::{
    ascending, directory_wire, doc_set, ends_wire, in_matrix, index_built, index_file, index_footer,
    index_keys, key_set, lemma_ascending_is, lemma_ascending_lists, lemma_directory_len,
    lemma_ends_len, lemma_follows_key, lemma_increasing_bound, lemma_lists_unique,
    lemma_postings_grow, lists, matrix_set, posting_decodes, posting_docs, posting_fits,
    posting_header, posting_matrix, posting_successors, posting_wire, postings_wire, successor_set,
};
use crate::trigram::{lemma_from_id_round_trip, pack3, Trigram};
use crate::wire::{le_bytes, lemma_le_bytes_len, lemma_le_round_trip, lemma_pow256_values};

verus! {

/// The offsets at which the postings of the index of `docs` end.
pub open spec fn posting_ends(docs: Seq<Seq<u8>>) -> Seq<u64> {
    Seq::new(index_keys(docs).len(), |i: int| postings_wire(docs, (i + 1) as nat).len() as u64)
}

/// The keys of an index are trigrams in their integer form, and ascend.
pub proof fn lemma_keys(docs: Seq<Seq<u8>>)
    ensures
        lists(index_keys(docs), key_set(docs)),
        forall|i: int| 0 <= i < index_keys(docs).len() ==> index_keys(docs)[i] < 0x100_0000,
        index_keys(docs).len() <= 0x100_0000,
{
    let keys = index_keys(docs);
    lemma_ascending_lists(key_set(docs));
    assert forall|i: int| 0 <= i < keys.len() implies keys[i] < 0x100_0000 by {
        assert(keys.contains(keys[i]));
        assert(key_set(docs).contains(keys[i]));
    }
    if keys.len() > 0 {
        lemma_increasing_bound(keys, keys.len() - 1);
    }
}

/// The `i`-th trigram of the directory stands at its bytes `3 * i` and on.
proof fn lemma_directory_entry(keys: Seq<u32>, upto: nat, i: int)
    requires
        0 <= i < upto,
    ensures
        directory_wire(keys, upto).len() == 3 * upto,
        directory_wire(keys, upto)[3 * i] == Trigram::spec_from_id(keys[i]).0[0],
        directory_wire(keys, upto)[3 * i + 1] == Trigram::spec_from_id(keys[i]).0[1],
        directory_wire(keys, upto)[3 * i + 2] == Trigram::spec_from_id(keys[i]).0[2],
    decreases upto,
{
    lemma_directory_len(keys, upto);
    lemma_directory_len(keys, (upto - 1) as nat);
    if i < upto - 1 {
        lemma_directory_entry(keys, (upto - 1) as nat, i);
    }
}

/// The `i`-th end of the table stands at its bytes `8 * i` and on.
proof fn lemma_ends_entry(docs: Seq<Seq<u8>>, upto: nat, i: int)
    requires
        0 <= i < upto,
    ensures
        ends_wire(docs, upto).len() == 8 * upto,
        ends_wire(docs, upto).subrange(8 * i, 8 * i + 8) == le_bytes(
            postings_wire(docs, (i + 1) as nat).len(),
            8,
        ),
    decreases upto,
{
    lemma_ends_len(docs, upto);
    lemma_ends_len(docs, (upto - 1) as nat);
    lemma_le_bytes_len(postings_wire(docs, upto).len(), 8);
    if i < upto - 1 {
        lemma_ends_entry(docs, (upto - 1) as nat, i);
        assert(ends_wire(docs, upto).subrange(8 * i, 8 * i + 8) =~= ends_wire(
            docs,
            (upto - 1) as nat,
        ).subrange(8 * i, 8 * i + 8));
    } else {
        assert(ends_wire(docs, upto).subrange(8 * i, 8 * i + 8) =~= le_bytes(
            postings_wire(docs, upto).len(),
            8,
        ));
    }
}

/// The four parts of the index file, where they stand.
pub proof fn lemma_file_parts(docs: Seq<Seq<u8>>)
    ensures
        ({
            let n = index_keys(docs).len() as int;
            let p = postings_wire(docs, n as nat).len() as int;
            let file = index_file(docs);
            &&& file.len() == p + 11 * n + 52
            &&& file.subrange(0, p) == postings_wire(docs, n as nat)
            &&& file.subrange(p, p + 3 * n) == directory_wire(index_keys(docs), n as nat)
            &&& file.subrange(p + 3 * n, p + 11 * n) == ends_wire(docs, n as nat)
            &&& file.subrange(p + 11 * n, file.len() as int) == index_footer(docs).wire()
        }),
{
    let m = index_keys(docs).len();
    let n = m as int;
    let p = postings_wire(docs, m).len() as int;
    let file = index_file(docs);
    lemma_directory_len(index_keys(docs), m);
    lemma_ends_len(docs, m);
    index_footer(docs).lemma_parse_wire();
    assert(file.subrange(0, p) =~= postings_wire(docs, m));
    assert(file.subrange(p, p + 3 * n) =~= directory_wire(index_keys(docs), m));
    assert(file.subrange(p + 3 * n, p + 11 * n) =~= ends_wire(docs, m));
    assert(file.subrange(p + 11 * n, file.len() as int) =~= index_footer(docs).wire());
}

/// An index that was built opens: its footer counts the documents, its directory
/// holds the keys of the documents in ascending order, and its table holds the
/// ends of the postings.
#[verifier::rlimit(30)]
pub proof fn lemma_built_index_opens(docs: Seq<Seq<u8>>)
    requires
        index_built(docs),
    ensures
        spec_open(index_file(docs)) == Ok::<IndexMeta, IndexError>(
            IndexMeta {
                header: index_footer(docs),
                trigrams: index_keys(docs),
                ends: posting_ends(docs),
            },
        ),
        index_footer(docs).num_docs == docs.len(),
        strictly_increasing(index_keys(docs)),
{
    let keys = index_keys(docs);
    let n = keys.len();
    let p = postings_wire(docs, n).len();
    let file = index_file(docs);
    let h = index_footer(docs);
    lemma_keys(docs);
    lemma_file_parts(docs);
    h.lemma_parse_wire();
    assert(file.subrange(file.len() - 52, file.len() as int).subrange(0, 52)
        =~= file.subrange(file.len() - 52, file.len() as int));
    assert(IndexHeader::spec_read(file.subrange(file.len() - 52, file.len() as int)) == Ok::<
        IndexHeader,
        IndexError,
    >(h));
    assert(sections_within(h, file.len()));
    let meta = meta_of(file, h);
    assert(meta.trigrams =~= keys) by {
        assert forall|i: int| 0 <= i < n implies directory_at(file, h, i) == keys[i] by {
            lemma_directory_entry(keys, n, i);
            let dir = directory_wire(keys, n);
            assert(file[p + 3 * i] == dir[3 * i]);
            assert(file[p + 3 * i + 1] == dir[3 * i + 1]);
            assert(file[p + 3 * i + 2] == dir[3 * i + 2]);
            lemma_from_id_round_trip(keys[i]);
        }
    }
    assert(meta.ends =~= posting_ends(docs)) by {
        assert forall|i: int| 0 <= i < n implies end_at(file, h, i) == posting_ends(docs)[i] by {
            lemma_ends_entry(docs, n, i);
            let at = h.trigram_posting_ends.offset + 8 * i;
            assert(file.subrange(at, at + 8) =~= ends_wire(docs, n).subrange(8 * i, 8 * i + 8));
            lemma_postings_grow(docs, (i + 1) as nat, n);
            lemma_pow256_values();
            lemma_le_round_trip(postings_wire(docs, (i + 1) as nat).len(), 8);
        }
    }
    assert(ends_ordered(meta.ends, h.trigram_postings.len)) by {
        assert forall|i: int, j: int| 0 <= i <= j < n implies meta.ends[i] <= meta.ends[j] by {
            lemma_postings_grow(docs, (i + 1) as nat, (j + 1) as nat);
            lemma_postings_grow(docs, (j + 1) as nat, n);
        }
        assert forall|i: int| 0 <= i < n implies meta.ends[i] <= h.trigram_postings.len by {
            lemma_postings_grow(docs, (i + 1) as nat, n);
        }
    }
}

/// Whether no value is below the one before it.
pub open spec fn never_decreasing(s: Seq<u32>) -> bool {
    forall|i: int, j: int| 0 <= i <= j < s.len() ==> s[i] <= s[j]
}

/// Whether some value of `matrix` stands for the row `r` and a column from `lo` up to `hi`.
pub open spec fn row_matches(matrix: Seq<u32>, cols: int, lo: int, hi: int, r: u32) -> bool {
    exists|i: int|
        0 <= i < matrix.len() && (#[trigger] matrix[i]) as int / cols == r && lo
            <= matrix[i] as int % cols < hi
}

/// A number and a greater one with the same column stand for a row and a greater row.
proof fn lemma_rows_ascend(v: int, w: int, cols: int)
    requires
        0 <= v < w,
        0 < cols,
    ensures
        v / cols <= w / cols,
        v % cols == w % cols ==> v / cols < w / cols,
{
    vstd::arithmetic::div_mod::lemma_div_is_ordered(v, w, cols);
    vstd::arithmetic::div_mod::lemma_fundamental_div_mod(v, cols);
    vstd::arithmetic::div_mod::lemma_fundamental_div_mod(w, cols);
}

/// The rows that an ascending matrix gives for a range of columns never
/// decrease, ascend where the range is one column, and are the rows of the
/// values with a column in the range.
#[verifier::rlimit(30)]
pub proof fn lemma_matching_rows(matrix: Seq<u32>, cols: int, lo: int, hi: int)
    requires
        strictly_increasing(matrix),
        0 < cols,
    ensures
        never_decreasing(matching_rows(matrix, cols, lo, hi)),
        hi == lo + 1 ==> strictly_increasing(
            matching_rows(matrix, cols, lo, hi),
        ),
        forall|r: u32|
            matching_rows(matrix, cols, lo, hi).contains(r) <==> row_matches(
                matrix,
                cols,
                lo,
                hi,
                r,
            ),
    decreases matrix.len(),
{
    let rows = matching_rows(matrix, cols, lo, hi);
    if matrix.len() == 0 {
        assert forall|r: u32| rows.contains(r) <==> row_matches(matrix, cols, lo, hi, r) by {}
    } else {
        let shorter = matrix.drop_last();
        let before = matching_rows(shorter, cols, lo, hi);
        let v = matrix.last() as int;
        assert(strictly_increasing(shorter)) by {
            assert forall|i: int, j: int| 0 <= i < j < shorter.len() implies shorter[i]
                < shorter[j] by {
                assert(matrix[i] < matrix[j]);
            }
        }
        lemma_matching_rows(shorter, cols, lo, hi);
        let taken = lo <= v % cols < hi;
        // Every row so far is at or below the row of the last value.
        assert forall|a: int| 0 <= a < before.len() implies before[a] <= v / cols && (hi == lo + 1
            && taken ==> before[a] < v / cols) by {
            assert(before.contains(before[a]));
            assert(row_matches(shorter, cols, lo, hi, before[a]));
            let i = choose|i: int|
                0 <= i < shorter.len() && (#[trigger] shorter[i]) as int / cols == before[a] && lo
                    <= shorter[i] as int % cols < hi;
            assert(matrix[i] < matrix[matrix.len() - 1]);
            lemma_rows_ascend(shorter[i] as int, v, cols);
        }
        vstd::arithmetic::div_mod::lemma_div_pos_is_pos(v, cols);
        vstd::arithmetic::div_mod::lemma_fundamental_div_mod(v, cols);
        vstd::arithmetic::div_mod::lemma_mod_bound(v, cols);
        assert(v / cols <= v) by {
            vstd::arithmetic::div_mod::lemma_div_is_ordered_by_denominator(v, 1, cols);
        }
        assert forall|i: int, j: int| 0 <= i <= j < rows.len() implies rows[i] <= rows[j] by {
            if j < before.len() {
                assert(before[i] <= before[j]);
            } else if i < before.len() {
                assert(rows[i] == before[i]);
            }
        }
        if hi == lo + 1 {
            assert forall|i: int, j: int| 0 <= i < j < rows.len() implies rows[i] < rows[j] by {
                if j < before.len() {
                    assert(before[i] < before[j]);
                } else {
                    assert(rows[i] == before[i]);
                }
            }
        }
        assert forall|r: u32| rows.contains(r) <==> row_matches(matrix, cols, lo, hi, r) by {
            if rows.contains(r) {
                let a = choose|a: int| 0 <= a < rows.len() && rows[a] == r;
                if a < before.len() {
                    assert(before[a] == r);
                    assert(before.contains(r));
                    assert(row_matches(shorter, cols, lo, hi, r));
                    let i = choose|i: int|
                        0 <= i < shorter.len() && (#[trigger] shorter[i]) as int / cols == r && lo
                            <= shorter[i] as int % cols < hi;
                    assert(matrix[i] == shorter[i]);
                } else {
                    assert(matrix[matrix.len() - 1] as int / cols == r);
                }
            }
            if row_matches(matrix, cols, lo, hi, r) {
                let i = choose|i: int|
                    0 <= i < matrix.len() && (#[trigger] matrix[i]) as int / cols == r && lo
                        <= matrix[i] as int % cols < hi;
                if i < shorter.len() {
                    assert(shorter[i] == matrix[i]);
                    assert(row_matches(shorter, cols, lo, hi, r));
                    assert(before.contains(r));
                    let a = choose|a: int| 0 <= a < before.len() && before[a] == r;
                    assert(rows[a] == r);
                } else {
                    assert(rows[before.len() as int] == r);
                }
            }
        }
    }
}

/// Without its repeats, a sequence that never decreases ascends, and holds what it held.
pub proof fn lemma_without_repeats(s: Seq<u32>)
    requires
        never_decreasing(s),
    ensures
        strictly_increasing(without_repeats(s)),
        forall|x: u32| without_repeats(s).contains(x) <==> s.contains(x),
    decreases s.len(),
{
    let out = without_repeats(s);
    if s.len() > 0 {
        let shorter = s.drop_last();
        let before = without_repeats(shorter);
        assert(never_decreasing(shorter)) by {
            assert forall|i: int, j: int| 0 <= i <= j < shorter.len() implies shorter[i]
                <= shorter[j] by {
                assert(s[i] <= s[j]);
            }
        }
        lemma_without_repeats(shorter);
        let repeat = s.len() >= 2 && s[s.len() - 2] == s.last();
        assert forall|a: int| 0 <= a < before.len() implies before[a] <= s.last() && (!repeat
            ==> before[a] < s.last()) by {
            assert(before.contains(before[a]));
            assert(shorter.contains(before[a]));
            let i = choose|i: int| 0 <= i < shorter.len() && shorter[i] == before[a];
            assert(s[i] <= s[s.len() - 2]);
            assert(s[s.len() - 2] <= s[s.len() - 1]);
        }
        assert forall|i: int, j: int| 0 <= i < j < out.len() implies out[i] < out[j] by {
            if j < before.len() {
                assert(before[i] < before[j]);
            } else {
                assert(out[i] == before[i]);
            }
        }
        assert forall|x: u32| out.contains(x) <==> s.contains(x) by {
            if out.contains(x) {
                let a = choose|a: int| 0 <= a < out.len() && out[a] == x;
                if a < before.len() {
                    assert(before[a] == x);
                    assert(before.contains(x));
                    assert(shorter.contains(x));
                    let i = choose|i: int| 0 <= i < shorter.len() && shorter[i] == x;
                    assert(s[i] == x);
                } else {
                    assert(s[s.len() - 1] == x);
                }
            }
            if s.contains(x) {
                let i = choose|i: int| 0 <= i < s.len() && s[i] == x;
                if i < shorter.len() {
                    assert(shorter[i] == x);
                    assert(shorter.contains(x));
                    assert(before.contains(x));
                    let a = choose|a: int| 0 <= a < before.len() && before[a] == x;
                    assert(out[a] == x);
                } else if repeat {
                    assert(shorter[s.len() - 2] == x);
                    assert(shorter.contains(x));
                    assert(before.contains(x));
                    let a = choose|a: int| 0 <= a < before.len() && before[a] == x;
                    assert(out[a] == x);
                } else {
                    assert(out[before.len() as int] == x);
                }
            }
        }
    } else {
        assert forall|x: u32| out.contains(x) <==> s.contains(x) by {}
    }
}

/// Ascending rows within the documents, from `from` upwards, are each answered
/// by the document at the row.
pub proof fn lemma_map_rows(docs: Seq<u32>, from: int, rows: Seq<u32>)
    requires
        strictly_increasing(rows),
        forall|i: int| 0 <= i < rows.len() ==> from <= #[trigger] rows[i] < docs.len(),
    ensures
        map_rows(docs, from, rows) == Seq::new(
            rows.len(),
            |i: int| docs[rows[i] as int],
        ),
    decreases rows.len(),
{
    let out = map_rows(docs, from, rows);
    let want = Seq::new(rows.len(), |i: int| docs[rows[i] as int]);
    if rows.len() > 0 {
        let rest = rows.skip(1);
        assert(strictly_increasing(rest)) by {
            assert forall|i: int, j: int| 0 <= i < j < rest.len() implies rest[i] < rest[j] by {
                assert(rows[i + 1] < rows[j + 1]);
            }
        }
        assert forall|i: int| 0 <= i < rest.len() implies rows[0] + 1 <= #[trigger] rest[i]
            < docs.len() by {
            assert(rows[0] < rows[i + 1]);
        }
        lemma_map_rows(docs, rows[0] as int + 1, rest);
        assert(out =~= want);
    } else {
        assert(out =~= want);
    }
}

/// Over ascending successors, one pass finds the range of those with the prefix:
/// below it stand the lesser ones, in it those with the prefix, past it the greater.
pub proof fn lemma_prefix_range(unique: Seq<u32>, divisor: int, prefix: int)
    requires
        strictly_increasing(unique),
        0 < divisor,
    ensures
        ({
            let (lo, hi) = prefix_range(unique, divisor, prefix);
            &&& 0 <= lo <= hi <= unique.len()
            &&& forall|i: int| 0 <= i < lo ==> unique[i] as int / divisor < prefix
            &&& forall|i: int| lo <= i < hi ==> unique[i] as int / divisor == prefix
            &&& forall|i: int| hi <= i < unique.len() ==> unique[i] as int / divisor > prefix
        }),
    decreases unique.len(),
{
    if unique.len() > 0 {
        let shorter = unique.drop_last();
        assert(strictly_increasing(shorter)) by {
            assert forall|i: int, j: int| 0 <= i < j < shorter.len() implies shorter[i]
                < shorter[j] by {
                assert(unique[i] < unique[j]);
            }
        }
        lemma_prefix_range(shorter, divisor, prefix);
        let (lo0, hi0) = prefix_range(shorter, divisor, prefix);
        let (lo, hi) = prefix_range(unique, divisor, prefix);
        let n = unique.len() as int;
        let x = unique.last() as int / divisor;
        assert forall|i: int| 0 <= i < n - 1 implies unique[i] as int / divisor <= x by {
            assert(unique[i] < unique[n - 1]);
            vstd::arithmetic::div_mod::lemma_div_is_ordered(
                unique[i] as int,
                unique[n - 1] as int,
                divisor,
            );
        }
        assert(forall|i: int| 0 <= i < n - 1 ==> shorter[i] == unique[i]);
        if x == prefix {
            if hi0 < n - 1 {
                assert(shorter[hi0] as int / divisor > prefix);
            }
        }
    }
}

/// The documents in which a successor of `k` is wanted.
pub open spec fn wanted_docs(docs: Seq<Seq<u8>>, k: u32, ok: spec_fn(u32) -> bool) -> Set<u32> {
    Set::new(
        |d: u32| d < docs.len() && exists|s: u32| follows(docs[d as int], k, s) && ok(s),
    )
}

/// Over the streams of a posting of the index of `docs`, the rows of the matrix
/// with a column from `lo` up to `hi`, mapped to their documents, are the
/// documents in which a wanted successor follows `k`, where the columns of the
/// range are those of the wanted successors.
#[verifier::rlimit(30)]
proof fn lemma_filtered(
    docs: Seq<Seq<u8>>,
    k: u32,
    lo: int,
    hi: int,
    skip: bool,
    ok: spec_fn(u32) -> bool,
)
    requires
        docs.len() <= u32::MAX,
        posting_fits(docs, k),
        0 <= lo <= hi <= posting_successors(docs, k).len(),
        forall|c: int|
            0 <= c < posting_successors(docs, k).len() ==> (lo <= c < hi <==> ok(
                #[trigger] posting_successors(docs, k)[c],
            )),
        skip || hi == lo + 1,
    ensures
        filtered(
            posting_successors(docs, k).len() as int,
            lo,
            hi,
            skip,
            Some(posting_matrix(docs, k)),
            Some(posting_docs(docs, k)),
        ) == Ok::<Seq<u32>, IndexError>(ascending(wanted_docs(docs, k, ok))),
{
    let u = posting_successors(docs, k);
    let m = posting_matrix(docs, k);
    let d = posting_docs(docs, k);
    let cols = u.len() as int;
    let wanted = wanted_docs(docs, k, ok);
    lemma_ascending_lists(successor_set(docs, k));
    lemma_ascending_lists(matrix_set(docs, k));
    lemma_ascending_lists(doc_set(docs, k));
    lemma_ascending_lists(wanted);
    let rows = matching_rows(m, cols, lo, hi);
    let rows2 = if skip {
        without_repeats(rows)
    } else {
        rows
    };
    if cols == 0 {
        if m.len() > 0 {
            assert(m.contains(m[0]));
            assert(matrix_set(docs, k).contains(m[0]));
        }
        assert(rows =~= Seq::empty());
        assert(without_repeats(rows) =~= Seq::empty());
    } else {
        lemma_matching_rows(m, cols, lo, hi);
        if skip {
            lemma_without_repeats(rows);
        }
    }
    assert(strictly_increasing(rows2));
    assert(forall|r: u32| rows2.contains(r) <==> rows.contains(r));
    // Every row is a document of the posting.
    assert forall|i: int| 0 <= i < rows2.len() implies 0 <= #[trigger] rows2[i] < d.len() by {
        let r = rows2[i];
        assert(rows2.contains(r));
        assert(rows.contains(r));
        assert(row_matches(m, cols, lo, hi, r));
        let j = choose|j: int|
            0 <= j < m.len() && (#[trigger] m[j]) as int / cols == r && lo <= m[j] as int % cols
                < hi;
        assert(m.contains(m[j]));
        assert(matrix_set(docs, k).contains(m[j]));
        assert(in_matrix(docs, k, m[j]));
    }
    lemma_map_rows(d, 0, rows2);
    let out = map_rows(d, 0, rows2);
    assert(out == Seq::new(rows2.len(), |i: int| d[rows2[i] as int]));
    assert(lists(out, wanted)) by {
        assert forall|a: int, b: int| 0 <= a < b < out.len() implies out[a] < out[b] by {
            assert(rows2[a] < rows2[b]);
            assert(d[rows2[a] as int] < d[rows2[b] as int]);
        }
        assert forall|x: u32| out.contains(x) <==> wanted.contains(x) by {
            if out.contains(x) {
                let i = choose|i: int| 0 <= i < out.len() && out[i] == x;
                let r = rows2[i];
                assert(rows2.contains(r));
                assert(rows.contains(r));
                assert(row_matches(m, cols, lo, hi, r));
                let j = choose|j: int|
                    0 <= j < m.len() && (#[trigger] m[j]) as int / cols == r && lo <= m[j] as int
                        % cols < hi;
                assert(m.contains(m[j]));
                assert(matrix_set(docs, k).contains(m[j]));
                assert(in_matrix(docs, k, m[j]));
                let c = m[j] as int % cols;
                assert(ok(u[c]));
                assert(d.contains(d[r as int]));
                assert(doc_set(docs, k).contains(x));
                assert(follows(docs[x as int], k, u[c]) && ok(u[c]));
            }
            if wanted.contains(x) {
                let s = choose|s: u32| follows(docs[x as int], k, s) && ok(s);
                lemma_follows_key(docs[x as int], k, s);
                assert(doc_set(docs, k).contains(x));
                assert(d.contains(x));
                let r = choose|r: int| 0 <= r < d.len() && d[r] == x;
                assert(successor_set(docs, k).contains(s));
                assert(u.contains(s));
                let c = choose|c: int| 0 <= c < u.len() && u[c] == s;
                assert(ok(u[c]));
                assert(lo <= c < hi);
                lemma_pair_number(r, cols, c);
                lemma_rows_ordered(r + 1, d.len() as int, cols);
                assert(d.len() * cols == cols * d.len()) by (nonlinear_arith);
                let v = (r * cols + c) as u32;
                assert(v as int == r * cols + c);
                assert(in_matrix(docs, k, v));
                assert(matrix_set(docs, k).contains(v));
                assert(m.contains(v));
                let j = choose|j: int| 0 <= j < m.len() && m[j] == v;
                assert(m[j] as int / cols == r && lo <= m[j] as int % cols < hi);
                assert(row_matches(m, cols, lo, hi, r as u32));
                assert(rows.contains(r as u32));
                assert(rows2.contains(r as u32));
                let i = choose|i: int| 0 <= i < rows2.len() && rows2[i] == r as u32;
                assert(out[i] == x);
            }
        }
    }
    lemma_lists_unique(out, ascending(wanted), wanted);
}

/// Whether the document `c` matches a query whose first three bytes are the
/// trigram `k` and whose other bytes are `rest`: `k` is a key of `c`, and the one
/// or two bytes of `rest` begin a trigram that follows `k` in `c`, or its first
/// three bytes are such a trigram.
pub open spec fn matches_doc(c: Seq<u8>, k: u32, rest: Seq<u8>) -> bool {
    if rest.len() == 0 {
        is_key(c, k)
    } else if rest.len() <= 2 {
        exists|s: u32| follows(c, k, s) && s as int / prefix_divisor(rest) == prefix_value(rest)
    } else {
        follows(c, k, pack3(rest[0], rest[1], rest[2]))
    }
}

/// The documents that match a query of three bytes or more.
pub open spec fn answer_set(docs: Seq<Seq<u8>>, query: Seq<u8>) -> Set<u32> {
    Set::new(
        |d: u32|
            d < docs.len() && matches_doc(
                docs[d as int],
                pack3(query[0], query[1], query[2]),
                query.skip(3),
            ),
    )
}

/// The answer to a query: every document where the query has fewer than three
/// bytes, and else the documents that match it, ascending.
pub open spec fn answer(docs: Seq<Seq<u8>>, query: Seq<u8>) -> Seq<u32> {
    if query.len() < 3 {
        Seq::new(docs.len(), |i: int| i as u32)
    } else {
        ascending(answer_set(docs, query))
    }
}

/// The streams of the posting of a key answer what is left of a query with the
/// documents that match the query.
#[verifier::rlimit(30)]
proof fn lemma_streams_answer(docs: Seq<Seq<u8>>, query: Seq<u8>)
    requires
        docs.len() <= u32::MAX,
        query.len() >= 3,
        posting_fits(docs, pack3(query[0], query[1], query[2])),
    ensures
        search_streams(
            Some(posting_successors(docs, pack3(query[0], query[1], query[2]))),
            Some(posting_matrix(docs, pack3(query[0], query[1], query[2]))),
            Some(posting_docs(docs, pack3(query[0], query[1], query[2]))),
            query.skip(3),
        ) == Ok::<Seq<u32>, IndexError>(answer(docs, query)),
{
    let k = pack3(query[0], query[1], query[2]);
    let rest = query.skip(3);
    let u = posting_successors(docs, k);
    let d = posting_docs(docs, k);
    let want = answer_set(docs, query);
    lemma_ascending_lists(successor_set(docs, k));
    lemma_ascending_lists(doc_set(docs, k));
    if rest.len() == 0 {
        assert(want =~= doc_set(docs, k));
    } else if rest.len() <= 2 {
        let divisor = prefix_divisor(rest);
        let prefix = prefix_value(rest);
        let ok = |s: u32| s as int / divisor == prefix;
        lemma_prefix_range(u, divisor, prefix);
        let (lo, hi) = prefix_range(u, divisor, prefix);
        assert(want =~= wanted_docs(docs, k, ok));
        if lo == hi {
            assert(want =~= Set::empty()) by {
                assert forall|x: u32| !want.contains(x) by {
                    if want.contains(x) {
                        let s = choose|s: u32|
                            follows(docs[x as int], k, s) && s as int / divisor == prefix;
                        assert(successor_set(docs, k).contains(s));
                        assert(u.contains(s));
                        let c = choose|c: int| 0 <= c < u.len() && u[c] == s;
                        assert(lo <= c < hi);
                    }
                }
            }
            lemma_ascending_is(Seq::empty(), Set::empty());
        } else {
            lemma_filtered(docs, k, lo, hi, true, ok);
        }
    } else {
        let target = pack3(rest[0], rest[1], rest[2]);
        let ok = |s: u32| s == target;
        assert(want =~= wanted_docs(docs, k, ok));
        if u.contains(target) {
            let t = choose|t: int| 0 <= t < u.len() && u[t] == target;
            lemma_position_found(u, target, t, 0);
            assert forall|c: int| 0 <= c < u.len() implies (t <= c < t + 1 <==> ok(
                #[trigger] u[c],
            )) by {
                if c < t {
                    assert(u[c] < u[t]);
                } else if c > t {
                    assert(u[t] < u[c]);
                }
            }
            lemma_filtered(docs, k, t, t + 1, false, ok);
        } else {
            lemma_position_absent(u, target, 0);
            assert(want =~= Set::empty()) by {
                assert forall|x: u32| !want.contains(x) by {
                    if want.contains(x) {
                        assert(successor_set(docs, k).contains(target));
                    }
                }
            }
            lemma_ascending_is(Seq::empty(), Set::empty());
        }
    }
}

/// The `i`-th posting stands in the file where the postings before it end.
proof fn lemma_posting_bytes(docs: Seq<Seq<u8>>, i: int)
    requires
        0 <= i < index_keys(docs).len(),
    ensures
        ({
            let at = postings_wire(docs, i as nat).len() as int;
            let whole = posting_wire(docs, index_keys(docs)[i]);
            &&& postings_wire(docs, (i + 1) as nat).len() == at + whole.len()
            &&& at + whole.len() <= index_file(docs).len()
            &&& index_file(docs).subrange(at, at + whole.len()) == whole
        }),
{
    let n = index_keys(docs).len();
    let at = postings_wire(docs, i as nat).len() as int;
    let whole = posting_wire(docs, index_keys(docs)[i]);
    let file = index_file(docs);
    lemma_file_parts(docs);
    lemma_postings_grow(docs, (i + 1) as nat, n);
    let p = postings_wire(docs, n);
    let upto = postings_wire(docs, (i + 1) as nat);
    assert(upto == postings_wire(docs, i as nat) + whole);
    assert forall|j: int| 0 <= j < whole.len() implies file[at + j] == whole[j] by {
        assert(file.subrange(0, p.len() as int)[at + j] == p[at + j]);
        assert(p.subrange(0, upto.len() as int)[at + j] == upto[at + j]);
    }
    assert(file.subrange(at, at + whole.len()) =~= whole);
}

/// Four parts that stand one after the other in a file stand each where the
/// ones before it end.
proof fn lemma_four_parts(
    file: Seq<u8>,
    at: int,
    a: Seq<u8>,
    b: Seq<u8>,
    c: Seq<u8>,
    e: Seq<u8>,
)
    requires
        0 <= at,
        at + a.len() + b.len() + c.len() + e.len() <= file.len(),
        file.subrange(at, at + a.len() + b.len() + c.len() + e.len()) == a + (b + c + e),
    ensures
        file.subrange(at, at + a.len()) == a,
        file.subrange(at + a.len(), at + a.len() + b.len()) == b,
        file.subrange(at + a.len() + b.len(), at + a.len() + b.len() + c.len()) == c,
        file.subrange(
            at + a.len() + b.len() + c.len(),
            at + a.len() + b.len() + c.len() + e.len(),
        ) == e,
{
    let whole = a + (b + c + e);
    let part = file.subrange(at, at + a.len() + b.len() + c.len() + e.len());
    assert forall|j: int| 0 <= j < whole.len() implies file[at + j] == whole[j] by {
        assert(part[j] == file[at + j]);
    }
    assert(file.subrange(at, at + a.len()) =~= a);
    assert(file.subrange(at + a.len(), at + a.len() + b.len()) =~= b) by {
        assert forall|j: int| 0 <= j < b.len() implies file[at + a.len() + j] == b[j] by {
            assert(whole[a.len() + j] == b[j]);
        }
    }
    assert(file.subrange(at + a.len() + b.len(), at + a.len() + b.len() + c.len()) =~= c) by {
        assert forall|j: int| 0 <= j < c.len() implies file[at + a.len() + b.len() + j]
            == c[j] by {
            assert(whole[a.len() + b.len() + j] == c[j]);
        }
    }
    assert(file.subrange(
        at + a.len() + b.len() + c.len(),
        at + a.len() + b.len() + c.len() + e.len(),
    ) =~= e) by {
        assert forall|j: int| 0 <= j < e.len() implies file[at + a.len() + b.len() + c.len() + j]
            == e[j] by {
            assert(whole[a.len() + b.len() + c.len() + j] == e[j]);
        }
    }
}

/// Where the `i`-th posting of a built index stands in the file, and what its
/// parts are.
proof fn lemma_posting_located(docs: Seq<Seq<u8>>, i: int)
    requires
        0 <= i < index_keys(docs).len(),
        posting_fits(docs, index_keys(docs)[i]),
    ensures
        ({
            let k = index_keys(docs)[i];
            let at = postings_wire(docs, i as nat).len() as int;
            let h = posting_header(docs, k);
            let file = index_file(docs);
            let u_at = at + 27;
            let m_at = u_at + h.successors_bytes;
            let d_at = m_at + h.matrix_bytes;
            &&& postings_wire(docs, (i + 1) as nat).len() == at + h.total_bytes()
            &&& PostingHeader::spec_parse(file.subrange(at, at + 27)) == h
            &&& file.subrange(u_at, m_at) == delta_encoding(posting_successors(docs, k), 0)
            &&& file.subrange(m_at, d_at) == delta_encoding(posting_matrix(docs, k), 0)
            &&& file.subrange(d_at, d_at + h.docs_bytes) == delta_encoding(posting_docs(docs, k), 0)
            &&& h.successors_count == posting_successors(docs, k).len()
            &&& h.matrix_count == posting_matrix(docs, k).len()
            &&& h.docs_count == posting_docs(docs, k).len()
        }),
{
    let k = index_keys(docs)[i];
    let at = postings_wire(docs, i as nat).len() as int;
    let h = posting_header(docs, k);
    let file = index_file(docs);
    let a = h.wire();
    let b = delta_encoding(posting_successors(docs, k), 0);
    let c = delta_encoding(posting_matrix(docs, k), 0);
    let e = delta_encoding(posting_docs(docs, k), 0);
    h.lemma_parse_wire();
    lemma_posting_bytes(docs, i);
    assert(posting_wire(docs, k) == a + (b + c + e));
    assert(posting_wire(docs, k).len() == a.len() + b.len() + c.len() + e.len());
    lemma_four_parts(file, at, a, b, c, e);
}

/// The posting of the `i`-th key of a built index answers what is left of a query
/// that begins with the key.
#[verifier::rlimit(30)]
proof fn lemma_key_answers(docs: Seq<Seq<u8>>, query: Seq<u8>, i: int)
    requires
        index_built(docs),
        query.len() >= 3,
        0 <= i < index_keys(docs).len(),
        index_keys(docs)[i] == pack3(query[0], query[1], query[2]),
    ensures
        search_posting(
            index_file(docs),
            postings_wire(docs, i as nat).len() as int,
            postings_wire(docs, (i + 1) as nat).len() - postings_wire(docs, i as nat).len(),
            query.skip(3),
        ) == Ok::<Seq<u32>, IndexError>(answer(docs, query)),
{
    let file = index_file(docs);
    let keys = index_keys(docs);
    let k = keys[i];
    let rest = query.skip(3);
    lemma_keys(docs);
    assert(keys.contains(k));
    assert(key_set(docs).contains(k));
    assert(posting_fits(docs, k));
    assert(posting_decodes(docs, k));
    lemma_posting_located(docs, i);
    let at = postings_wire(docs, i as nat).len() as int;
    let h = posting_header(docs, k);
    assert(search_posting(file, at, h.total_bytes() as int, rest) == search_header(
        file,
        at,
        h,
        rest,
    ));
    lemma_streams_answer(docs, query);
}

/// No document matches a query whose first three bytes are no key.
proof fn lemma_no_key_no_answer(docs: Seq<Seq<u8>>, query: Seq<u8>)
    requires
        query.len() >= 3,
        !key_set(docs).contains(pack3(query[0], query[1], query[2])),
    ensures
        answer(docs, query) == Seq::<u32>::empty(),
{
    let k = pack3(query[0], query[1], query[2]);
    let rest = query.skip(3);
    let want = answer_set(docs, query);
    assert(want =~= Set::empty()) by {
        assert forall|x: u32| !want.contains(x) by {
            if want.contains(x) {
                let c = docs[x as int];
                if rest.len() == 0 {
                } else if rest.len() <= 2 {
                    let s = choose|s: u32|
                        follows(c, k, s) && s as int / prefix_divisor(rest) == prefix_value(rest);
                    lemma_follows_key(c, k, s);
                } else {
                    lemma_follows_key(c, k, pack3(rest[0], rest[1], rest[2]));
                }
                assert(is_key(docs[x as int], k));
                assert(key_set(docs).contains(k));
            }
        }
    }
    lemma_ascending_is(Seq::empty(), Set::empty());
}

/// A built index answers every query with the documents that match it: no
/// other, each once, ascending.
#[verifier::rlimit(30)]
pub proof fn lemma_built_index_answers(docs: Seq<Seq<u8>>, query: Seq<u8>)
    requires
        index_built(docs),
    ensures
        spec_candidates(index_file(docs), query) == Ok::<Seq<u32>, IndexError>(
            answer(docs, query),
        ),
{
    let file = index_file(docs);
    let keys = index_keys(docs);
    lemma_built_index_opens(docs);
    lemma_keys(docs);
    let meta = IndexMeta {
        header: index_footer(docs),
        trigrams: keys,
        ends: posting_ends(docs),
    };
    assert(spec_candidates(file, query) == candidates_of(file, meta, query));
    if query.len() < 3 {
        assert(Seq::new(meta.header.num_docs as nat, |i: int| i as u32) =~= answer(docs, query));
    } else {
        let k = pack3(query[0], query[1], query[2]);
        if keys.contains(k) {
            let i = choose|i: int| 0 <= i < keys.len() && keys[i] == k;
            lemma_position_found(keys, k, i, 0);
            lemma_key_answers(docs, query, i);
            lemma_postings_grow(docs, i as nat, (i + 1) as nat);
            lemma_postings_grow(docs, (i + 1) as nat, keys.len());
            assert(start_of(meta.ends, i) == postings_wire(docs, i as nat).len());
            assert(meta.ends[i] == postings_wire(docs, (i + 1) as nat).len());
        } else {
            lemma_position_absent(keys, k, 0);
            lemma_no_key_no_answer(docs, query);
        }
    }
}

/// No answer of a built index names a document twice.
pub proof fn lemma_answer_has_no_repeats(docs: Seq<Seq<u8>>, query: Seq<u8>)
    requires
        index_built(docs),
    ensures
        spec_candidates(index_file(docs), query) matches Ok(ids) && forall|i: int, j: int|
            0 <= i < j < ids.len() ==> ids[i] < ids[j],
{
    lemma_built_index_answers(docs, query);
    if query.len() >= 3 {
        lemma_ascending_lists(answer_set(docs, query));
    }
}

/// A built index answers a query that occurs in a document with that document,
/// among others: for every document and every stretch of three bytes or more
/// of it, the document is among the candidates for the stretch.
pub proof fn lemma_substring_is_answered(docs: Seq<Seq<u8>>, d: u32, at: int, query: Seq<u8>)
    requires
        index_built(docs),
        d < docs.len(),
        query.len() >= 3,
        0 <= at,
        at + query.len() <= docs[d as int].len(),
        docs[d as int].subrange(at, at + query.len()) == query,
    ensures
        spec_candidates(index_file(docs), query) matches Ok(ids) && ids.contains(d),
{
    lemma_built_index_answers(docs, query);
    lemma_ascending_lists(answer_set(docs, query));
    let c = docs[d as int];
    let k = pack3(query[0], query[1], query[2]);
    let rest = query.skip(3);
    let part = c.subrange(at, at + query.len());
    assert(forall|j: int| 0 <= j < query.len() ==> query[j] == part[j] && part[j] == c[at + j]);
    assert(forall|j: int| 0 <= j < c.len() ==> padded(c)[j] == c[j]);
    assert(gram_at(c, at) == k) by {
        assert(query[0] == c[at] && query[1] == c[at + 1] && query[2] == c[at + 2]);
    }
    assert(key_position(c.len() as int, at));
    assert(is_key(c, k));
    if rest.len() > 0 {
        let s = gram_at(c, at + 3);
        assert(follows(c, k, s));
        assert(rest[0] == query[3]);
        assert(padded(c)[at + 3] == rest[0]);
        if rest.len() == 1 {
            assert(s as int / 65536 == rest[0] as int);
        } else {
            assert(rest[1] == query[4]);
            assert(padded(c)[at + 4] == rest[1]);
            if rest.len() == 2 {
                assert(s as int / 256 == rest[0] as int * 256 + rest[1] as int);
            } else {
                assert(rest[2] == query[5]);
                assert(padded(c)[at + 5] == rest[2]);
                assert(s == pack3(rest[0], rest[1], rest[2]));
            }
        }
    }
    assert(matches_doc(c, k, rest));
    assert(answer_set(docs, query).contains(d));
}

/// The document at the row of the number `v` of the matrix of `k`.
pub open spec fn row_doc(docs: Seq<Seq<u8>>, k: u32, v: u32) -> u32 {
    posting_docs(docs, k)[v as int / (posting_successors(docs, k).len() as int)]
}

/// The streams of every posting keep the format's order: the unique successors,
/// the matrix and the documents each ascend; every number of the matrix stands
/// for a document of the posting and one of its unique successors; every
/// document of the posting is a document of the index that has the key; and a
/// document in which something follows the key has a pair in the matrix, where
/// the posting fits the format.
pub proof fn lemma_posting_invariants(docs: Seq<Seq<u8>>, k: u32)
    requires
        docs.len() <= u32::MAX,
    ensures
        strictly_increasing(posting_successors(docs, k)),
        strictly_increasing(posting_matrix(docs, k)),
        strictly_increasing(posting_docs(docs, k)),
        forall|i: int|
            0 <= i < posting_matrix(docs, k).len() ==> {
                let cols = posting_successors(docs, k).len() as int;
                let v = #[trigger] posting_matrix(docs, k)[i] as int;
                cols > 0 && 0 <= v / cols < posting_docs(docs, k).len() && 0 <= v % cols < cols
            },
        forall|i: int|
            0 <= i < posting_docs(docs, k).len() ==> (#[trigger] posting_docs(docs, k)[i])
                < docs.len() && is_key(docs[posting_docs(docs, k)[i] as int], k),
        posting_fits(docs, k) ==> forall|d: u32, s: u32|
            d < docs.len() && #[trigger] follows(docs[d as int], k, s) ==> exists|i: int|
                0 <= i < posting_matrix(docs, k).len() && row_doc(
                    docs,
                    k,
                    #[trigger] posting_matrix(docs, k)[i],
                ) == d,
{
    let u = posting_successors(docs, k);
    let m = posting_matrix(docs, k);
    let list = posting_docs(docs, k);
    let cols = u.len() as int;
    lemma_ascending_lists(successor_set(docs, k));
    lemma_ascending_lists(matrix_set(docs, k));
    lemma_ascending_lists(doc_set(docs, k));
    assert forall|i: int| 0 <= i < m.len() implies {
        let v = #[trigger] m[i] as int;
        cols > 0 && 0 <= v / cols < list.len() && 0 <= v % cols < cols
    } by {
        assert(m.contains(m[i]));
        assert(matrix_set(docs, k).contains(m[i]));
        assert(in_matrix(docs, k, m[i]));
        lemma_number_pair(m[i] as int, cols);
    }
    assert forall|i: int| 0 <= i < list.len() implies (#[trigger] list[i]) < docs.len() && is_key(
        docs[list[i] as int],
        k,
    ) by {
        assert(list.contains(list[i]));
        assert(doc_set(docs, k).contains(list[i]));
    }
    if posting_fits(docs, k) {
        assert forall|d: u32, s: u32|
            d < docs.len() && #[trigger] follows(docs[d as int], k, s) implies exists|i: int|
            0 <= i < m.len() && row_doc(docs, k, #[trigger] m[i]) == d by {
            lemma_follows_key(docs[d as int], k, s);
            assert(doc_set(docs, k).contains(d));
            assert(list.contains(d));
            let r = choose|r: int| 0 <= r < list.len() && list[r] == d;
            assert(successor_set(docs, k).contains(s));
            assert(u.contains(s));
            let c = choose|c: int| 0 <= c < u.len() && u[c] == s;
            lemma_pair_number(r, cols, c);
            lemma_rows_ordered(r + 1, list.len() as int, cols);
            assert(list.len() * cols == cols * list.len()) by (nonlinear_arith);
            let v = (r * cols + c) as u32;
            assert(in_matrix(docs, k, v));
            assert(matrix_set(docs, k).contains(v));
            assert(m.contains(v));
            let i = choose|i: int| 0 <= i < m.len() && m[i] == v;
            assert(row_doc(docs, k, m[i]) == d);
        }
    }
}

/// The documents of the posting with the header `h` at `at` in `file`, as far as
/// they can be decoded.
pub open spec fn docs_stream(file: Seq<u8>, at: int, h: PostingHeader) -> Option<Seq<u32>> {
    let from = at + 27 + h.successors_bytes + h.matrix_bytes;
    delta_decoding(file.subrange(from, from + h.docs_bytes), h.docs_count as nat, 0)
}

/// Whether the documents `docs` ascend and are documents of an index of
/// `num_docs` documents.
pub open spec fn docs_in_order(docs: Seq<u32>, num_docs: u32) -> bool {
    strictly_increasing(docs) && forall|i: int| 0 <= i < docs.len() ==> docs[i] < num_docs
}

/// Whether the stream of documents of the `i`-th posting of `file`, where it can
/// be decoded, ascends and names documents of the index only.
pub open spec fn posting_in_order(file: Seq<u8>, meta: IndexMeta, i: int) -> bool {
    let at = meta.header.trigram_postings.offset + start_of(meta.ends, i);
    let h = PostingHeader::spec_parse(file.subrange(at, at + 27));
    docs_stream(file, at, h) matches Some(d) ==> docs_in_order(d, meta.header.num_docs)
}

/// Whether `file` opens, and the stream of documents of each of its postings,
/// where it can be decoded, ascends and names documents of the index only.
pub open spec fn postings_in_order(file: Seq<u8>) -> bool {
    spec_open(file) matches Ok(meta) && forall|i: int|
        0 <= i < meta.trigrams.len() ==> #[trigger] posting_in_order(file, meta, i)
}

/// A position that a value has in a sequence is an index of the sequence.
pub proof fn lemma_position_within(s: Seq<u32>, x: u32, from: int)
    requires
        0 <= from,
    ensures
        position(s, x, from) matches Some(t) ==> from <= t < s.len() && s[t] == x,
    decreases s.len() - from,
{
    if from < s.len() && s[from] != x {
        lemma_position_within(s, x, from + 1);
    }
}

/// Whatever rows are asked for, the documents handed out ascend where the
/// documents of the posting do, and are documents of the posting from `from` on.
pub proof fn lemma_map_rows_ascends(docs: Seq<u32>, from: int, rows: Seq<u32>)
    requires
        strictly_increasing(docs),
        0 <= from,
    ensures
        strictly_increasing(map_rows(docs, from, rows)),
        forall|i: int|
            0 <= i < map_rows(docs, from, rows).len() ==> exists|j: int|
                from <= j < docs.len() && docs[j] == #[trigger] map_rows(docs, from, rows)[i],
    decreases rows.len(),
{
    let out = map_rows(docs, from, rows);
    if rows.len() > 0 {
        let r = rows[0] as int;
        if from <= r < docs.len() {
            let tail = map_rows(docs, r + 1, rows.skip(1));
            lemma_map_rows_ascends(docs, r + 1, rows.skip(1));
            assert(out == seq![docs[r]] + tail);
            assert forall|i: int| 0 <= i < out.len() implies exists|j: int|
                from <= j < docs.len() && docs[j] == #[trigger] out[i] by {
                if i == 0 {
                    assert(docs[r] == out[0]);
                } else {
                    assert(out[i] == tail[i - 1]);
                    let j = choose|j: int| r + 1 <= j < docs.len() && docs[j] == tail[i - 1];
                    assert(from <= j < docs.len() && docs[j] == out[i]);
                }
            }
            assert forall|a: int, b: int| 0 <= a < b < out.len() implies out[a] < out[b] by {
                assert(out[b] == tail[b - 1]);
                let j = choose|j: int| r + 1 <= j < docs.len() && docs[j] == tail[b - 1];
                if a == 0 {
                    assert(docs[r] < docs[j]);
                } else {
                    assert(out[a] == tail[a - 1]);
                    assert(tail[a - 1] < tail[b - 1]);
                }
            }
        }
    }
}

/// Whatever the unique successors and the matrix of a posting hold, its answer
/// ascends and names documents of the index only, where its documents do.
pub proof fn lemma_streams_answer_ascends(
    unique: Option<Seq<u32>>,
    matrix: Option<Seq<u32>>,
    docs: Option<Seq<u32>>,
    rest: Seq<u8>,
    num_docs: u32,
)
    requires
        docs matches Some(d) ==> docs_in_order(d, num_docs),
    ensures
        search_streams(unique, matrix, docs, rest) matches Ok(ids) ==> docs_in_order(ids, num_docs),
{
    match (matrix, docs) {
        (Some(m), Some(d)) => {
            assert forall|cols: int, lo: int, hi: int, skip: bool|
                #[trigger] filtered(cols, lo, hi, skip, matrix, docs) matches Ok(ids)
                    ==> docs_in_order(ids, num_docs) by {
                let rows = matching_rows(m, cols, lo, hi);
                let asked = if skip {
                    without_repeats(rows)
                } else {
                    rows
                };
                let out = map_rows(d, 0, asked);
                lemma_map_rows_ascends(d, 0, asked);
                assert forall|i: int| 0 <= i < out.len() implies out[i] < num_docs by {
                    let j = choose|j: int| 0 <= j < d.len() && d[j] == out[i];
                    assert(d[j] < num_docs);
                }
            }
        },
        _ => {},
    }
}

/// No answer of an index whose postings name their documents in ascending
/// order names a document twice, or a document that the index does not have.
pub proof fn lemma_answer_ascends(file: Seq<u8>, query: Seq<u8>)
    requires
        postings_in_order(file),
    ensures
        spec_open(file) matches Ok(meta) && (spec_candidates(file, query) matches Ok(ids)
            ==> docs_in_order(ids, meta.header.num_docs)),
{
    let meta = spec_open(file)->Ok_0;
    let n = meta.header.num_docs;
    if query.len() >= 3 {
        let k = pack3(query[0], query[1], query[2]);
        lemma_position_within(meta.trigrams, k, 0);
        match position(meta.trigrams, k, 0) {
            Some(i) => {
                let at = meta.header.trigram_postings.offset + start_of(meta.ends, i);
                let h = PostingHeader::spec_parse(file.subrange(at, at + 27));
                let u_at = at + 27;
                let m_at = u_at + h.successors_bytes;
                let d_at = m_at + h.matrix_bytes;
                assert(posting_in_order(file, meta, i));
                lemma_streams_answer_ascends(
                    delta_decoding(file.subrange(u_at, m_at), h.successors_count as nat, 0),
                    delta_decoding(file.subrange(m_at, d_at), h.matrix_count as nat, 0),
                    docs_stream(file, at, h),
                    query.skip(3),
                    n,
                );
            },
            None => {},
        }
    }
}

/// The postings of a built index name their documents in ascending order.
pub proof fn lemma_built_postings_in_order(docs: Seq<Seq<u8>>)
    requires
        index_built(docs),
    ensures
        postings_in_order(index_file(docs)),
{
    let file = index_file(docs);
    let keys = index_keys(docs);
    lemma_built_index_opens(docs);
    lemma_keys(docs);
    let meta = spec_open(file)->Ok_0;
    assert forall|i: int| 0 <= i < meta.trigrams.len() implies #[trigger] posting_in_order(
        file,
        meta,
        i,
    ) by {
        let k = keys[i];
        assert(keys.contains(k));
        assert(key_set(docs).contains(k));
        assert(posting_fits(docs, k));
        assert(posting_decodes(docs, k));
        lemma_posting_located(docs, i);
        lemma_postings_grow(docs, i as nat, (i + 1) as nat);
        lemma_postings_grow(docs, (i + 1) as nat, keys.len());
        assert(start_of(meta.ends, i) == postings_wire(docs, i as nat).len());
        lemma_posting_invariants(docs, k);
        let d = posting_docs(docs, k);
        assert forall|j: int| 0 <= j < d.len() implies d[j] < meta.header.num_docs by {
            assert(d[j] < docs.len());
        }
    }
}

} // verus!
