//! The index file as a function of the documents.
//!
//! A file holds the postings, one for each key of any document and in ascending
//! order of the keys; then the directory of the keys; then the table of the
//! offsets at which the postings end; then the footer.

use std::marker::PhantomData;
use vstd::prelude::*;

use crate::build::extract::{follows, gram_at, is_key, key_position, strictly_increasing};
use crate::build::serialize::{delta_decoding, delta_encoding, StreamWriter};
use crate::index::header::{IndexHeader, PostingHeader};
use crate::ioutil::Section;
use crate::trigram::Trigram;
use crate::wire::{le_bytes, lemma_le_bytes_len};

verus! {

/// Whether `s` holds the members of `set`, each once and in ascending order.
pub open spec fn lists(s: Seq<u32>, set: Set<u32>) -> bool {
    strictly_increasing(s) && forall|v: u32| s.contains(v) <==> set.contains(v)
}

/// The members of `set` in ascending order.
pub open spec fn ascending(set: Set<u32>) -> Seq<u32> {
    choose|s: Seq<u32>| lists(s, set)
}

/// The keys of all the documents.
pub open spec fn key_set(docs: Seq<Seq<u8>>) -> Set<u32> {
    Set::new(|k: u32| exists|d: int| 0 <= d < docs.len() && is_key(#[trigger] docs[d], k))
}

/// The documents that have the key `k`.
pub open spec fn doc_set(docs: Seq<Seq<u8>>, k: u32) -> Set<u32> {
    Set::new(|d: u32| d < docs.len() && is_key(docs[d as int], k))
}

/// The trigrams that follow `k` in the document `c`.
pub open spec fn follow_set(c: Seq<u8>, k: u32) -> Set<u32> {
    Set::new(|s: u32| follows(c, k, s))
}

/// The trigrams that follow `k` in any document.
pub open spec fn successor_set(docs: Seq<Seq<u8>>, k: u32) -> Set<u32> {
    Set::new(|s: u32| exists|d: int| 0 <= d < docs.len() && follows(#[trigger] docs[d], k, s))
}

/// The keys, ascending: the trigram directory.
pub open spec fn index_keys(docs: Seq<Seq<u8>>) -> Seq<u32> {
    ascending(key_set(docs))
}

/// The documents of the posting of `k`, ascending.
pub open spec fn posting_docs(docs: Seq<Seq<u8>>, k: u32) -> Seq<u32> {
    ascending(doc_set(docs, k))
}

/// The unique successors of the posting of `k`, ascending.
pub open spec fn posting_successors(docs: Seq<Seq<u8>>, k: u32) -> Seq<u32> {
    ascending(successor_set(docs, k))
}

/// Whether `v` stands for a pair of the matrix of `k`: the row `v / |U|` is a
/// document of the posting, and in it the successor at the column `v % |U|` follows `k`.
pub open spec fn in_matrix(docs: Seq<Seq<u8>>, k: u32, v: u32) -> bool {
    let u = posting_successors(docs, k);
    let d = posting_docs(docs, k);
    let cols = u.len() as int;
    &&& cols > 0
    &&& v as int / cols < d.len()
    &&& follows(docs[d[v as int / cols] as int], k, u[v as int % cols])
}

/// The pairs of the matrix of `k`, each as one number.
pub open spec fn matrix_set(docs: Seq<Seq<u8>>, k: u32) -> Set<u32> {
    Set::new(|v: u32| in_matrix(docs, k, v))
}

/// The matrix of the posting of `k`, ascending.
pub open spec fn posting_matrix(docs: Seq<Seq<u8>>, k: u32) -> Seq<u32> {
    ascending(matrix_set(docs, k))
}

/// Whether the posting of `k` fits the format: every pair of a row and a column
/// is one 32-bit number, and the counts and the sizes of the streams fit 32 bits.
pub open spec fn posting_fits(docs: Seq<Seq<u8>>, k: u32) -> bool {
    let u = posting_successors(docs, k);
    let m = posting_matrix(docs, k);
    let d = posting_docs(docs, k);
    &&& u.len() * d.len() <= 0x1_0000_0000
    &&& u.len() <= u32::MAX
    &&& m.len() <= u32::MAX
    &&& d.len() <= u32::MAX
    &&& delta_encoding(u, 0).len() <= u32::MAX
    &&& delta_encoding(m, 0).len() <= u32::MAX
    &&& delta_encoding(d, 0).len() <= u32::MAX
}

/// Whether every posting fits the format.
pub open spec fn index_fits(docs: Seq<Seq<u8>>) -> bool {
    forall|k: u32| key_set(docs).contains(k) ==> posting_fits(docs, k)
}

/// The header of the posting of `k`.
pub open spec fn posting_header(docs: Seq<Seq<u8>>, k: u32) -> PostingHeader {
    let u = posting_successors(docs, k);
    let m = posting_matrix(docs, k);
    let d = posting_docs(docs, k);
    PostingHeader {
        trigram: Trigram::spec_from_id(k),
        successors_count: u.len() as u32,
        successors_bytes: delta_encoding(u, 0).len() as u32,
        matrix_count: m.len() as u32,
        matrix_bytes: delta_encoding(m, 0).len() as u32,
        docs_count: d.len() as u32,
        docs_bytes: delta_encoding(d, 0).len() as u32,
    }
}

/// The three streams of the posting of `k`: the unique successors, the matrix,
/// the documents, each in the sorted encoding.
pub open spec fn posting_body(docs: Seq<Seq<u8>>, k: u32) -> Seq<u8> {
    delta_encoding(posting_successors(docs, k), 0) + delta_encoding(posting_matrix(docs, k), 0)
        + delta_encoding(posting_docs(docs, k), 0)
}

/// The posting of `k`: its header, then its streams.
pub open spec fn posting_wire(docs: Seq<Seq<u8>>, k: u32) -> Seq<u8> {
    posting_header(docs, k).wire() + posting_body(docs, k)
}

/// The postings of the first `upto` keys.
pub open spec fn postings_wire(docs: Seq<Seq<u8>>, upto: nat) -> Seq<u8>
    decreases upto,
{
    if upto == 0 {
        Seq::empty()
    } else {
        postings_wire(docs, (upto - 1) as nat) + posting_wire(
            docs,
            index_keys(docs)[upto - 1],
        )
    }
}

/// The first `upto` trigrams of the directory, three bytes each.
pub open spec fn directory_wire(keys: Seq<u32>, upto: nat) -> Seq<u8>
    decreases upto,
{
    if upto == 0 {
        Seq::empty()
    } else {
        directory_wire(keys, (upto - 1) as nat) + Trigram::spec_from_id(keys[upto - 1]).bytes()
    }
}

/// The first `upto` entries of the table of ends: for each posting the offset
/// just past it in the region of postings, as eight bytes.
pub open spec fn ends_wire(docs: Seq<Seq<u8>>, upto: nat) -> Seq<u8>
    decreases upto,
{
    if upto == 0 {
        Seq::empty()
    } else {
        ends_wire(docs, (upto - 1) as nat) + le_bytes(postings_wire(docs, upto).len(), 8)
    }
}

/// The footer of the index of `docs`.
pub open spec fn index_footer(docs: Seq<Seq<u8>>) -> IndexHeader {
    let n = index_keys(docs).len();
    let p = postings_wire(docs, n).len();
    IndexHeader {
        num_docs: docs.len() as u32,
        trigram_postings: Section { offset: 0, len: p as u64, _parent_type: PhantomData },
        unique_trigrams: Section {
            offset: p as u64,
            len: (3 * n) as u64,
            _parent_type: PhantomData,
        },
        trigram_posting_ends: Section {
            offset: (p + 3 * n) as u64,
            len: (8 * n) as u64,
            _parent_type: PhantomData,
        },
    }
}

/// The index file of `docs`.
pub open spec fn index_file(docs: Seq<Seq<u8>>) -> Seq<u8> {
    let n = index_keys(docs).len();
    postings_wire(docs, n) + directory_wire(index_keys(docs), n) + ends_wire(docs, n)
        + index_footer(docs).wire()
}

/// Whether each stream of the posting of `k` decodes to what was encoded.
pub open spec fn posting_decodes(docs: Seq<Seq<u8>>, k: u32) -> bool {
    let u = posting_successors(docs, k);
    let m = posting_matrix(docs, k);
    let d = posting_docs(docs, k);
    &&& delta_decoding(delta_encoding(u, 0), u.len(), 0) == Some(u)
    &&& delta_decoding(delta_encoding(m, 0), m.len(), 0) == Some(m)
    &&& delta_decoding(delta_encoding(d, 0), d.len(), 0) == Some(d)
}

/// Whether each stream of every posting decodes to what was encoded.
pub open spec fn streams_decode(docs: Seq<Seq<u8>>) -> bool {
    forall|k: u32| key_set(docs).contains(k) ==> posting_decodes(docs, k)
}

/// Whether the index of `docs` can be written and read back: there are no more
/// documents than identifiers, every posting fits the format and decodes to
/// what was encoded, and the offsets of the file fit 64 bits. Building an index
/// succeeds where the first two hold, and establishes the others.
pub open spec fn index_built(docs: Seq<Seq<u8>>) -> bool {
    &&& docs.len() <= u32::MAX
    &&& index_fits(docs)
    &&& streams_decode(docs)
    &&& index_file(docs).len() <= u64::MAX
}

/// The directory takes three bytes a key.
pub proof fn lemma_directory_len(keys: Seq<u32>, upto: nat)
    ensures
        directory_wire(keys, upto).len() == 3 * upto,
    decreases upto,
{
    if upto > 0 {
        lemma_directory_len(keys, (upto - 1) as nat);
    }
}

/// The table of ends takes eight bytes a posting.
pub proof fn lemma_ends_len(docs: Seq<Seq<u8>>, upto: nat)
    ensures
        ends_wire(docs, upto).len() == 8 * upto,
    decreases upto,
{
    if upto > 0 {
        lemma_ends_len(docs, (upto - 1) as nat);
        lemma_le_bytes_len(postings_wire(docs, upto).len(), 8);
    }
}

/// The postings grow with their number.
pub proof fn lemma_postings_grow(docs: Seq<Seq<u8>>, a: nat, b: nat)
    requires
        a <= b,
    ensures
        postings_wire(docs, a).len() <= postings_wire(docs, b).len(),
        postings_wire(docs, a) == postings_wire(docs, b).subrange(
            0,
            postings_wire(docs, a).len() as int,
        ),
    decreases b - a,
{
    if a < b {
        lemma_postings_grow(docs, a, (b - 1) as nat);
        let shorter = postings_wire(docs, (b - 1) as nat);
        assert(postings_wire(docs, a) =~= postings_wire(docs, b).subrange(
            0,
            postings_wire(docs, a).len() as int,
        ));
    } else {
        assert(postings_wire(docs, a) =~= postings_wire(docs, b).subrange(
            0,
            postings_wire(docs, a).len() as int,
        ));
    }
}

/// What follows a trigram in a document follows a key of the document.
pub proof fn lemma_follows_key(c: Seq<u8>, k: u32, s: u32)
    requires
        follows(c, k, s),
    ensures
        is_key(c, k),
{
    let i = choose|i: int|
        0 <= i <= c.len() - 3 && #[trigger] gram_at(c, i) == k
            && gram_at(c, i + 3) == s;
    assert(key_position(c.len() as int, i));
}

/// An ascending sequence is no longer than its greatest value allows.
pub proof fn lemma_increasing_bound(s: Seq<u32>, i: int)
    requires
        strictly_increasing(s),
        0 <= i < s.len(),
    ensures
        s[i] >= i,
    decreases i,
{
    if i > 0 {
        lemma_increasing_bound(s, i - 1);
        assert(s[i - 1] < s[i]);
    }
}

/// Two ascending sequences with the same members are one.
pub proof fn lemma_lists_unique(a: Seq<u32>, b: Seq<u32>, set: Set<u32>)
    requires
        lists(a, set),
        lists(b, set),
    ensures
        a == b,
    decreases a.len(),
{
    if a.len() == 0 {
        if b.len() > 0 {
            assert(b.contains(b[0]));
            assert(a.contains(b[0]));
        }
        assert(a =~= b);
    } else {
        let x = a.last();
        assert(a.contains(x));
        assert(b.contains(x));
        let j = choose|j: int| 0 <= j < b.len() && b[j] == x;
        let y = b.last();
        assert(b.contains(y));
        assert(a.contains(y));
        let i = choose|i: int| 0 <= i < a.len() && a[i] == y;
        assert(x == y) by {
            if i < a.len() - 1 {
                assert(a[i] < a[a.len() - 1]);
            }
            if j < b.len() - 1 {
                assert(b[j] < b[b.len() - 1]);
            }
        }
        let rest = set.remove(x);
        let a2 = a.drop_last();
        let b2 = b.drop_last();
        assert(lists(a2, rest)) by {
            assert forall|v: u32| a2.contains(v) <==> rest.contains(v) by {
                if a2.contains(v) {
                    let t = choose|t: int| 0 <= t < a2.len() && a2[t] == v;
                    assert(a[t] == v);
                    assert(a[t] < a[a.len() - 1]);
                }
                if rest.contains(v) {
                    assert(a.contains(v));
                    let t = choose|t: int| 0 <= t < a.len() && a[t] == v;
                    assert(a2[t] == v);
                }
            }
        }
        assert(lists(b2, rest)) by {
            assert forall|v: u32| b2.contains(v) <==> rest.contains(v) by {
                if b2.contains(v) {
                    let t = choose|t: int| 0 <= t < b2.len() && b2[t] == v;
                    assert(b[t] == v);
                    assert(b[t] < b[b.len() - 1]);
                }
                if rest.contains(v) {
                    assert(b.contains(v));
                    let t = choose|t: int| 0 <= t < b.len() && b[t] == v;
                    assert(b2[t] == v);
                }
            }
        }
        lemma_lists_unique(a2, b2, rest);
        assert(a =~= a2.push(x));
        assert(b =~= b2.push(y));
    }
}

/// Every set of 32-bit numbers below `bound` has its ascending sequence.
proof fn lemma_lists_exist_below(set: Set<u32>, bound: nat)
    requires
        forall|v: u32| set.contains(v) ==> v < bound,
    ensures
        exists|s: Seq<u32>| lists(s, set),
    decreases bound,
{
    if bound == 0 {
        let s = Seq::<u32>::empty();
        assert(lists(s, set));
    } else {
        let top = (bound - 1) as nat;
        if top <= u32::MAX && set.contains(top as u32) {
            let x = top as u32;
            let rest = set.remove(x);
            lemma_lists_exist_below(rest, top);
            let lower = choose|s: Seq<u32>| lists(s, rest);
            let s = lower.push(x);
            assert(lists(s, set)) by {
                assert forall|i: int, j: int| 0 <= i < j < s.len() implies s[i] < s[j] by {
                    if j < lower.len() {
                        assert(lower[i] < lower[j]);
                    } else {
                        assert(lower.contains(lower[i]));
                        assert(rest.contains(lower[i]));
                    }
                }
                assert forall|v: u32| s.contains(v) <==> set.contains(v) by {
                    if s.contains(v) {
                        let i = choose|i: int| 0 <= i < s.len() && s[i] == v;
                        if i < lower.len() {
                            assert(lower.contains(v));
                        }
                    }
                    if set.contains(v) {
                        if v == x {
                            assert(s[lower.len() as int] == v);
                        } else {
                            assert(rest.contains(v));
                            assert(lower.contains(v));
                            let i = choose|i: int| 0 <= i < lower.len() && lower[i] == v;
                            assert(s[i] == v);
                        }
                    }
                }
            }
        } else {
            lemma_lists_exist_below(set, top);
        }
    }
}

/// The members of a set in ascending order are its members, each once, ascending.
pub proof fn lemma_ascending_lists(set: Set<u32>)
    ensures
        lists(ascending(set), set),
{
    lemma_lists_exist_below(set, 0x1_0000_0000);
}

/// A sequence that lists a set is the set in ascending order.
pub proof fn lemma_ascending_is(s: Seq<u32>, set: Set<u32>)
    requires
        lists(s, set),
    ensures
        ascending(set) == s,
{
    lemma_lists_unique(ascending(set), s, set);
}

} // verus!
