//! Building an index: the integer codec, the trigram extractor, and the builder
//! that gathers the postings of the documents and writes the file.

pub mod extract;
pub mod posting;
pub mod serialize;
pub mod sst;

use std::collections::BTreeMap;
use std::time::{Duration, Instant};
use vstd::prelude::*;
use vstd::std_specs::btree::group_btree_axioms;

use crate::build::extract::{pop_least, 
    entries_wf, extract_trigrams, follows, has_key, has_pair, is_key, strictly_increasing,
};
use crate::build::posting::{build_posting, posting_of, posting_stats};
use crate::build::serialize::StreamWriter;
use crate::clock::{add_durations, elapsed, no_duration, now};
use crate::error::IndexError;
use crate::guarantees::{
    answer, lemma_built_index_answers, lemma_built_index_opens, lemma_built_postings_in_order,
    postings_in_order,
};
use crate::index::{spec_candidates, spec_open};
use crate::index::header::IndexHeader;
use crate::index::stats::{BuildStats, ExtractStats, IndexStats, TrigramPostingStats};
use crate::ioutil::Section;
use crate::layout::{
    directory_wire, doc_set, ends_wire, follow_set, index_built, index_file, index_fits,
    index_footer, index_keys, key_set, lemma_ascending_lists,
    lemma_directory_len, lemma_ends_len, lists, posting_decodes, posting_fits, postings_wire,
    streams_decode,
};
use crate::trigram::{DocID, Trigram, TrigramID};
use crate::wire::put_u64_le;

verus! {

/// One document of a posting: its identifier, and the trigrams that follow the
/// posting's trigram in it, ascending.
#[derive(Debug, Clone)]
pub struct DocSuccessors {
    pub doc: DocID,
    pub successors: Vec<TrigramID>,
}

/// The posting of one trigram while the index is built: its documents, ascending.
#[derive(Debug, Clone)]
pub struct PostingList {
    pub trigram: TrigramID,
    pub docs: Vec<DocSuccessors>,
}

/// The identifiers of the documents of a posting, in order.
pub open spec fn doc_ids(p: PostingList) -> Seq<u32> {
    Seq::new(p.docs@.len(), |i: int| p.docs@[i].doc)
}

/// Whether the posting of `k` is to hold the document `d`, when the keys of the
/// last document count from `cut` upwards only.
pub open spec fn key_in(docs: Seq<Seq<u8>>, cut: int, d: int, k: u32) -> bool {
    0 <= d < docs.len() && is_key(docs[d], k) && (d < docs.len() - 1 || k >= cut)
}

/// The keys, when the keys of the last document count from `cut` upwards only.
pub open spec fn keys_cut(docs: Seq<Seq<u8>>, cut: int) -> Set<u32> {
    Set::new(|k: u32| exists|d: int| key_in(docs, cut, d, k))
}

/// The documents of `k`, when the keys of the last document count from `cut` upwards only.
pub open spec fn docs_cut(docs: Seq<Seq<u8>>, cut: int, k: u32) -> Set<u32> {
    Set::new(|d: u32| key_in(docs, cut, d as int, k))
}

/// The posting of the trigram `k` with the documents `rows`.
pub open spec fn posting(k: u32, rows: Vec<DocSuccessors>) -> PostingList {
    PostingList { trigram: k, docs: rows }
}

/// Whether a posting holds what it is to hold.
pub open spec fn posting_ok(docs: Seq<Seq<u8>>, cut: int, p: PostingList) -> bool {
    &&& lists(doc_ids(p), docs_cut(docs, cut, p.trigram))
    &&& forall|i: int|
        0 <= i < p.docs@.len() ==> p.docs@[i].doc < docs.len() && lists(
            (#[trigger] p.docs@[i]).successors@,
            follow_set(docs[p.docs@[i].doc as int], p.trigram),
        )
}

/// Whether the postings hold what they are to hold.
#[verifier::opaque]
pub open spec fn combined_ok(
    docs: Seq<Seq<u8>>,
    cut: int,
    m: Map<u32, Vec<DocSuccessors>>,
) -> bool {
    &&& m.dom() =~= keys_cut(docs, cut)
    &&& forall|k: u32| #[trigger] m.contains_key(k) ==> posting_ok(docs, cut, posting(k, m[k]))
}

/// Whether the last document has no key from `lo` up to `hi`, `hi` left out.
pub open spec fn no_key_between(c: Seq<u8>, lo: int, hi: int) -> bool {
    forall|k: u32| lo <= k < hi ==> !is_key(c, k)
}

/// Moving the cut over a stretch without keys changes nothing.
proof fn lemma_cut_moves(
    docs: Seq<Seq<u8>>,
    from: int,
    to: int,
    m: Map<u32, Vec<DocSuccessors>>,
)
    requires
        to <= from,
        docs.len() > 0,
        no_key_between(docs.last(), to, from),
        combined_ok(docs, from, m),
    ensures
        combined_ok(docs, to, m),
{
    reveal(combined_ok);
    assert forall|d: int, k: u32| key_in(docs, from, d, k) <==> key_in(docs, to, d, k) by {
        if d == docs.len() - 1 {
            assert(docs[d] == docs.last());
        }
    }
    assert(keys_cut(docs, from) =~= keys_cut(docs, to));
    assert forall|k: u32| #[trigger] m.contains_key(k) implies posting_ok(
        docs,
        to,
        posting(k, m[k]),
    ) by {
        assert(posting_ok(docs, from, posting(k, m[k])));
        assert(docs_cut(docs, from, k) =~= docs_cut(docs, to, k));
    }
}

/// A document that is not counted yet changes nothing.
proof fn lemma_cut_opens(docs: Seq<Seq<u8>>, c: Seq<u8>, m: Map<u32, Vec<DocSuccessors>>)
    requires
        docs.len() == 0 || combined_ok(docs, 0, m),
        docs.len() == 0 ==> m.dom() =~= Set::<u32>::empty(),
    ensures
        combined_ok(docs.push(c), 0x1_0000_0000, m),
{
    reveal(combined_ok);
    let more = docs.push(c);
    let top = 0x1_0000_0000;
    assert forall|d: int, k: u32| key_in(more, top, d, k) <==> (docs.len() > 0 && key_in(
        docs,
        0,
        d,
        k,
    )) by {
        if 0 <= d < docs.len() {
            assert(more[d] == docs[d]);
        }
    }
    if docs.len() == 0 {
        assert(keys_cut(more, top) =~= Set::empty());
    } else {
        assert(keys_cut(more, top) =~= keys_cut(docs, 0));
        assert forall|k: u32| #[trigger] m.contains_key(k) implies posting_ok(
            more,
            top,
            posting(k, m[k]),
        ) by {
            let p = posting(k, m[k]);
            assert(posting_ok(docs, 0, p));
            assert(docs_cut(more, top, k) =~= docs_cut(docs, 0, k));
            assert forall|i: int| 0 <= i < p.docs@.len() implies p.docs@[i].doc < more.len()
                && lists(
                (#[trigger] p.docs@[i]).successors@,
                follow_set(more[p.docs@[i].doc as int], p.trigram),
            ) by {
                assert(more[p.docs@[i].doc as int] == docs[p.docs@[i].doc as int]);
            }
        }
    }
}

/// With every key counted, the postings are those of the keys of the index, and
/// each holds the documents of its key.
pub proof fn lemma_cut_closed(docs: Seq<Seq<u8>>, m: Map<u32, Vec<DocSuccessors>>)
    requires
        combined_ok(docs, 0, m),
        docs.len() <= u32::MAX,
    ensures
        m.dom() =~= key_set(docs),
        forall|k: u32| #[trigger] m.contains_key(k) ==> posting_of(docs, posting(k, m[k])),
{
    reveal(combined_ok);
    assert forall|d: int, k: u32| key_in(docs, 0, d, k) <==> (0 <= d < docs.len() && is_key(
        docs[d],
        k,
    )) by {}
    assert(keys_cut(docs, 0) =~= key_set(docs)) by {
        assert forall|k: u32| keys_cut(docs, 0).contains(k) <==> key_set(docs).contains(k) by {
            if keys_cut(docs, 0).contains(k) {
                let d = choose|d: int| key_in(docs, 0, d, k);
                assert(0 <= d < docs.len() && is_key(docs[d], k));
            }
            if key_set(docs).contains(k) {
                let d = choose|d: int| 0 <= d < docs.len() && is_key(#[trigger] docs[d], k);
                assert(key_in(docs, 0, d, k));
            }
        }
    }
    assert forall|k: u32| #[trigger] m.contains_key(k) implies posting_of(
        docs,
        posting(k, m[k]),
    ) by {
        assert(posting_ok(docs, 0, posting(k, m[k])));
        assert(docs_cut(docs, 0, k) =~= doc_set(docs, k));
    }
}

/// What adding the document `entry` to the posting of `k` makes of the postings:
/// the posting of `k` gains it at its end, and is made where there was none.
pub open spec fn gained(
    before: Map<u32, Vec<DocSuccessors>>,
    after: Map<u32, Vec<DocSuccessors>>,
    k: u32,
    entry: DocSuccessors,
) -> bool {
    &&& after.dom() =~= before.dom().insert(k)
    &&& after[k]@ == (if before.contains_key(k) {
        before[k]@
    } else {
        Seq::empty()
    }).push(entry)
    &&& forall|j: u32| j != k && #[trigger] before.contains_key(j) ==> after[j] == before[j]
}

/// Adds a document to the posting of `k`, which is made where there is none.
fn add_to_posting(m: &mut BTreeMap<u32, Vec<DocSuccessors>>, k: u32, entry: DocSuccessors)
    ensures
        gained(old(m)@, final(m)@, k, entry),
{
    broadcast use group_btree_axioms;

    let mut rows = match m.remove(&k) {
        Some(rows) => rows,
        None => Vec::new(),
    };
    rows.push(entry);
    m.insert(k, rows);
}

/// Counting the key `k` of the last document, once its posting has gained that
/// document, keeps the postings right.
#[verifier::rlimit(30)]
proof fn lemma_posting_gained(
    docs: Seq<Seq<u8>>,
    cut: int,
    before: Map<u32, Vec<DocSuccessors>>,
    after: Map<u32, Vec<DocSuccessors>>,
    k: u32,
    entry: DocSuccessors,
)
    requires
        docs.len() > 0,
        k < cut,
        combined_ok(docs, cut, before),
        gained(before, after, k, entry),
        is_key(docs.last(), k),
        no_key_between(docs.last(), k + 1, cut),
        entry.doc == docs.len() - 1,
        lists(entry.successors@, follow_set(docs.last(), k)),
    ensures
        combined_ok(docs, k as int, after),
{
    reveal(combined_ok);
    let last = docs.len() - 1;
    assert(docs[last] == docs.last());
    // The documents of the other keys stay; the key `k` gains the last document.
    assert forall|d: int, k2: u32| key_in(docs, k as int, d, k2) <==> key_in(docs, cut, d, k2) || (
    d == last && k2 == k) by {
        if d == last && k2 != k && k2 >= k && k2 < cut {
            assert(!is_key(docs.last(), k2));
        }
    }
    let found = before.contains_key(k);
    // The keys.
    assert(after.dom() =~= keys_cut(docs, k as int)) by {
        assert forall|k2: u32| after.dom().contains(k2) <==> keys_cut(docs, k as int).contains(
            k2,
        ) by {
            if keys_cut(docs, cut).contains(k2) {
                let d = choose|d: int| key_in(docs, cut, d, k2);
                assert(key_in(docs, k as int, d, k2));
            }
            if keys_cut(docs, k as int).contains(k2) && k2 != k {
                let d = choose|d: int| key_in(docs, k as int, d, k2);
                assert(key_in(docs, cut, d, k2));
            }
            if k2 == k {
                assert(key_in(docs, k as int, last, k));
            }
        }
    }
    // The postings.
    assert forall|j: u32| #[trigger] after.contains_key(j) implies posting_ok(
        docs,
        k as int,
        posting(j, after[j]),
    ) by {
        let q = posting(j, after[j]);
        if j == k {
            let olds: Seq<DocSuccessors> = if found {
                before[k]@
            } else {
                Seq::empty()
            };
            let was = posting(k, before[k]);
            assert(q.docs@ =~= olds.push(entry));
            if found {
                assert(posting_ok(docs, cut, was));
                assert(doc_ids(was).len() == olds.len());
            }
            // Every document that the posting held is below the last.
            assert forall|i: int| 0 <= i < olds.len() implies olds[i].doc < last && lists(
                olds[i].successors@,
                follow_set(docs[olds[i].doc as int], k),
            ) && docs_cut(docs, cut, k).contains(olds[i].doc) by {
                assert(doc_ids(was)[i] == olds[i].doc);
                assert(doc_ids(was).contains(olds[i].doc));
                assert(docs_cut(docs, cut, k).contains(olds[i].doc));
                assert(key_in(docs, cut, olds[i].doc as int, k));
                assert(was.docs@[i] == olds[i]);
            }
            assert(lists(doc_ids(q), docs_cut(docs, k as int, k))) by {
                assert forall|a: int, b: int| 0 <= a < b < doc_ids(q).len() implies doc_ids(q)[a]
                    < doc_ids(q)[b] by {
                    if b < olds.len() {
                        assert(doc_ids(was)[a] < doc_ids(was)[b]);
                        assert(doc_ids(q)[a] == olds[a].doc && doc_ids(q)[b] == olds[b].doc);
                    } else {
                        assert(doc_ids(q)[b] == entry.doc);
                        assert(doc_ids(q)[a] == olds[a].doc);
                    }
                }
                assert forall|d: u32| doc_ids(q).contains(d) <==> docs_cut(
                    docs,
                    k as int,
                    k,
                ).contains(d) by {
                    if doc_ids(q).contains(d) {
                        let i = choose|i: int| 0 <= i < doc_ids(q).len() && doc_ids(q)[i] == d;
                        if i < olds.len() {
                            assert(d == olds[i].doc);
                            assert(key_in(docs, cut, d as int, k));
                        } else {
                            assert(d == entry.doc);
                        }
                    }
                    if docs_cut(docs, k as int, k).contains(d) {
                        if d as int == last {
                            assert(doc_ids(q)[olds.len() as int] == d);
                        } else {
                            assert(key_in(docs, cut, d as int, k));
                            assert(keys_cut(docs, cut).contains(k));
                            assert(docs_cut(docs, cut, k).contains(d));
                            assert(doc_ids(was).contains(d));
                            let i = choose|i: int|
                                0 <= i < doc_ids(was).len() && doc_ids(was)[i] == d;
                            assert(doc_ids(q)[i] == d);
                        }
                    }
                }
            }
            assert forall|i: int| 0 <= i < q.docs@.len() implies q.docs@[i].doc < docs.len()
                && lists(
                (#[trigger] q.docs@[i]).successors@,
                follow_set(docs[q.docs@[i].doc as int], q.trigram),
            ) by {
                if i < olds.len() {
                    assert(q.docs@[i] == olds[i]);
                } else {
                    assert(q.docs@[i] == entry);
                }
            }
        } else {
            assert(before.contains_key(j));
            assert(after[j] == before[j]);
            assert(posting_ok(docs, cut, posting(j, before[j])));
            assert(docs_cut(docs, k as int, j) =~= docs_cut(docs, cut, j));
        }
    }
}

/// The least of each statistic over the first `upto` postings.
pub open spec fn min_stats(docs: Seq<Seq<u8>>, upto: nat) -> TrigramPostingStats
    decreases upto,
{
    if upto == 0 {
        TrigramPostingStats::spec_new_max()
    } else {
        min_stats(docs, (upto - 1) as nat).spec_min(
            posting_stats(docs, index_keys(docs)[upto - 1]),
        )
    }
}

/// The greatest of each statistic over the first `upto` postings.
pub open spec fn max_stats(docs: Seq<Seq<u8>>, upto: nat) -> TrigramPostingStats
    decreases upto,
{
    if upto == 0 {
        TrigramPostingStats::spec_zero()
    } else {
        max_stats(docs, (upto - 1) as nat).spec_max(
            posting_stats(docs, index_keys(docs)[upto - 1]),
        )
    }
}

/// The capped sum of each statistic over the first `upto` postings.
pub open spec fn sum_stats(docs: Seq<Seq<u8>>, upto: nat) -> TrigramPostingStats
    decreases upto,
{
    if upto == 0 {
        TrigramPostingStats::spec_zero()
    } else {
        sum_stats(docs, (upto - 1) as nat).spec_sum(
            posting_stats(docs, index_keys(docs)[upto - 1]),
        )
    }
}

/// The sizes of the documents, added up.
pub open spec fn total_len(docs: Seq<Seq<u8>>) -> nat
    decreases docs.len(),
{
    if docs.len() == 0 {
        0
    } else {
        total_len(docs.drop_last()) + docs.last().len()
    }
}

/// The sizes of the documents, added up, or the greatest size where the sum is above it.
pub open spec fn capped_total(docs: Seq<Seq<u8>>) -> usize {
    if total_len(docs) > usize::MAX {
        usize::MAX
    } else {
        total_len(docs) as usize
    }
}

/// Gathers the postings of documents, and writes their index.
pub struct IndexBuilder {
    num_docs: u32,
    combined: BTreeMap<TrigramID, Vec<DocSuccessors>>,
    total_doc_bytes: usize,
    creation_time: Instant,
    extract_duration: Duration,
    docs: Ghost<Seq<Seq<u8>>>,
}

impl Default for IndexBuilder {
    fn default() -> (b: Self)
        ensures
            b.wf(),
            b.docs() == Seq::<Seq<u8>>::empty(),
    {
        IndexBuilder::new()
    }
}

/// Whether the postings `m` are those of the index of `docs`, of which the
/// first `done` have been taken out.
pub open spec fn postings_left(
    docs: Seq<Seq<u8>>,
    m: Map<u32, Vec<DocSuccessors>>,
    done: int,
) -> bool {
    &&& docs.len() <= u32::MAX
    &&& 0 <= done <= index_keys(docs).len()
    &&& lists(index_keys(docs), key_set(docs))
    &&& forall|k: u32|
        m.contains_key(k) <==> exists|t: int|
            done <= t < index_keys(docs).len() && #[trigger] index_keys(docs)[t] == k
    &&& forall|k: u32| #[trigger] m.contains_key(k) ==> posting_of(docs, posting(k, m[k]))
}

/// The least of the postings that are left is the next posting of the index.
proof fn lemma_next_posting(
    docs: Seq<Seq<u8>>,
    before: Map<u32, Vec<DocSuccessors>>,
    after: Map<u32, Vec<DocSuccessors>>,
    done: int,
    k: u32,
)
    requires
        postings_left(docs, before, done),
        before.contains_key(k),
        forall|j: u32| before.contains_key(j) ==> k <= j,
        after == before.remove(k),
    ensures
        done < index_keys(docs).len(),
        index_keys(docs)[done] == k,
        key_set(docs).contains(k),
        postings_left(docs, after, done + 1),
{
    let keys = index_keys(docs);
    let t = choose|t: int| done <= t < keys.len() && #[trigger] keys[t] == k;
    assert(before.contains_key(keys[done]));
    if t > done {
        assert(keys[done] < keys[t]);
    }
    assert(keys.contains(k));
    assert forall|j: u32|
        after.contains_key(j) <==> exists|t2: int|
            done + 1 <= t2 < keys.len() && #[trigger] keys[t2] == j by {
        if after.contains_key(j) {
            assert(before.contains_key(j));
            let t2 = choose|t2: int| done <= t2 < keys.len() && #[trigger] keys[t2] == j;
            assert(done + 1 <= t2 < keys.len() && keys[t2] == j);
        }
        if exists|t2: int| done + 1 <= t2 < keys.len() && #[trigger] keys[t2] == j {
            let t2 = choose|t2: int| done + 1 <= t2 < keys.len() && #[trigger] keys[t2] == j;
            assert(keys[done] < keys[t2]);
            assert(done <= t2 < keys.len() && keys[t2] == j);
            assert(before.contains_key(j));
        }
    }
}

/// Once every posting has been taken out, none is left.
proof fn lemma_no_posting_left(docs: Seq<Seq<u8>>, m: Map<u32, Vec<DocSuccessors>>, done: int)
    requires
        postings_left(docs, m, done),
        m.dom() =~= Set::<u32>::empty(),
    ensures
        done == index_keys(docs).len(),
{
    if done < index_keys(docs).len() {
        assert(m.contains_key(index_keys(docs)[done]));
        assert(m.dom().contains(index_keys(docs)[done]));
    }
}

impl IndexBuilder {
    /// The documents added so far, in order: the document `d` has the identifier `d`.
    pub closed spec fn docs(&self) -> Seq<Seq<u8>> {
        self.docs@
    }

    /// The invariant of the builder: its postings are those of its documents.
    pub closed spec fn wf(&self) -> bool {
        &&& self.num_docs == self.docs@.len()
        &&& self.total_doc_bytes == capped_total(self.docs@)
        &&& self.docs@.len() == 0 ==> self.combined@.dom() =~= Set::<u32>::empty()
        &&& self.docs@.len() > 0 ==> combined_ok(self.docs@, 0, self.combined@)
    }

    /// A builder without documents.
    pub fn new() -> (b: Self)
        ensures
            b.wf(),
            b.docs() == Seq::<Seq<u8>>::empty(),
    {
        IndexBuilder {
            num_docs: 0,
            combined: BTreeMap::new(),
            total_doc_bytes: 0,
            creation_time: now(),
            extract_duration: no_duration(),
            docs: Ghost(Seq::empty()),
        }
    }

    /// The number of documents added so far.
    pub fn num_docs(&self) -> (n: u32)
        requires
            self.wf(),
        ensures
            n == self.docs().len(),
    {
        self.num_docs
    }

    /// Adds a document, which gets the next identifier. Fails, and changes
    /// nothing, where the identifiers are used up.
    #[verifier::rlimit(30)]
    pub fn add_doc(&mut self, content: &[u8]) -> (r: Result<(), IndexError>)
        requires
            old(self).wf(),
        ensures
            final(self).wf(),
            match r {
                Ok(()) => old(self).docs().len() < u32::MAX && final(self).docs() == old(
                    self,
                ).docs().push(content@),
                Err(e) => e == IndexError::TooLarge && old(self).docs().len() >= u32::MAX
                    && final(self).docs() == old(self).docs(),
            },
    {
        if self.num_docs == u32::MAX {
            return Err(IndexError::TooLarge);
        }
        let start = now();
        let doc_id = self.num_docs;
        let mut extracted = extract_trigrams(content);
        let ghost all = extracted@;
        let ghost old_docs = self.docs@;
        let ghost new_docs = old_docs.push(content@);
        let ghost mut cut: int = 0x1_0000_0000;
        proof {
            lemma_cut_opens(old_docs, content@, self.combined@);
            assert(new_docs.last() == content@);
        }
        while extracted.len() > 0
            invariant
                extracted@.len() <= all.len(),
                extracted@ == all.subrange(0, extracted@.len() as int),
                entries_wf(all),
                forall|k: u32| has_key(all, k) <==> is_key(content@, k),
                forall|k: u32, s: u32| has_pair(all, k, s) <==> follows(content@, k, s),
                new_docs == old_docs.push(content@),
                doc_id == old_docs.len(),
                doc_id < u32::MAX,
                self.num_docs == doc_id,
                self.total_doc_bytes == capped_total(old_docs),
                combined_ok(new_docs, cut, self.combined@),
                cut == (if extracted@.len() < all.len() {
                    all[extracted@.len() as int].trigram as int
                } else {
                    0x1_0000_0000
                }),
            decreases extracted.len(),
        {
            let ghost j = extracted@.len() - 1;
            let e = extracted.pop().unwrap();
            let k = e.trigram;
            let entry = DocSuccessors { doc: doc_id, successors: e.successors };
            let ghost before = self.combined@;
            proof {
                assert(e == all[j]);
                assert(new_docs.last() == content@);
                assert(has_key(all, k));
                assert(k < cut) by {
                    if j + 1 < all.len() {
                        assert(all[j].trigram < all[j + 1].trigram);
                    }
                }
                assert(no_key_between(content@, k + 1, cut)) by {
                    assert forall|k2: u32| k + 1 <= k2 < cut implies !is_key(content@, k2) by {
                        if is_key(content@, k2) {
                            assert(has_key(all, k2));
                            let t = choose|t: int|
                                0 <= t < all.len() && (#[trigger] all[t]).trigram == k2;
                            if t < j {
                                assert(all[t].trigram < all[j].trigram);
                            } else if t == j {
                            } else if t == j + 1 {
                            } else {
                                assert(all[j + 1].trigram < all[t].trigram);
                            }
                        }
                    }
                }
                assert(lists(entry.successors@, follow_set(content@, k))) by {
                    assert(strictly_increasing(all[j].successors@));
                    assert forall|s: u32| entry.successors@.contains(s) <==> follows(
                        content@,
                        k,
                        s,
                    ) by {
                        if entry.successors@.contains(s) {
                            assert(has_pair(all, k, s));
                        }
                        if follows(content@, k, s) {
                            assert(has_pair(all, k, s));
                            let t = choose|t: int|
                                0 <= t < all.len() && (#[trigger] all[t]).trigram == k
                                    && all[t].successors@.contains(s);
                            if t < j {
                                assert(all[t].trigram < all[j].trigram);
                            } else if t > j {
                                assert(all[j].trigram < all[t].trigram);
                            }
                        }
                    }
                }
            }
            add_to_posting(&mut self.combined, k, entry);
            proof {
                lemma_posting_gained(new_docs, cut, before, self.combined@, k, entry);
                cut = k as int;
                assert(extracted@ =~= all.subrange(0, extracted@.len() as int));
            }
        }
        proof {
            assert(no_key_between(content@, 0, cut)) by {
                assert forall|k2: u32| 0 <= k2 < cut implies !is_key(content@, k2) by {
                    if is_key(content@, k2) {
                        assert(has_key(all, k2));
                        let t = choose|t: int|
                            0 <= t < all.len() && (#[trigger] all[t]).trigram == k2;
                        if t > 0 {
                            assert(all[0].trigram < all[t].trigram);
                        }
                    }
                }
            }
            lemma_cut_moves(new_docs, cut, 0, self.combined@);
            assert(new_docs.drop_last() =~= old_docs);
        }
        self.num_docs = self.num_docs + 1;
        self.total_doc_bytes = self.total_doc_bytes.saturating_add(content.len());
        self.extract_duration = add_durations(self.extract_duration, elapsed(&start));
        self.docs = Ghost(new_docs);
        Ok(())
    }

    /// The postings are those of the keys of the documents.
    proof fn lemma_postings(&self)
        requires
            self.wf(),
        ensures
            self.num_docs == self.docs@.len(),
            self.total_doc_bytes == capped_total(self.docs@),
            postings_left(self.docs@, self.combined@, 0),
    {
        let docs = self.docs@;
        let m = self.combined@;
        let keys = index_keys(docs);
        lemma_ascending_lists(key_set(docs));
        if docs.len() == 0 {
            assert(key_set(docs) =~= Set::empty());
            assert forall|k: u32| !m.contains_key(k) by {
                assert(!m.dom().contains(k));
            }
            assert forall|k: u32|
                m.contains_key(k) <==> exists|t: int|
                    0 <= t < keys.len() && #[trigger] keys[t] == k by {
                if exists|t: int| 0 <= t < keys.len() && #[trigger] keys[t] == k {
                    let t = choose|t: int| 0 <= t < keys.len() && #[trigger] keys[t] == k;
                    assert(keys.contains(keys[t]));
                }
            }
        } else {
            lemma_cut_closed(docs, m);
            assert forall|k: u32|
                m.contains_key(k) <==> exists|t: int|
                    0 <= t < keys.len() && #[trigger] keys[t] == k by {
                if m.contains_key(k) {
                    assert(m.dom().contains(k));
                    assert(key_set(docs).contains(k));
                    assert(keys.contains(k));
                    let t = choose|t: int| 0 <= t < keys.len() && keys[t] == k;
                    assert(0 <= t < keys.len() && keys[t] == k);
                }
                if exists|t: int| 0 <= t < keys.len() && #[trigger] keys[t] == k {
                    let t = choose|t: int| 0 <= t < keys.len() && #[trigger] keys[t] == k;
                    assert(keys.contains(keys[t]));
                    assert(key_set(docs).contains(k));
                    assert(m.dom().contains(k));
                }
            }
        }
    }

    /// Appends the index of the documents to `w`: the postings, the directory, the
    /// table of ends, the footer. What was appended opens as an index: its footer
    /// counts the documents, its directory ascends, its postings name their
    /// documents in ascending order, and it answers every query with the
    /// documents that match it. Fails where a posting does not fit the
    /// format; what `w` then holds past its old end is not an index.
    #[verifier::rlimit(30)]
    pub fn build(self, w: &mut Vec<u8>) -> (r: Result<IndexStats, IndexError>)
        requires
            self.wf(),
        ensures
            match r {
                Ok(stats) => {
                    let n = index_keys(self.docs()).len();
                    &&& index_built(self.docs())
                    &&& final(w)@ == old(w)@ + index_file(self.docs())
                    &&& spec_open(index_file(self.docs())) matches Ok(meta)
                        && meta.header.num_docs == self.docs().len() && strictly_increasing(
                        meta.trigrams,
                    )
                    &&& forall|query: Seq<u8>| #[trigger]
                        spec_candidates(index_file(self.docs()), query) == Ok::<
                            Seq<u32>,
                            IndexError,
                        >(answer(self.docs(), query))
                    &&& postings_in_order(index_file(self.docs()))
                    &&& stats.extract.num_docs == self.docs().len()
                    &&& stats.extract.doc_bytes == capped_total(self.docs())
                    &&& stats.extract.unique_trigrams == n
                    &&& stats.build.postings_min == min_stats(self.docs(), n)
                    &&& stats.build.postings_max == max_stats(self.docs(), n)
                    &&& stats.build.postings_sum == sum_stats(self.docs(), n)
                    &&& stats.build.posting_offsets_bytes == 11 * n
                },
                Err(e) => e == IndexError::TooLarge && !index_fits(self.docs()),
            },
    {
        let ghost docs = self.docs@;
        let ghost keys = index_keys(docs);
        let ghost before = w@;
        proof {
            self.lemma_postings();
        }
        let build_start = now();
        let start = w.len();
        let num_docs = self.num_docs;
        let doc_bytes = self.total_doc_bytes;
        let extract_time = self.extract_duration;
        let creation_time = self.creation_time;
        let (trigrams, ends, mut build_stats) = match write_postings(
            self.combined,
            w,
            Ghost(docs),
        ) {
            Ok(done) => done,
            Err(e) => {
                return Err(e);
            },
        };
        let extract_stats = ExtractStats {
            num_docs: num_docs as usize,
            doc_bytes,
            unique_trigrams: trigrams.len(),
            extract_time,
        };
        let postings_len = w.len() - start;
        let ghost n = keys.len();
        let ghost with_postings = w@;
        write_directory(&trigrams, w);
        let directory_len = w.len() - start - postings_len;
        let ghost with_directory = w@;
        write_ends(&ends, w, Ghost(docs));
        let ends_len = w.len() - start - postings_len - directory_len;
        let ghost body = w@;
        proof {
            lemma_directory_len(keys, n);
            lemma_ends_len(docs, n);
            assert(with_postings.len() == before.len() + postings_wire(docs, n).len());
            assert(with_directory.len() == with_postings.len() + 3 * n);
            assert(body.len() == with_directory.len() + 8 * n);
        }
        let header = IndexHeader {
            num_docs,
            trigram_postings: Section::new(0, postings_len as u64),
            unique_trigrams: Section::new(postings_len as u64, directory_len as u64),
            trigram_posting_ends: Section::new(
                (postings_len + directory_len) as u64,
                ends_len as u64,
            ),
        };
        header.write_to(w);
        proof {
            lemma_footer(docs, header);
            lemma_assembled(docs, before, with_postings, with_directory, body, w@);
        }
        let total = w.len() - start;
        proof {
            assert(index_file(docs).len() == total);
            lemma_built_index_opens(docs);
            lemma_built_postings_in_order(docs);
            assert forall|query: Seq<u8>| #[trigger]
                spec_candidates(index_file(docs), query) == Ok::<Seq<u32>, IndexError>(
                    answer(docs, query),
                ) by {
                lemma_built_index_answers(docs, query);
            }
        }
        build_stats.posting_offsets_bytes = directory_len + ends_len;
        build_stats.build_time = elapsed(&build_start);
        Ok(
            IndexStats {
                extract: extract_stats,
                build: build_stats,
                total_time: elapsed(&creation_time),
            },
        )
    }
}

/// Appends the postings to `w`, in the order of their trigrams, and returns the
/// trigrams, the offsets at which the postings end, counted from the old end
/// of `w`, and the statistics of the postings.
fn write_postings(
    combined: BTreeMap<u32, Vec<DocSuccessors>>,
    w: &mut Vec<u8>,
    Ghost(docs): Ghost<Seq<Seq<u8>>>,
) -> (r: Result<(Vec<u32>, Vec<u64>, BuildStats), IndexError>)
    requires
        postings_left(docs, combined@, 0),
    ensures
        match r {
            Ok((trigrams, ends, stats)) => {
                let n = index_keys(docs).len();
                &&& index_fits(docs)
                &&& streams_decode(docs)
                &&& final(w)@ == old(w)@ + postings_wire(docs, n)
                &&& trigrams@ == index_keys(docs)
                &&& ends@.len() == n
                &&& forall|t: int|
                    0 <= t < n ==> ends@[t] == postings_wire(docs, (t + 1) as nat).len()
                &&& stats.postings_min == min_stats(docs, n)
                &&& stats.postings_max == max_stats(docs, n)
                &&& stats.postings_sum == sum_stats(docs, n)
                &&& stats.posting_offsets_bytes == 0
            },
            Err(e) => e == IndexError::TooLarge && !index_fits(docs),
        },
{
    let ghost keys = index_keys(docs);
    let ghost before = w@;
    let mut combined = combined;
    let mut build_stats = BuildStats::default();
    let start = w.len();
    let mut trigrams: Vec<u32> = Vec::new();
    let mut ends: Vec<u64> = Vec::new();
    loop
        invariant
            keys == index_keys(docs),
            postings_left(docs, combined@, trigrams@.len() as int),
            trigrams@ == keys.subrange(0, trigrams@.len() as int),
            w@ == before + postings_wire(docs, trigrams@.len()),
            start == before.len(),
            ends@.len() == trigrams@.len(),
            forall|t: int|
                0 <= t < ends@.len() ==> ends@[t] == postings_wire(docs, (t + 1) as nat).len(),
            forall|t: int|
                0 <= t < trigrams@.len() ==> posting_fits(docs, #[trigger] keys[t])
                    && posting_decodes(docs, keys[t]),
            build_stats.postings_min == min_stats(docs, trigrams@.len()),
            build_stats.postings_max == max_stats(docs, trigrams@.len()),
            build_stats.postings_sum == sum_stats(docs, trigrams@.len()),
            build_stats.posting_offsets_bytes == 0,
        ensures
            trigrams@ == keys,
            w@ == before + postings_wire(docs, keys.len()),
            ends@.len() == keys.len(),
            forall|t: int|
                0 <= t < ends@.len() ==> ends@[t] == postings_wire(docs, (t + 1) as nat).len(),
            forall|t: int|
                0 <= t < keys.len() ==> posting_fits(docs, #[trigger] keys[t]) && posting_decodes(
                    docs,
                    keys[t],
                ),
            build_stats.postings_min == min_stats(docs, keys.len()),
            build_stats.postings_max == max_stats(docs, keys.len()),
            build_stats.postings_sum == sum_stats(docs, keys.len()),
            build_stats.posting_offsets_bytes == 0,
        decreases keys.len() - trigrams@.len(),
    {
        let ghost j = trigrams@.len() as int;
        let ghost left = combined@;
        let (k, rows) = match pop_least(&mut combined) {
            Some(least) => least,
            None => {
                proof {
                    lemma_no_posting_left(docs, left, j);
                    assert(keys.subrange(0, j) =~= keys);
                }
                break ;
            },
        };
        proof {
            lemma_next_posting(docs, left, combined@, j, k);
        }
        let p = PostingList { trigram: k, docs: rows };
        match build_posting(&p, w, Ghost(docs)) {
            Ok(stats) => {
                build_stats.add_posting(&stats);
            },
            Err(e) => {
                proof {
                    assert(!posting_fits(docs, keys[j]));
                    assert(!index_fits(docs));
                }
                return Err(e);
            },
        }
        trigrams.push(k);
        proof {
            assert(w@ =~= before + postings_wire(docs, (j + 1) as nat));
            assert(trigrams@ =~= keys.subrange(0, j + 1));
        }
        ends.push((w.len() - start) as u64);
    }
    proof {
        lemma_ascending_lists(key_set(docs));
        assert forall|k: u32| key_set(docs).contains(k) implies posting_fits(docs, k)
            && posting_decodes(docs, k) by {
            assert(keys.contains(k));
            let t = choose|t: int| 0 <= t < keys.len() && keys[t] == k;
            assert(posting_fits(docs, keys[t]));
        }
    }
    Ok((trigrams, ends, build_stats))
}

/// Appends the directory to `w`: the trigrams, in order, three bytes each.
fn write_directory(trigrams: &Vec<u32>, w: &mut Vec<u8>)
    ensures
        final(w)@ == old(w)@ + directory_wire(trigrams@, trigrams@.len()),
{
    let ghost before = w@;
    let n = trigrams.len();
    let mut j: usize = 0;
    while j < n
        invariant
            j <= n,
            n == trigrams@.len(),
            w@ == before + directory_wire(trigrams@, j as nat),
        decreases n - j,
    {
        let t = Trigram::from_id(trigrams[j]);
        let ghost prev = w@;
        w.push(t.0[0]);
        w.push(t.0[1]);
        w.push(t.0[2]);
        proof {
            assert(t.bytes() =~= seq![t.0[0], t.0[1], t.0[2]]);
            assert(w@ =~= prev + t.bytes());
            assert(w@ =~= before + directory_wire(trigrams@, (j + 1) as nat));
        }
        j += 1;
    }
}

/// The footer with the sizes of the three parts is the footer of the index.
proof fn lemma_footer(docs: Seq<Seq<u8>>, header: IndexHeader)
    requires
        header.num_docs == docs.len(),
        header.trigram_postings.offset == 0,
        header.trigram_postings.len == postings_wire(docs, index_keys(docs).len()).len(),
        header.unique_trigrams.offset == header.trigram_postings.len,
        header.unique_trigrams.len == 3 * index_keys(docs).len(),
        header.trigram_posting_ends.offset == header.trigram_postings.len
            + header.unique_trigrams.len,
        header.trigram_posting_ends.len == 8 * index_keys(docs).len(),
    ensures
        header == index_footer(docs),
{
}

/// The four parts, one after the other, are the index file.
proof fn lemma_assembled(
    docs: Seq<Seq<u8>>,
    before: Seq<u8>,
    with_postings: Seq<u8>,
    with_directory: Seq<u8>,
    body: Seq<u8>,
    all: Seq<u8>,
)
    requires
        with_postings == before + postings_wire(docs, index_keys(docs).len()),
        with_directory == with_postings + directory_wire(
            index_keys(docs),
            index_keys(docs).len(),
        ),
        body == with_directory + ends_wire(docs, index_keys(docs).len()),
        all == body + index_footer(docs).wire(),
    ensures
        all == before + index_file(docs),
        index_file(docs).len() == all.len() - before.len(),
{
    assert(all =~= before + index_file(docs));
}

/// Appends the table of ends to `w`.
fn write_ends(ends: &Vec<u64>, w: &mut Vec<u8>, Ghost(docs): Ghost<Seq<Seq<u8>>>)
    requires
        forall|t: int|
            0 <= t < ends@.len() ==> ends@[t] == postings_wire(docs, (t + 1) as nat).len(),
    ensures
        final(w)@ == old(w)@ + ends_wire(docs, ends@.len()),
{
    let ghost before = w@;
    let n = ends.len();
    let mut j: usize = 0;
    while j < n
        invariant
            j <= n,
            n == ends@.len(),
            forall|t: int| 0 <= t < n ==> ends@[t] == postings_wire(docs, (t + 1) as nat).len(),
            w@ == before + ends_wire(docs, j as nat),
        decreases n - j,
    {
        put_u64_le(w, ends[j]);
        proof {
            assert(w@ =~= before + ends_wire(docs, (j + 1) as nat));
        }
        j += 1;
    }
}

} // verus!
