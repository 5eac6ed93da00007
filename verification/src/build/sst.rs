//! The index as entries of a sorted table of keys and values: each stream of
//! each posting in blocks, each block under the key of its posting, its stream
//! and its number.

use vstd::prelude::*;
use vstd::slice::slice_subrange;

use crate::bitpack::{
    ascending_from, deltas, max_width, pack_sorted_block, packed_sorted, sorted_block_bits,
};
use crate::build::{
    doc_ids, IndexBuilder, lemma_next_posting, lemma_no_posting_left, PostingList,
    postings_left,
};
use crate::build::extract::{pop_least, strictly_increasing};
use crate::build::posting::{
    build_successors, build_unique_docs, build_unique_successors, lemma_increasing_ascends,
    lemma_rows_within, lemma_streams, lemma_unique_is, };
use crate::build::serialize::{delta_encoding, delta_varints};
use crate::db::key::{DBKey, IndexKey, PartitionKey, TrigramPostingKey};
use crate::error::IndexError;
use crate::ioutil::stream::StreamWrite;
use crate::layout::{
    doc_set, index_keys, key_set, lemma_ascending_is, lemma_ascending_lists, lemma_increasing_bound,
    posting_docs, posting_matrix, posting_successors,
};
use crate::trigram::Trigram;
use crate::varint::encode_varint;

verus! {

/// The sorted encoding of `vals` from `last` on, in chunks: one for each full
/// block of 128, and one for the tail, which may be empty.
pub open spec fn chunks(vals: Seq<u32>, last: u32) -> Seq<Seq<u8>>
    decreases vals.len(),
{
    if vals.len() >= 128 {
        let block = vals.subrange(0, 128);
        let bits = max_width(deltas(last, block)) as u8;
        seq![seq![bits] + packed_sorted(last, block, bits)] + chunks(vals.skip(128), block[127])
    } else {
        seq![delta_varints(vals, last)]
    }
}

/// The chunks, one after the other.
pub open spec fn joined(parts: Seq<Seq<u8>>) -> Seq<u8>
    decreases parts.len(),
{
    if parts.len() == 0 {
        Seq::empty()
    } else {
        parts[0] + joined(parts.skip(1))
    }
}

/// The chunks of a sequence, one after the other, are its sorted encoding.
pub proof fn lemma_chunks_join(vals: Seq<u32>, last: u32)
    ensures
        joined(chunks(vals, last)) == delta_encoding(vals, last),
        chunks(vals, last).len() == vals.len() / 128 + 1,
    decreases vals.len(),
{
    let cs = chunks(vals, last);
    if vals.len() >= 128 {
        let block = vals.subrange(0, 128);
        lemma_chunks_join(vals.skip(128), block[127]);
        assert(cs.skip(1) =~= chunks(vals.skip(128), block[127]));
        assert(joined(cs) =~= delta_encoding(vals, last));
    } else {
        assert(cs.skip(1) =~= Seq::<Seq<u8>>::empty());
        assert(joined(cs.skip(1)) =~= Seq::<u8>::empty());
        assert(cs[0] == delta_varints(vals, last));
        assert(joined(cs) =~= delta_encoding(vals, last));
    }
}

/// The sorted encoding of `list`, which must never decrease, in chunks.
pub fn write_compressed_u32s(list: &[u32]) -> (res: Vec<Vec<u8>>)
    requires
        ascending_from(0, list@),
    ensures
        res@.len() == chunks(list@, 0).len(),
        forall|i: int| 0 <= i < res@.len() ==> (#[trigger] res@[i])@ == chunks(list@, 0)[i],
{
    let total = list.len();
    let mut res: Vec<Vec<u8>> = Vec::new();
    let mut i: usize = 0;
    let mut last: u32 = 0;
    let ghost all = chunks(list@, 0);
    proof {
        assert(list@.skip(0) =~= list@);
    }
    while total - i >= 128
        invariant
            i <= total,
            total == list@.len(),
            all == chunks(list@, 0),
            ascending_from(0, list@),
            ascending_from(last, list@.skip(i as int)),
            res@.len() + chunks(list@.skip(i as int), last).len() == all.len(),
            forall|j: int| 0 <= j < res@.len() ==> (#[trigger] res@[j])@ == all[j],
            forall|j: int|
                0 <= j < chunks(list@.skip(i as int), last).len() ==> chunks(
                    list@.skip(i as int),
                    last,
                )[j] == all[res@.len() + j],
        decreases total - i,
    {
        let block = slice_subrange(list, i, i + 128);
        let ghost rest = list@.skip(i as int);
        proof {
            assert(block@ =~= rest.subrange(0, 128));
            assert(ascending_from(last, block@)) by {
                assert(block@[0] == rest[0]);
                assert forall|a: int, b: int| 0 <= a <= b < block@.len() implies block@[a]
                    <= block@[b] by {
                    assert(block@[a] == rest[a] && block@[b] == rest[b]);
                }
            }
        }
        let bits = sorted_block_bits(last, block);
        let body = pack_sorted_block(last, block, bits);
        let mut chunk: Vec<u8> = Vec::new();
        chunk.push(bits);
        chunk.extend_from_slice(body.as_slice());
        let next = list[i + 127];
        proof {
            let after = list@.skip(i + 128);
            let old_tail = chunks(rest, last);
            let new_tail = chunks(after, next);
            assert(rest.skip(128) =~= after);
            assert(block@[127] == next);
            assert(chunk@ =~= seq![bits] + body@);
            assert(old_tail == seq![chunk@] + new_tail);
            assert(old_tail[0] == chunk@);
            assert forall|j: int| 0 <= j < new_tail.len() implies new_tail[j] == all[res@.len()
                + 1 + j] by {
                assert(old_tail[j + 1] == new_tail[j]);
            }
            assert(ascending_from(next, after)) by {
                assert forall|a: int, b: int| 0 <= a <= b < after.len() implies after[a]
                    <= after[b] by {
                    assert(after[a] == list@[a + i + 128] && after[b] == list@[b + i + 128]);
                }
                if after.len() > 0 {
                    assert(after[0] == list@[i + 128]);
                }
            }
        }
        res.push(chunk);
        last = next;
        i += 128;
    }
    let mut tail: Vec<u8> = Vec::new();
    let ghost tail_last = last;
    let ghost tail_start = i;
    while i < total
        invariant
            tail_start <= i <= total,
            total == list@.len(),
            total - tail_start < 128,
            ascending_from(last, list@.skip(i as int)),
            delta_varints(list@.skip(tail_start as int), tail_last) == tail@ + delta_varints(
                list@.skip(i as int),
                last,
            ),
        decreases total - i,
    {
        let v = list[i];
        proof {
            assert(list@.skip(i as int)[0] == v);
        }
        let enc = encode_varint(v - last);
        let ghost prev = tail@;
        tail.extend_from_slice(enc.as_slice());
        proof {
            let rest = list@.skip(i as int);
            let after = list@.skip(i + 1);
            assert(rest.skip(1) =~= after);
            assert(prev + delta_varints(rest, last) =~= tail@ + delta_varints(after, v));
            assert(ascending_from(v, after)) by {
                assert forall|a: int, b: int| 0 <= a <= b < after.len() implies after[a]
                    <= after[b] by {
                    assert(after[a] == rest[a + 1] && after[b] == rest[b + 1]);
                }
                if after.len() > 0 {
                    assert(after[0] == rest[1]);
                }
            }
        }
        last = v;
        i += 1;
    }
    proof {
        assert(list@.skip(total as int) =~= Seq::empty());
        assert(tail@ =~= delta_varints(list@.skip(tail_start as int), tail_last));
        assert(chunks(list@.skip(tail_start as int), tail_last)[0] == tail@);
    }
    res.push(tail);
    res
}

/// One entry of the table.
#[derive(Debug, Clone)]
pub struct SstEntry {
    pub key: Vec<u8>,
    pub value: Vec<u8>,
}

/// The part of a posting that holds the block `block` of the stream `stream`:
/// 3 for the unique successors, 4 for the matrix, 5 for the documents.
pub open spec fn block_part(stream: u8, block: u32) -> TrigramPostingKey {
    if stream == 3 {
        TrigramPostingKey::SuccessorsBlock(block)
    } else if stream == 4 {
        TrigramPostingKey::MatrixBlock(block)
    } else {
        TrigramPostingKey::DocsBlock(block)
    }
}

/// The key of the block `block` of the stream `stream` of the posting of `k`, in
/// the partition 0.
pub open spec fn block_key(k: u32, stream: u8, block: u32) -> Seq<u8> {
    DBKey::Partition(
        0,
        PartitionKey::Index(
            IndexKey::TrigramPosting(Trigram::spec_from_id(k).0, block_part(stream, block)),
        ),
    ).encoding()
}

/// The entries of one stream of the posting of `k`.
pub open spec fn stream_entries(k: u32, stream: u8, vals: Seq<u32>) -> Seq<(Seq<u8>, Seq<u8>)> {
    Seq::new(
        chunks(vals, 0).len(),
        |i: int| (block_key(k, stream, i as u32), chunks(vals, 0)[i]),
    )
}

/// The entries of the posting of `k`: its unique successors, its matrix, its documents.
pub open spec fn posting_entries(docs: Seq<Seq<u8>>, k: u32) -> Seq<(Seq<u8>, Seq<u8>)> {
    stream_entries(k, 3, posting_successors(docs, k)) + stream_entries(
        k,
        4,
        posting_matrix(docs, k),
    ) + stream_entries(k, 5, posting_docs(docs, k))
}

/// The entries of the first `upto` postings.
pub open spec fn index_entries(docs: Seq<Seq<u8>>, upto: nat) -> Seq<(Seq<u8>, Seq<u8>)>
    decreases upto,
{
    if upto == 0 {
        Seq::empty()
    } else {
        index_entries(docs, (upto - 1) as nat) + posting_entries(
            docs,
            index_keys(docs)[upto - 1],
        )
    }
}

/// Whether every pair of a row and a column of every matrix is one 32-bit number.
pub open spec fn entries_fit(docs: Seq<Seq<u8>>) -> bool {
    forall|k: u32|
        key_set(docs).contains(k) ==> posting_successors(docs, k).len() * posting_docs(
            docs,
            k,
        ).len() <= 0x1_0000_0000
}

/// The entries as pairs of sequences.
pub open spec fn entries_view(entries: Seq<SstEntry>) -> Seq<(Seq<u8>, Seq<u8>)> {
    Seq::new(entries.len(), |i: int| (entries[i].key@, entries[i].value@))
}

/// Appends the entries of one stream of the posting of `k` to `out`.
fn push_stream(
    out: &mut Vec<SstEntry>,
    trigram: [u8; 3],
    stream: u8,
    vals: &Vec<u32>,
    Ghost(k): Ghost<u32>,
)
    requires
        strictly_increasing(vals@),
        3 <= stream <= 5,
        trigram == Trigram::spec_from_id(k).0,
    ensures
        entries_view(final(out)@) == entries_view(old(out)@) + stream_entries(k, stream, vals@),
{
    proof {
        lemma_increasing_ascends(vals@);
        if vals@.len() > 0 {
            lemma_increasing_bound(vals@, vals@.len() - 1);
        }
        lemma_chunks_join(vals@, 0);
    }
    let blocks = write_compressed_u32s(vals.as_slice());
    let ghost before = entries_view(out@);
    let ghost want = stream_entries(k, stream, vals@);
    let n = blocks.len();
    let mut i: usize = 0;
    let ghost all = blocks@;
    while i < n
        invariant
            i <= n,
            n == all.len(),
            n == want.len(),
            n <= 0x200_0001,
            3 <= stream <= 5,
            trigram == Trigram::spec_from_id(k).0,
            blocks@ == all,
            want == stream_entries(k, stream, vals@),
            forall|j: int| 0 <= j < n ==> (#[trigger] all[j])@ == chunks(vals@, 0)[j],
            entries_view(out@) == before + want.subrange(0, i as int),
        decreases n - i,
    {
        let block = i as u32;
        let part = if stream == 3 {
            TrigramPostingKey::SuccessorsBlock(block)
        } else if stream == 4 {
            TrigramPostingKey::MatrixBlock(block)
        } else {
            TrigramPostingKey::DocsBlock(block)
        };
        let key = DBKey::Partition(0, PartitionKey::Index(IndexKey::TrigramPosting(trigram, part)));
        let value = blocks[i].clone();
        let ghost prev = out@;
        let entry = SstEntry { key: key.to_vec(), value };
        proof {
            assert(entry.value@ == all[i as int]@);
            assert(entry.key@ == block_key(k, stream, block));
            assert(want[i as int] == (entry.key@, entry.value@));
        }
        out.push(entry);
        proof {
            assert(key.encoding() == block_key(k, stream, block));
            assert(entries_view(out@) =~= entries_view(prev).push(want[i as int]));
            assert(want.subrange(0, i + 1) =~= want.subrange(0, i as int).push(want[i as int]));
        }
        i += 1;
    }
    proof {
        assert(want.subrange(0, n as int) =~= want);
    }
}

impl IndexBuilder {
    /// The index as the entries of a sorted table, in the order of their keys.
    /// Fails where a matrix has a pair of a row and a column without a 32-bit number.
    pub fn build_sst(self) -> (r: Result<Vec<SstEntry>, IndexError>)
        requires
            self.wf(),
        ensures
            match r {
                Ok(entries) => entries_fit(self.docs()) && entries_view(entries@) == index_entries(
                    self.docs(),
                    index_keys(self.docs()).len(),
                ),
                Err(e) => e == IndexError::TooLarge && !entries_fit(self.docs()),
            },
    {
        let ghost docs = self.docs();
        let ghost keys = index_keys(docs);
        proof {
            self.lemma_postings();
        }
        let mut combined = self.combined;
        let mut out: Vec<SstEntry> = Vec::new();
        let ghost mut done: int = 0;
        loop
            invariant
                docs == self.docs(),
                keys == index_keys(docs),
                postings_left(docs, combined@, done),
                entries_view(out@) == index_entries(docs, done as nat),
                forall|t: int|
                    0 <= t < done ==> posting_successors(docs, #[trigger] keys[t]).len()
                        * posting_docs(docs, keys[t]).len() <= 0x1_0000_0000,
            ensures
                docs == self.docs(),
                entries_view(out@) == index_entries(docs, keys.len()),
                forall|t: int|
                    0 <= t < keys.len() ==> posting_successors(docs, #[trigger] keys[t]).len()
                        * posting_docs(docs, keys[t]).len() <= 0x1_0000_0000,
            decreases keys.len() - done,
        {
            let ghost left = combined@;
            let (k, rows) = match pop_least(&mut combined) {
                Some(least) => least,
                None => {
                    proof {
                        lemma_no_posting_left(docs, left, done);
                    }
                    break ;
                },
            };
            proof {
                lemma_next_posting(docs, left, combined@, done, k);
            }
            let p = PostingList { trigram: k, docs: rows };
            let unique = build_unique_successors(&p.docs);
            let ids = build_unique_docs(&p.docs);
            proof {
                assert(ids@ =~= doc_ids(p));
                lemma_ascending_is(ids@, doc_set(docs, k));
                lemma_unique_is(docs, p, unique@);
                lemma_rows_within(p, unique@);
            }
            let matrix = match build_successors(&unique, &p.docs) {
                Some(m) => m,
                None => {
                    proof {
                        assert(key_set(docs).contains(k));
                        assert(!entries_fit(docs));
                    }
                    return Err(IndexError::TooLarge);
                },
            };
            proof {
                lemma_streams(docs, p, unique@, matrix@, ids@);
            }
            let trigram = Trigram::from_id(p.trigram).0;
            push_stream(&mut out, trigram, 3, &unique, Ghost(k));
            push_stream(&mut out, trigram, 4, &matrix, Ghost(k));
            push_stream(&mut out, trigram, 5, &ids, Ghost(k));
            proof {
                assert(entries_view(out@) =~= index_entries(docs, (done + 1) as nat));
                done = done + 1;
            }
        }
        proof {
            lemma_ascending_lists(key_set(docs));
            assert forall|k: u32| key_set(docs).contains(k) implies posting_successors(
                docs,
                k,
            ).len() * posting_docs(docs, k).len() <= 0x1_0000_0000 by {
                assert(keys.contains(k));
                let t = choose|t: int| 0 <= t < keys.len() && keys[t] == k;
                assert(posting_successors(docs, keys[t]).len() * posting_docs(docs, keys[t]).len()
                    <= 0x1_0000_0000);
            }
        }
        Ok(out)
    }
}

} // verus!
