use trident::build::posting::{build_successors, build_unique_docs, build_unique_successors};
use trident::build::sst::SstEntry;
use trident::build::{DocSuccessors, IndexBuilder};
use trident::db::{DBKey, IndexKey, PartitionKey, TrigramPostingKey};
use trident::index::query::{find_prefix_range, find_rows, find_successor, DocIDMapper};
use trident::index::stats::{BuildStats, SequenceStats, TrigramPostingStats};
use trident::ioutil::stream::StreamWrite;
use trident::IndexError;

fn rows(data: &[(u32, &[u32])]) -> Vec<DocSuccessors> {
    data.iter().map(|(doc, s)| DocSuccessors { doc: *doc, successors: s.to_vec() }).collect()
}

#[test]
fn streams_of_a_posting() {
    let posting = rows(&[(3, &[10, 30]), (5, &[]), (8, &[20, 30])]);
    let unique = build_unique_successors(&posting);
    assert_eq!(unique, vec![10, 20, 30]);
    assert_eq!(build_unique_docs(&posting), vec![3, 5, 8]);
    // Row 0 has the columns 0 and 2, row 2 the columns 1 and 2.
    assert_eq!(build_successors(&unique, &posting), Some(vec![0, 2, 7, 8]));

    assert_eq!(build_unique_successors(&rows(&[])), Vec::<u32>::new());
    assert_eq!(build_successors(&vec![], &rows(&[(0, &[])])), Some(vec![]));
    assert_eq!(build_successors(&vec![1, 2], &rows(&[])), Some(vec![]));
}

#[test]
fn matrix_needs_a_32_bit_number_for_every_pair() {
    let unique: Vec<u32> = (0..65536).collect();
    let fits = vec![DocSuccessors { doc: 0, successors: vec![] }; 65536];
    assert_eq!(build_successors(&unique, &fits), Some(vec![]));
    let mut last = fits.clone();
    last[65535].successors = vec![65535];
    assert_eq!(build_successors(&unique, &last), Some(vec![u32::MAX]));
    let too_many = vec![DocSuccessors { doc: 0, successors: vec![] }; 65537];
    assert_eq!(build_successors(&unique, &too_many), None);
}

#[test]
fn index_that_does_not_fit_is_too_large() {
    // "abc" is in 65537 documents and has 65537 successors.
    let alphabet: Vec<u8> = (b'd'..b'd' + 41).collect();
    let mut builder = IndexBuilder::new();
    let mut added = 0;
    'outer: for &x in &alphabet {
        for &y in &alphabet {
            for &z in &alphabet {
                builder.add_doc(&[b'a', b'b', b'c', x, y, z]).unwrap();
                added += 1;
                if added == 65537 {
                    break 'outer;
                }
            }
        }
    }
    assert_eq!(builder.num_docs(), 65537);
    let mut output = Vec::new();
    assert_eq!(builder.build(&mut output).err(), Some(IndexError::TooLarge));
}

#[test]
fn range_of_the_successors_with_a_prefix() {
    let unique = vec![0x610000, 0x616200, 0x616263, 0x6162FF, 0x616300, 0x620000];
    assert_eq!(find_prefix_range(&unique, 65536, 0x61), (0, 5));
    assert_eq!(find_prefix_range(&unique, 65536, 0x62), (5, 6));
    assert_eq!(find_prefix_range(&unique, 65536, 0x60), (0, 0));
    assert_eq!(find_prefix_range(&unique, 65536, 0x63), (6, 6));
    assert_eq!(find_prefix_range(&unique, 256, 0x6162), (1, 4));
    assert_eq!(find_prefix_range(&unique, 256, 0x6163), (4, 5));
    assert_eq!(find_prefix_range(&unique, 256, 0x6161), (1, 1));
    assert_eq!(find_prefix_range(&vec![], 256, 0), (0, 0));
}

#[test]
fn column_of_a_successor() {
    let unique = vec![5, 7, 9];
    assert_eq!(find_successor(&unique, 5), Some(0));
    assert_eq!(find_successor(&unique, 9), Some(2));
    assert_eq!(find_successor(&unique, 6), None);
    assert_eq!(find_successor(&vec![], 6), None);
    assert_eq!(find_successor(&vec![4, 4], 4), Some(0));
}

#[test]
fn rows_of_the_matrix_with_a_column_in_a_range() {
    // Three columns: the values 0, 2, 7, 8 are the pairs (0, 0), (0, 2), (2, 1), (2, 2).
    let matrix = vec![0, 2, 7, 8];
    assert_eq!(find_rows(&matrix, 3, 0, 3), vec![0, 0, 2, 2]);
    assert_eq!(find_rows(&matrix, 3, 2, 3), vec![0, 2]);
    assert_eq!(find_rows(&matrix, 3, 1, 2), vec![2]);
    assert_eq!(find_rows(&matrix, 3, 1, 1), Vec::<u32>::new());
}

#[test]
fn mapper_hands_out_the_documents_at_the_rows() {
    let docs = vec![10, 20, 30, 40];
    assert_eq!(DocIDMapper::new(docs.clone(), vec![0, 2, 3]).collect(), vec![10, 30, 40]);
    assert_eq!(DocIDMapper::new(docs.clone(), vec![]).collect(), Vec::<u32>::new());
    // The answer ends at a row that does not go on upwards, or is no row.
    assert_eq!(DocIDMapper::new(docs.clone(), vec![1, 1, 2]).collect(), vec![20]);
    assert_eq!(DocIDMapper::new(docs.clone(), vec![2, 1, 3]).collect(), vec![30]);
    assert_eq!(DocIDMapper::new(docs.clone(), vec![1, 4, 2]).collect(), vec![20]);

    let mut mapper = DocIDMapper::new(docs, vec![1, 3]);
    assert_eq!(mapper.next(), Some(20));
    assert_eq!(mapper.next(), Some(40));
    assert_eq!(mapper.next(), None);
    assert_eq!(mapper.next(), None);
}

#[test]
fn sequence_statistics() {
    let a = SequenceStats { len: 3, bytes: 40 };
    let b = SequenceStats { len: 5, bytes: 20 };
    assert_eq!(a.max(&b), SequenceStats { len: 5, bytes: 40 });
    assert_eq!(a.min(&b), SequenceStats { len: 3, bytes: 20 });
    assert_eq!(a.sum(&b), SequenceStats { len: 8, bytes: 60 });
    assert_eq!(SequenceStats::new_max(), SequenceStats { len: usize::MAX, bytes: usize::MAX });
    assert_eq!(SequenceStats::new_max().min(&a), a);
    assert_eq!(SequenceStats::default().max(&a), a);
    assert_eq!(SequenceStats::new_max().sum(&a), SequenceStats::new_max());
}

fn posting_stats(n: usize) -> TrigramPostingStats {
    TrigramPostingStats {
        header_bytes: 27,
        unique_successors: SequenceStats { len: n, bytes: 2 * n },
        run_lengths: SequenceStats { len: 0, bytes: 0 },
        successors: SequenceStats { len: 3 * n, bytes: 4 * n },
        unique_docs: SequenceStats { len: 5 * n, bytes: 6 * n },
    }
}

#[test]
fn posting_statistics() {
    let a = posting_stats(1);
    let b = posting_stats(10);
    assert_eq!(a.total_bytes(), 27 + 2 + 4 + 6);
    assert_eq!(b.total_bytes(), 27 + 20 + 40 + 60);
    assert_eq!(a.max(&b), b);
    assert_eq!(a.min(&b), a);
    let sum = a.sum(&b);
    assert_eq!(sum.header_bytes, 54);
    assert_eq!(sum.unique_successors, SequenceStats { len: 11, bytes: 22 });
    assert_eq!(sum.successors, SequenceStats { len: 33, bytes: 44 });
    assert_eq!(sum.unique_docs, SequenceStats { len: 55, bytes: 66 });
    assert_eq!(TrigramPostingStats::new_max().min(&a), a);
    assert_eq!(TrigramPostingStats::default().max(&a), a);
    assert_eq!(TrigramPostingStats::new_max().total_bytes(), usize::MAX);
    assert_eq!(TrigramPostingStats::default().total_bytes(), 0);
}

#[test]
fn build_statistics() {
    let mut stats = BuildStats::default();
    assert_eq!(stats.postings_min, TrigramPostingStats::new_max());
    assert_eq!(stats.postings_max, TrigramPostingStats::default());
    assert_eq!(stats.total_size_bytes(), 0);
    stats.add_posting(&posting_stats(10));
    stats.add_posting(&posting_stats(1));
    stats.add_posting(&posting_stats(5));
    assert_eq!(stats.postings_min, posting_stats(1));
    assert_eq!(stats.postings_max, posting_stats(10));
    assert_eq!(stats.postings_sum.header_bytes, 81);
    assert_eq!(stats.postings_sum.unique_successors, SequenceStats { len: 16, bytes: 32 });
    stats.posting_offsets_bytes = 33;
    assert_eq!(stats.total_size_bytes(), 81 + 32 + 64 + 96 + 33);
}

fn block_key(trigram: &[u8; 3], part: TrigramPostingKey) -> Vec<u8> {
    DBKey::Partition(0, PartitionKey::Index(IndexKey::TrigramPosting(*trigram, part))).to_vec()
}

#[test]
fn table_entries_of_a_small_index() {
    let mut builder = IndexBuilder::new();
    builder.add_doc(b"abc").unwrap();
    let entries = builder.build_sst().unwrap();
    let pairs: Vec<(Vec<u8>, Vec<u8>)> =
        entries.iter().map(|e: &SstEntry| (e.key.clone(), e.value.clone())).collect();
    let mut expected = vec![
        (block_key(b"abc", TrigramPostingKey::SuccessorsBlock(0)), vec![0xFF, 0xFF, 0xFF, 0x07]),
        (block_key(b"abc", TrigramPostingKey::MatrixBlock(0)), vec![0x00]),
        (block_key(b"abc", TrigramPostingKey::DocsBlock(0)), vec![0x00]),
    ];
    for key in [[b'b', b'c', 0xFF], [b'c', 0xFF, 0xFF], [0xFF, 0xFF, 0xFF]] {
        expected.push((block_key(&key, TrigramPostingKey::SuccessorsBlock(0)), vec![]));
        expected.push((block_key(&key, TrigramPostingKey::MatrixBlock(0)), vec![]));
        expected.push((block_key(&key, TrigramPostingKey::DocsBlock(0)), vec![0x00]));
    }
    assert_eq!(pairs, expected);
    let keys: Vec<Vec<u8>> = pairs.iter().map(|p| p.0.clone()).collect();
    let mut sorted = keys.clone();
    sorted.sort();
    assert_eq!(keys, sorted);
}

#[test]
fn table_entries_have_a_block_for_every_128_values() {
    let mut builder = IndexBuilder::new();
    for _ in 0..300 {
        builder.add_doc(b"abc").unwrap();
    }
    let entries = builder.build_sst().unwrap();
    let docs: Vec<&SstEntry> = entries
        .iter()
        .filter(|e| e.key.starts_with(&[0, 0, 0, 0, 0, b'a', b'b', b'c', 5]))
        .collect();
    assert_eq!(docs.len(), 3);
    assert_eq!(docs[0].key, block_key(b"abc", TrigramPostingKey::DocsBlock(0)));
    assert_eq!(docs[1].key, block_key(b"abc", TrigramPostingKey::DocsBlock(1)));
    assert_eq!(docs[2].key, block_key(b"abc", TrigramPostingKey::DocsBlock(2)));
    assert_eq!(docs[0].value.len(), 17);
    assert_eq!(docs[1].value.len(), 17);
    assert_eq!(docs[2].value, vec![1u8; 44]);
}
