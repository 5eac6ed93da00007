use trident::build::serialize::StreamWriter;
use trident::build::IndexBuilder;
use trident::index::{Index, IndexHeader, PostingHeader};
use trident::ioutil::{Mem, Section};
use trident::{IndexError, Trigram};

fn built(docs: &[&[u8]]) -> Vec<u8> {
    let mut builder = IndexBuilder::new();
    for doc in docs {
        builder.add_doc(doc).unwrap();
    }
    let mut output = Vec::new();
    builder.build(&mut output).unwrap();
    output
}

fn le32(v: u32) -> [u8; 4] {
    v.to_le_bytes()
}

fn le64(v: u64) -> [u8; 8] {
    v.to_le_bytes()
}

#[test]
fn index_of_one_small_document_byte_for_byte() {
    let mut expected: Vec<u8> = Vec::new();
    // The posting of "abc": followed by the all-sentinel trigram in document 0.
    expected.extend_from_slice(b"abc");
    for field in [1u32, 4, 1, 1, 1, 1] {
        expected.extend_from_slice(&le32(field));
    }
    expected.extend_from_slice(&[0xFF, 0xFF, 0xFF, 0x07, 0x00, 0x00]);
    // The postings of the three padded keys: no successors, document 0.
    for key in [[b'b', b'c', 0xFF], [b'c', 0xFF, 0xFF], [0xFF, 0xFF, 0xFF]] {
        expected.extend_from_slice(&key);
        for field in [0u32, 0, 0, 0, 1, 1] {
            expected.extend_from_slice(&le32(field));
        }
        expected.push(0x00);
    }
    assert_eq!(expected.len(), 117);
    // The directory.
    expected.extend_from_slice(b"abc");
    expected.extend_from_slice(&[b'b', b'c', 0xFF, b'c', 0xFF, 0xFF, 0xFF, 0xFF, 0xFF]);
    // The table of ends.
    for end in [33u64, 61, 89, 117] {
        expected.extend_from_slice(&le64(end));
    }
    // The footer.
    expected.extend_from_slice(&le32(1));
    for field in [0u64, 117, 117, 12, 129, 32] {
        expected.extend_from_slice(&le64(field));
    }
    assert_eq!(expected.len(), 213);
    assert_eq!(built(&[b"abc"]), expected);
}

#[test]
fn index_without_documents_is_a_footer() {
    let mut expected = Vec::new();
    expected.extend_from_slice(&le32(0));
    for _ in 0..6 {
        expected.extend_from_slice(&le64(0));
    }
    assert_eq!(built(&[]), expected);
    let index = Index::new(Mem(expected)).unwrap();
    assert_eq!(index.num_docs(), 0);
    assert_eq!(index.candidates(b"abc"), Ok(vec![]));
    assert_eq!(index.candidates(b"a"), Ok(vec![]));
}

#[test]
fn build_appends_to_what_the_sink_holds() {
    let mut builder = IndexBuilder::new();
    builder.add_doc(b"abc").unwrap();
    let mut sink = vec![1, 2, 3];
    builder.build(&mut sink).unwrap();
    assert_eq!(&sink[..3], &[1, 2, 3]);
    assert_eq!(&sink[3..], &built(&[b"abc"])[..]);
}

#[test]
fn build_then_open() {
    let docs: Vec<&[u8]> = vec![b"test string 1", b"test string 2", b"abracadabra", b"", b"x"];
    let index = Index::new(Mem(built(&docs))).unwrap();
    assert_eq!(index.num_docs(), 5);
    assert_eq!(index.header().num_docs, 5);
    let directory = index.unique_trigrams();
    assert!(!directory.is_empty());
    for pair in directory.windows(2) {
        assert!(pair[0] < pair[1]);
        assert!(pair[0].id() < pair[1].id());
    }
    assert_eq!(index.header().unique_trigrams.len, 3 * directory.len() as u64);
    assert_eq!(index.header().trigram_posting_ends.len, 8 * directory.len() as u64);
    assert_eq!(index.header().trigram_postings.offset, 0);
    assert_eq!(index.header().unique_trigrams.offset, index.header().trigram_postings.len);
}

#[test]
fn statistics_count_what_was_written() {
    let mut builder = IndexBuilder::new();
    builder.add_doc(b"abc").unwrap();
    assert_eq!(builder.num_docs(), 1);
    let mut output = Vec::new();
    let stats = builder.build(&mut output).unwrap();
    assert_eq!(stats.extract.num_docs, 1);
    assert_eq!(stats.extract.doc_bytes, 3);
    assert_eq!(stats.extract.unique_trigrams, 4);
    assert_eq!(stats.build.posting_offsets_bytes, 44);
    assert_eq!(stats.build.postings_sum.header_bytes, 4 * 27);
    assert_eq!(stats.build.postings_sum.total_bytes(), 117);
    assert_eq!(stats.build.total_size_bytes(), 161);
    assert_eq!(stats.build.total_size_bytes() + 52, output.len());
    assert_eq!(stats.build.postings_max.unique_successors.len, 1);
    assert_eq!(stats.build.postings_max.unique_successors.bytes, 4);
    assert_eq!(stats.build.postings_min.unique_successors.len, 0);
    assert_eq!(stats.build.postings_min.unique_docs.bytes, 1);
    assert_eq!(stats.build.postings_sum.unique_docs.len, 4);
    assert_eq!(stats.build.postings_sum.successors.len, 1);
    assert_eq!(stats.build.postings_sum.run_lengths.bytes, 0);
}

#[test]
fn footer_is_52_bytes() {
    let header = IndexHeader {
        num_docs: 0x01020304,
        trigram_postings: Section::new(1, 2),
        unique_trigrams: Section::new(3, 6),
        trigram_posting_ends: Section::new(9, 16),
    };
    let mut w = Vec::new();
    assert_eq!(header.write_to(&mut w), 52);
    let mut expected = vec![4u8, 3, 2, 1];
    for field in [1u64, 2, 3, 6, 9, 16] {
        expected.extend_from_slice(&le64(field));
    }
    assert_eq!(w, expected);
    let read = IndexHeader::read_from(&w).unwrap();
    assert_eq!(read.num_docs, 0x01020304);
    assert_eq!((read.trigram_postings.offset, read.trigram_postings.len), (1, 2));
    assert_eq!((read.unique_trigrams.offset, read.unique_trigrams.len), (3, 6));
    assert_eq!((read.trigram_posting_ends.offset, read.trigram_posting_ends.len), (9, 16));
}

#[test]
fn section_is_sixteen_bytes() {
    let mut w = Vec::new();
    assert_eq!(Section::<()>::new(0x0102, 0x0304).write_to(&mut w), 16);
    assert_eq!(w, vec![2, 1, 0, 0, 0, 0, 0, 0, 4, 3, 0, 0, 0, 0, 0, 0]);
}

#[test]
fn footer_with_inconsistent_sizes_is_refused() {
    let footer = |directory: u64, table: u64| {
        let mut w = Vec::new();
        IndexHeader {
            num_docs: 0,
            trigram_postings: Section::new(0, 0),
            unique_trigrams: Section::new(0, directory),
            trigram_posting_ends: Section::new(0, table),
        }
        .write_to(&mut w);
        w
    };
    assert!(IndexHeader::read_from(&footer(3, 8)).is_ok());
    assert_eq!(IndexHeader::read_from(&footer(4, 8)).err(), Some(IndexError::CorruptHeader));
    assert_eq!(IndexHeader::read_from(&footer(3, 4)).err(), Some(IndexError::CorruptHeader));
    assert_eq!(IndexHeader::read_from(&footer(6, 8)).err(), Some(IndexError::CorruptHeader));
    assert_eq!(IndexHeader::read_from(&footer(3, 16)).err(), Some(IndexError::CorruptHeader));
    assert_eq!(IndexHeader::read_from(&[0u8; 51]).err(), Some(IndexError::OpenTooShort));
}

#[test]
fn posting_header_is_27_bytes() {
    let header = PostingHeader {
        trigram: Trigram::from(*b"abc"),
        successors_count: 1,
        successors_bytes: 2,
        matrix_count: 3,
        matrix_bytes: 4,
        docs_count: 5,
        docs_bytes: 0x01020304,
    };
    let mut w = Vec::new();
    assert_eq!(header.write_to(&mut w), 27);
    let mut expected = b"abc".to_vec();
    for field in [1u32, 2, 3, 4, 5, 0x01020304] {
        expected.extend_from_slice(&le32(field));
    }
    assert_eq!(w, expected);
    let read = PostingHeader::read_from(&w).unwrap();
    assert_eq!(read.trigram, Trigram::from(*b"abc"));
    assert_eq!(read.successors_count, 1);
    assert_eq!(read.successors_bytes, 2);
    assert_eq!(read.matrix_count, 3);
    assert_eq!(read.matrix_bytes, 4);
    assert_eq!(read.docs_count, 5);
    assert_eq!(read.docs_bytes, 0x01020304);
    assert_eq!(PostingHeader::read_from(&w[..26]).err(), Some(IndexError::CorruptStream));

    assert_eq!((read.successors_section().offset, read.successors_section().len), (27, 2));
    assert_eq!((read.matrix_section().offset, read.matrix_section().len), (29, 4));
    assert_eq!((read.docs_section().offset, read.docs_section().len), (33, 0x01020304));

    let empty = PostingHeader::default();
    assert_eq!(empty.trigram.id(), 0);
    assert_eq!(empty.docs_count, 0);
}

#[test]
fn file_shorter_than_the_footer_does_not_open() {
    assert_eq!(Index::new(Mem(vec![])).err(), Some(IndexError::OpenTooShort));
    assert_eq!(Index::new(Mem(vec![0; 51])).err(), Some(IndexError::OpenTooShort));
}

#[test]
fn file_with_a_bad_footer_does_not_open() {
    let good = built(&[b"abc"]);
    let n = good.len();

    // The directory is no whole number of trigrams.
    let mut bad = good.clone();
    bad[n - 52 + 4 + 16 + 8] = 13;
    assert_eq!(Index::new(Mem(bad)).err(), Some(IndexError::CorruptHeader));

    // The postings pass the end of the file.
    let mut bad = good.clone();
    bad[n - 52 + 4 + 8 + 1] = 1;
    assert_eq!(Index::new(Mem(bad)).err(), Some(IndexError::CorruptHeader));

    // The directory does not ascend.
    let mut bad = good.clone();
    bad[117] = b'z';
    assert_eq!(Index::new(Mem(bad)).err(), Some(IndexError::CorruptHeader));

    // An end passes the end of the postings.
    let mut bad = good.clone();
    bad[129 + 24] = 118;
    assert_eq!(Index::new(Mem(bad)).err(), Some(IndexError::CorruptHeader));

    // The ends decrease.
    let mut bad = good.clone();
    bad[129] = 90;
    assert_eq!(Index::new(Mem(bad)).err(), Some(IndexError::CorruptHeader));

    assert!(Index::new(Mem(good)).is_ok());
}

#[test]
fn corrupt_posting_is_a_corrupt_stream() {
    let good = built(&[b"abc"]);

    // The stream of documents of "abc" ends inside a varint.
    let mut bad = good.clone();
    bad[32] = 0x80;
    let index = Index::new(Mem(bad)).unwrap();
    assert_eq!(index.candidates(b"abc"), Err(IndexError::CorruptStream));
    assert_eq!(index.candidates(b"ab"), Ok(vec![0]));

    // The header of "abc" says that the documents take more bytes than the posting has.
    let mut bad = good.clone();
    bad[23] = 2;
    let index = Index::new(Mem(bad)).unwrap();
    assert_eq!(index.candidates(b"abc"), Err(IndexError::CorruptStream));

    // The posting of "abc" is shorter than a header.
    let mut bad = good.clone();
    bad[129] = 26;
    let index = Index::new(Mem(bad)).unwrap();
    assert_eq!(index.candidates(b"abc"), Err(IndexError::CorruptStream));

    // The unique successors are needed only where the query goes on.
    let mut bad = good.clone();
    bad[27] = 0x80;
    bad[28] = 0x80;
    bad[29] = 0x80;
    bad[30] = 0x80;
    let index = Index::new(Mem(bad)).unwrap();
    assert_eq!(index.candidates(b"abc"), Ok(vec![0]));
    assert_eq!(index.candidates(b"abcd"), Err(IndexError::CorruptStream));
}

#[test]
fn errors_have_messages() {
    assert_eq!(IndexError::Io("disk on fire".to_string()).message(), "disk on fire");
    assert_eq!(IndexError::OpenTooShort.message(), "index file is shorter than its footer");
    assert_eq!(IndexError::CorruptHeader.message(), "index footer is inconsistent");
    assert_eq!(IndexError::CorruptStream.message(), "compressed stream is corrupt");
    assert_eq!(
        IndexError::UnsupportedVersion.message(),
        "index format version is not supported"
    );
    assert_eq!(IndexError::TooLarge.message(), "index is too large for the format");
}

#[test]
fn directory_and_table_have_the_length_that_the_footer_gives() {
    let index = Index::new(Mem(built(&[b"test string 1", b"abracadabra"]))).unwrap();
    let n = index.unique_trigrams().len();
    assert_eq!(index.trigram_posting_ends().len(), n);
    assert_eq!(index.header().unique_trigrams.len / 3, n as u64);
    assert_eq!(index.header().trigram_posting_ends.len / 8, n as u64);
    for pair in index.trigram_posting_ends().windows(2) {
        assert!(pair[0] <= pair[1]);
    }
    assert_eq!(
        *index.trigram_posting_ends().last().unwrap(),
        index.header().trigram_postings.len
    );
}

#[test]
fn file_that_names_a_document_twice_answers_with_it_twice() {
    // The posting of "abc" names the documents 0 and 1, as the steps 0 and 1.
    let mut bytes = built(&[b"abc", b"abc"]);
    assert_eq!(&bytes[33..35], &[0x00, 0x01]);
    let index = Index::new(Mem(bytes.clone())).unwrap();
    assert_eq!(index.candidates(b"abc"), Ok(vec![0, 1]));
    // With the second step at zero it names the document 0 twice.
    bytes[34] = 0x00;
    let index = Index::new(Mem(bytes)).unwrap();
    assert_eq!(index.candidates(b"abc"), Ok(vec![0, 0]));
}
