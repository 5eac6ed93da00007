use trident::build::IndexBuilder;
use trident::index::Index;
use trident::ioutil::Mem;

fn index_of(docs: &[&[u8]]) -> Index<Mem> {
    let mut builder = IndexBuilder::new();
    for doc in docs {
        builder.add_doc(doc).unwrap();
    }
    let mut output = Vec::new();
    builder.build(&mut output).unwrap();
    Index::new(Mem(output)).unwrap()
}

#[test]
fn test_search() {
    let mut builder = IndexBuilder::new();
    builder.add_doc(b"test string 1").unwrap();
    builder.add_doc(b"test string 2").unwrap();
    builder.add_doc(b"abracadabra").unwrap();

    let mut output = Vec::new();
    builder.build(&mut output).unwrap();

    let index = Index::new(Mem(output)).unwrap();
    let doc_ids = index.candidates(b"string").unwrap();
    assert_eq!(&doc_ids, &[0, 1]);

    let doc_ids = index.candidates(b"strin").unwrap();
    assert_eq!(&doc_ids, &[0, 1]);

    let doc_ids = index.candidates(b"stri").unwrap();
    assert_eq!(&doc_ids, &[0, 1]);

    let doc_ids = index.candidates(b"str").unwrap();
    assert_eq!(&doc_ids, &[0, 1]);

    let doc_ids = index.candidates(b"abr").unwrap();
    assert_eq!(&doc_ids, &[2]);
}

#[test]
fn missing_trigram_gives_no_document() {
    let index = index_of(&[b"test string 1", b"test string 2", b"abracadabra"]);
    assert_eq!(index.candidates(b"zzz").unwrap(), Vec::<u32>::new());
}

#[test]
fn trigram_in_two_documents() {
    let index = index_of(&[b"abc", b"xabcx"]);
    assert_eq!(index.candidates(b"abc").unwrap(), vec![0, 1]);
}

#[test]
fn short_query_gives_every_document() {
    let index = index_of(&[b"hello world"]);
    assert_eq!(index.candidates(b"ll").unwrap(), vec![0]);
}

#[test]
fn empty_document_gets_an_identifier_and_no_keys() {
    let index = index_of(&[b"", b"abc", b""]);
    assert_eq!(index.num_docs(), 3);
    assert_eq!(index.candidates(b"abc").unwrap(), vec![1]);
    assert_eq!(index.candidates(&[0xFF, 0xFF, 0xFF]).unwrap(), vec![1]);
    assert_eq!(index.candidates(b"ab").unwrap(), vec![0, 1, 2]);
    assert_eq!(index.candidates(b"").unwrap(), vec![0, 1, 2]);

    let index = index_of(&[b""]);
    assert_eq!(index.num_docs(), 1);
    assert!(index.unique_trigrams().is_empty());
    assert_eq!(index.candidates(b"abc").unwrap(), Vec::<u32>::new());
    assert_eq!(index.candidates(&[0xFF, 0xFF, 0xFF]).unwrap(), Vec::<u32>::new());
}

#[test]
fn short_documents_have_padded_trigrams_only() {
    let index = index_of(&[b"a", b"ab"]);
    let ids: Vec<u32> = index.unique_trigrams().iter().map(|t| t.id()).collect();
    assert_eq!(ids, vec![0x6162FF, 0x62FFFF, 0xFFFFFF]);
    assert_eq!(index.candidates(&[b'a', b'b', 0xFF]).unwrap(), vec![1]);
    assert_eq!(index.candidates(&[0xFF, 0xFF, 0xFF]).unwrap(), vec![0, 1]);
    assert_eq!(index.candidates(&[b'a', 0xFF, 0xFF]).unwrap(), Vec::<u32>::new());
}

#[test]
fn document_of_one_sentinel_byte_is_indexed() {
    let index = index_of(&[&[0xFF], b"abc"]);
    assert_eq!(index.num_docs(), 2);
    assert_eq!(index.candidates(&[0xFF, 0xFF, 0xFF]).unwrap(), vec![0, 1]);
    assert_eq!(index.candidates(&[0xFF]).unwrap(), vec![0, 1]);
    assert_eq!(index.candidates(b"abc").unwrap(), vec![1]);
}

fn corpus() -> Vec<Vec<u8>> {
    let mut docs: Vec<Vec<u8>> = vec![
        b"test string 1".to_vec(),
        b"test string 2".to_vec(),
        b"abracadabra".to_vec(),
        b"".to_vec(),
        b"a".to_vec(),
        b"ab".to_vec(),
        b"abc".to_vec(),
        b"abcabcabcabd".to_vec(),
        b"the quick brown fox jumps over the lazy dog".to_vec(),
        b"aaaaaaaaaaaaaaaaaaaaaaaa".to_vec(),
    ];
    let mut x: u32 = 12345;
    for len in [7usize, 40, 300] {
        let mut doc = Vec::new();
        for _ in 0..len {
            x = x.wrapping_mul(1664525).wrapping_add(1013904223);
            doc.push(b'a' + ((x >> 24) % 4) as u8);
        }
        docs.push(doc);
    }
    docs
}

#[test]
fn every_substring_finds_its_document() {
    let docs = corpus();
    let refs: Vec<&[u8]> = docs.iter().map(|d| d.as_slice()).collect();
    let index = index_of(&refs);
    for (id, doc) in docs.iter().enumerate() {
        for len in 3..=8usize {
            if doc.len() < len {
                continue;
            }
            for at in 0..=doc.len() - len {
                let found = index.candidates(&doc[at..at + len]).unwrap();
                assert!(found.contains(&(id as u32)));
            }
        }
    }
}

#[test]
fn no_answer_names_a_document_twice() {
    let docs = corpus();
    let refs: Vec<&[u8]> = docs.iter().map(|d| d.as_slice()).collect();
    let index = index_of(&refs);
    let mut queries: Vec<Vec<u8>> = vec![b"".to_vec(), b"a".to_vec(), b"zz".to_vec()];
    for doc in &docs {
        for len in 3..=7usize {
            if doc.len() >= len {
                for at in 0..=doc.len() - len {
                    queries.push(doc[at..at + len].to_vec());
                }
            }
        }
    }
    for query in queries {
        let found = index.candidates(&query).unwrap();
        for pair in found.windows(2) {
            assert!(pair[0] < pair[1]);
        }
    }
}

#[test]
fn answers_are_the_documents_that_match() {
    // "abc" is followed by "deX" and "dfY" in document 0, by "dzz" in document 1,
    // and by "xyz" in document 2.
    let index = index_of(&[b"abcdeXabcdfY", b"abcdzz", b"abcxyz", b"nothing"]);
    assert_eq!(index.candidates(b"abc").unwrap(), vec![0, 1, 2]);
    assert_eq!(index.candidates(b"abcd").unwrap(), vec![0, 1]);
    assert_eq!(index.candidates(b"abcde").unwrap(), vec![0]);
    assert_eq!(index.candidates(b"abcdz").unwrap(), vec![1]);
    assert_eq!(index.candidates(b"abcdeX").unwrap(), vec![0]);
    assert_eq!(index.candidates(b"abcdfY").unwrap(), vec![0]);
    assert_eq!(index.candidates(b"abcdzz").unwrap(), vec![1]);
    assert_eq!(index.candidates(b"abcx").unwrap(), vec![2]);
    assert_eq!(index.candidates(b"abcq").unwrap(), Vec::<u32>::new());
    assert_eq!(index.candidates(b"abcdeY").unwrap(), Vec::<u32>::new());
    // Bytes past the sixth are not looked at.
    assert_eq!(index.candidates(b"abcxyz and more").unwrap(), vec![2]);
    // The last trigram of a document is followed by padding.
    assert_eq!(index.candidates(b"xyz").unwrap(), vec![2]);
    assert_eq!(index.candidates(&[b'x', b'y', b'z', 0xFF]).unwrap(), vec![2]);
    assert_eq!(index.candidates(b"xyzq").unwrap(), Vec::<u32>::new());
}

#[test]
fn posting_with_more_documents_than_a_block() {
    let mut docs: Vec<Vec<u8>> = Vec::new();
    for i in 0..300u32 {
        let mut doc = b"common ".to_vec();
        doc.extend_from_slice(format!("{:03}", i).as_bytes());
        docs.push(doc);
    }
    let refs: Vec<&[u8]> = docs.iter().map(|d| d.as_slice()).collect();
    let index = index_of(&refs);
    let all: Vec<u32> = (0..300).collect();
    assert_eq!(index.candidates(b"common").unwrap(), all);
    assert_eq!(index.candidates(b"com").unwrap(), all);
    assert_eq!(index.candidates(b"mon 1").unwrap(), (100..200).collect::<Vec<u32>>());
    assert_eq!(index.candidates(b"mon 12").unwrap(), (120..130).collect::<Vec<u32>>());
    assert_eq!(index.candidates(b"n 123").unwrap(), vec![123]);
    assert_eq!(index.candidates(b" 299").unwrap(), vec![299]);
}
