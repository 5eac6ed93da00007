use trident::db::{DBKey, IndexKey, PartitionKey, TrigramPostingKey};
use trident::ioutil::stream::{ByteReader, StreamRead, StreamWrite};
use trident::IndexError;

#[test]
fn key_stable_sort_order() {
    let keys = [
        DBKey::Partition(
            42,
            PartitionKey::Index(IndexKey::TrigramPosting(*b"abc", TrigramPostingKey::DocCount)),
        ),
        DBKey::Partition(
            42,
            PartitionKey::Index(IndexKey::TrigramPosting(
                *b"abc",
                TrigramPostingKey::MatrixBlock(24),
            )),
        ),
        DBKey::Partition(
            42,
            PartitionKey::Index(IndexKey::TrigramPosting(
                *b"abc",
                TrigramPostingKey::SuccessorCount,
            )),
        ),
        DBKey::Partition(
            42,
            PartitionKey::Index(IndexKey::TrigramPosting(
                *b"abc",
                TrigramPostingKey::MatrixBlock(42),
            )),
        ),
        DBKey::Partition(42, PartitionKey::Contents(0)),
        DBKey::Partition(42, PartitionKey::Contents(2)),
        DBKey::Partition(
            35,
            PartitionKey::Index(IndexKey::TrigramPosting(*b"abc", TrigramPostingKey::DocCount)),
        ),
    ];

    let mut serialized = keys.iter().map(|key| key.to_vec()).collect::<Vec<_>>();
    serialized.sort();

    assert_eq!(
        serialized,
        vec![
            vec![0, 0, 35, 0, 0, 97, 98, 99, 2],
            vec![0, 0, 42, 0, 0, 97, 98, 99, 0],
            vec![0, 0, 42, 0, 0, 97, 98, 99, 2],
            vec![0, 0, 42, 0, 0, 97, 98, 99, 4, 0, 0, 0, 24],
            vec![0, 0, 42, 0, 0, 97, 98, 99, 4, 0, 0, 0, 42],
            vec![0, 0, 42, 1, 0, 0, 0, 0],
            vec![0, 0, 42, 1, 0, 0, 0, 2],
        ]
    );
}

fn all_posting_keys() -> Vec<TrigramPostingKey> {
    vec![
        TrigramPostingKey::SuccessorCount,
        TrigramPostingKey::MatrixCount,
        TrigramPostingKey::DocCount,
        TrigramPostingKey::SuccessorsBlock(0),
        TrigramPostingKey::MatrixBlock(0x0102_0304),
        TrigramPostingKey::DocsBlock(u32::MAX),
    ]
}

#[test]
fn db_key_roundtrip() {
    let mut keys = Vec::new();
    for id in [0u16, 1, 0x1234, u16::MAX] {
        keys.push(DBKey::Partition(id, PartitionKey::Contents(0)));
        keys.push(DBKey::Partition(id, PartitionKey::Contents(u32::MAX)));
        for part in all_posting_keys() {
            keys.push(DBKey::Partition(
                id,
                PartitionKey::Index(IndexKey::TrigramPosting([0, 0xFF, 7], part)),
            ));
        }
    }
    for key in keys {
        let v = key.to_vec();
        let mut r = ByteReader::new(&v);
        assert_eq!(DBKey::read_from(&mut r), Ok(key.clone()));
        assert_eq!(r.remaining(), 0);

        let mut longer = v.clone();
        longer.extend_from_slice(&[9, 9]);
        let mut r = ByteReader::new(&longer);
        assert_eq!(DBKey::read_from(&mut r), Ok(key));
        assert_eq!(r.remaining(), 2);
    }
}

#[test]
fn discriminants_number_the_variants() {
    let numbers: Vec<u8> = all_posting_keys().iter().map(|k| k.discriminant()).collect();
    assert_eq!(numbers, vec![0, 1, 2, 3, 4, 5]);
    assert_eq!(PartitionKey::Contents(7).discriminant(), 1);
    let index = IndexKey::TrigramPosting(*b"abc", TrigramPostingKey::DocCount);
    assert_eq!(index.discriminant(), 0);
    assert_eq!(PartitionKey::Index(index).discriminant(), 0);
    assert_eq!(DBKey::Partition(0, PartitionKey::Contents(7)).discriminant(), 0);
}

#[test]
fn integers_are_written_most_significant_byte_first() {
    assert_eq!(7u8.to_vec(), vec![7]);
    assert_eq!(0x0102u16.to_vec(), vec![1, 2]);
    assert_eq!(0x01020304u32.to_vec(), vec![1, 2, 3, 4]);
    assert_eq!(0x0102030405060708u64.to_vec(), vec![1, 2, 3, 4, 5, 6, 7, 8]);
    assert_eq!([9u8, 8, 7].to_vec(), vec![9, 8, 7]);

    let mut w = vec![0xAA];
    assert_eq!(0x0102u16.write_to(&mut w), 2);
    assert_eq!(w, vec![0xAA, 1, 2]);
}

#[test]
fn integers_are_read_most_significant_byte_first() {
    let bytes = [1u8, 2, 3, 4, 5, 6, 7, 8, 9, 10, 11, 12, 13, 14, 15, 16, 17, 18];
    let mut r = ByteReader::new(&bytes);
    assert_eq!(u8::read_from(&mut r), Ok(1));
    assert_eq!(u16::read_from(&mut r), Ok(0x0203));
    assert_eq!(u32::read_from(&mut r), Ok(0x04050607));
    assert_eq!(u64::read_from(&mut r), Ok(0x08090A0B0C0D0E0F));
    assert_eq!(<[u8; 3]>::read_from(&mut r), Ok([16, 17, 18]));
    assert_eq!(r.remaining(), 0);
    assert_eq!(u8::read_from(&mut r), Err(IndexError::CorruptStream));
}

#[test]
fn reading_a_key_fails_on_a_bad_discriminant_or_a_short_key() {
    let mut r = ByteReader::new(&[1, 0, 42, 1, 0, 0, 0, 0]);
    assert_eq!(DBKey::read_from(&mut r), Err(IndexError::CorruptStream));
    let mut r = ByteReader::new(&[0, 0, 42, 2, 0, 0, 0, 0]);
    assert_eq!(DBKey::read_from(&mut r), Err(IndexError::CorruptStream));
    let mut r = ByteReader::new(&[0, 0, 42, 0, 0, 97, 98, 99, 6]);
    assert_eq!(DBKey::read_from(&mut r), Err(IndexError::CorruptStream));
    let mut r = ByteReader::new(&[0, 0, 42, 1, 0, 0, 0]);
    assert_eq!(DBKey::read_from(&mut r), Err(IndexError::CorruptStream));
    let mut r = ByteReader::new(&[]);
    assert_eq!(DBKey::read_from(&mut r), Err(IndexError::CorruptStream));
}

#[test]
fn reader_takes_bytes_in_order() {
    let bytes = [1u8, 2, 3];
    let mut r = ByteReader::new(&bytes);
    assert_eq!(r.take(2), Some(&bytes[..2]));
    assert_eq!(r.take(2), None);
    assert_eq!(r.remaining(), 1);
    assert_eq!(r.take(1), Some(&bytes[2..]));
    assert_eq!(r.take(0), Some(&bytes[3..]));
}
