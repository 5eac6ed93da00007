use trident::build::IndexBuilder;
use trident::index::{read_bytes, Index, PostingHeader, PostingSearcher};
use trident::ioutil::{Cursor, Len, Mem, ReadAt, Section, SeekFrom};
use trident::{IndexError, ReadError};

#[test]
fn memory_reads_at_an_offset() {
    let mem = Mem(vec![1, 2, 3, 4, 5]);
    assert_eq!(mem.len().unwrap(), 5);

    let mut buf = [0u8; 3];
    assert_eq!(mem.read_at(&mut buf, 1).unwrap(), 3);
    assert_eq!(buf, [2, 3, 4]);

    // A read past the end is short.
    let mut buf = [9u8; 3];
    assert_eq!(mem.read_at(&mut buf, 3).unwrap(), 2);
    assert_eq!(buf, [4, 5, 9]);
    let mut buf = [9u8; 3];
    assert_eq!(mem.read_at(&mut buf, 5).unwrap(), 0);
    assert_eq!(mem.read_at(&mut buf, 500).unwrap(), 0);
    assert_eq!(buf, [9, 9, 9]);

    let mut buf = [0u8; 2];
    assert!(mem.read_exact_at(&mut buf, 3).is_ok());
    assert_eq!(buf, [4, 5]);
    assert_eq!(
        mem.read_exact_at(&mut buf, 4),
        Err(ReadError { message: "could not fill buffer".to_string() })
    );
    assert!(mem.read_exact_at(&mut buf, 6).is_err());
    let mut none = [0u8; 0];
    assert!(mem.read_exact_at(&mut none, 5).is_ok());
    assert!(mem.read_exact_at(&mut none, 6).is_err());
}

#[test]
fn cursor_reads_on_from_where_it_stands() {
    let mem = Mem(vec![1, 2, 3, 4, 5]);
    let mut cursor = Cursor::new(&mem);
    let mut buf = [0u8; 2];
    assert_eq!(cursor.read(&mut buf).unwrap(), 2);
    assert_eq!(buf, [1, 2]);
    assert!(cursor.read_exact(&mut buf).is_ok());
    assert_eq!(buf, [3, 4]);
    assert!(cursor.read_exact(&mut buf).is_err());
    assert_eq!(cursor.read(&mut buf).unwrap(), 1);
    assert_eq!(buf, [5, 4]);
    assert_eq!(cursor.read(&mut buf).unwrap(), 0);
    assert_eq!(cursor.offset, 5);

    let mut cursor = Cursor::new_in(&mem, Section::new(3, 2));
    assert_eq!(cursor.offset, 3);
    assert!(cursor.read_exact(&mut buf).is_ok());
    assert_eq!(buf, [4, 5]);
}

#[test]
fn cursor_seeks_from_the_start_the_end_and_itself() {
    let mem = Mem(vec![1, 2, 3, 4, 5]);
    let mut cursor = Cursor::new(&mem);
    assert_eq!(cursor.seek(SeekFrom::Start(2)).unwrap(), 2);
    assert_eq!(cursor.seek(SeekFrom::Current(2)).unwrap(), 4);
    assert_eq!(cursor.seek(SeekFrom::Current(-3)).unwrap(), 1);
    assert_eq!(cursor.seek(SeekFrom::End(-2)).unwrap(), 3);
    assert_eq!(cursor.seek(SeekFrom::End(10)).unwrap(), 15);
    assert_eq!(cursor.seek(SeekFrom::Start(u64::MAX)).unwrap(), u64::MAX);
    assert!(cursor.seek(SeekFrom::Current(1)).is_err());
    assert_eq!(cursor.offset, u64::MAX);
    assert_eq!(cursor.seek(SeekFrom::Current(i64::MIN)).unwrap(), u64::MAX - (1 << 63));
    assert_eq!(cursor.seek(SeekFrom::Start(0)).unwrap(), 0);
    assert_eq!(
        cursor.seek(SeekFrom::Current(-1)),
        Err(ReadError { message: "seek outside the source".to_string() })
    );
    assert!(cursor.seek(SeekFrom::End(-6)).is_err());
    assert_eq!(cursor.offset, 0);

    let mut buf = [0u8; 1];
    cursor.seek(SeekFrom::End(-1)).unwrap();
    assert!(cursor.read_exact(&mut buf).is_ok());
    assert_eq!(buf, [5]);
}

#[test]
fn section_narrows_to_a_section_of_itself() {
    let file: Section = Section::new(100, 50);
    let child: Section<Section> = Section::new(10, 20);
    let narrowed = file.narrow(child);
    assert_eq!((narrowed.offset, narrowed.len), (110, 20));

    let whole = file.narrow(Section::new(0, 50));
    assert_eq!((whole.offset, whole.len), (100, 50));
    let end = file.narrow(Section::new(50, 0));
    assert_eq!((end.offset, end.len), (150, 0));

    let inner: Section<Section<Section>> = Section::new(5, 5);
    let twice = file.narrow(child.narrow(inner));
    assert_eq!((twice.offset, twice.len), (115, 5));

    assert!(file.checked_narrow(Section::new(10, 20)).is_some());
    assert!(file.checked_narrow(Section::new(10, 41)).is_none());
    assert!(file.checked_narrow(Section::new(51, 0)).is_none());
    assert!(file.checked_narrow(Section::new(u64::MAX, 1)).is_none());
    let far: Section = Section::new(u64::MAX - 5, 50);
    assert!(far.checked_narrow(Section::new(10, 20)).is_none());
    assert!(far.checked_narrow(Section::new(5, 20)).is_some());

    let copy = file;
    assert_eq!((copy.offset, file.clone().len), (100, 50));
}

#[test]
fn failed_read_is_an_io_error_with_the_message_of_the_source() {
    let mem = Mem(vec![1, 2, 3, 4, 5]);
    assert_eq!(read_bytes(&mem, 1, 3), Ok(vec![2, 3, 4]));
    assert_eq!(read_bytes(&mem, 5, 0), Ok(vec![]));
    assert_eq!(read_bytes(&mem, 3, 3), Err(IndexError::Io("could not fill buffer".to_string())));
}

fn small_index() -> Vec<u8> {
    let mut builder = IndexBuilder::new();
    builder.add_doc(b"abcdef").unwrap();
    builder.add_doc(b"abcxyz").unwrap();
    let mut output = Vec::new();
    builder.build(&mut output).unwrap();
    output
}

#[test]
fn searcher_answers_from_one_posting() {
    let bytes = small_index();
    let index = Index::new(Mem(bytes.clone())).unwrap();
    let postings = index.header().trigram_postings;
    let section = index.trigram_section(trident::Trigram::from(*b"abc")).unwrap();
    assert_eq!(section.offset, 0);
    let header = PostingHeader::read_from(&bytes[..27]).unwrap();
    assert_eq!(header.trigram, trident::Trigram::from(*b"abc"));
    assert_eq!(header.successors_count, 2);
    assert_eq!(header.matrix_count, 2);
    assert_eq!(header.docs_count, 2);
    let streams = header.successors_bytes + header.matrix_bytes + header.docs_bytes;
    assert_eq!(section.len, 27 + streams as u64);

    let mem = Mem(bytes.clone());
    let search = |rest: &[u8]| {
        PostingSearcher::new(postings, section, header.clone(), &mem).search(rest)
    };
    assert_eq!(search(b""), Ok(vec![0, 1]));
    assert_eq!(search(b"d"), Ok(vec![0]));
    assert_eq!(search(b"xy"), Ok(vec![1]));
    assert_eq!(search(b"xyz"), Ok(vec![1]));
    assert_eq!(search(b"xyq"), Ok(vec![]));
    assert_eq!(search(b"q"), Ok(vec![]));

    // A posting that passes the end of the postings does not fit.
    let long = Section::new(section.offset, postings.len + 1);
    assert_eq!(
        PostingSearcher::new(postings, long, header.clone(), &mem).search(b""),
        Err(IndexError::CorruptStream)
    );
    // Nor does a posting that is shorter than its header says.
    let short = Section::new(section.offset, section.len - 1);
    assert_eq!(
        PostingSearcher::new(postings, short, header.clone(), &mem).search(b""),
        Err(IndexError::CorruptStream)
    );
    assert!(index.trigram_section(trident::Trigram::from(*b"zzz")).is_none());
}

#[test]
fn section_near_the_end_of_the_offsets_narrows() {
    let parent: Section = Section::new(u64::MAX - 5, 100);
    let narrowed = parent.narrow(Section::new(0, 3));
    assert_eq!((narrowed.offset, narrowed.len), (u64::MAX - 5, 3));
    let narrowed = parent.narrow(Section::new(5, 95));
    assert_eq!((narrowed.offset, narrowed.len), (u64::MAX, 95));
}
