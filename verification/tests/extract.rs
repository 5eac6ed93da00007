use trident::build::extract::{extract_trigrams, insert_sorted, lower_bound, TrigramSuccessors};

fn id(t: &[u8; 3]) -> u32 {
    ((t[0] as u32) << 16) | ((t[1] as u32) << 8) | t[2] as u32
}

fn pairs(entries: &[TrigramSuccessors]) -> Vec<(u32, Vec<u32>)> {
    entries.iter().map(|e| (e.trigram, e.successors.clone())).collect()
}

#[test]
fn empty_document_has_no_keys() {
    assert_eq!(pairs(&extract_trigrams(b"")), vec![]);
}

#[test]
fn document_of_one_byte_has_the_sentinel_key_only() {
    assert_eq!(pairs(&extract_trigrams(b"a")), vec![(0xFF_FFFF, vec![])]);
}

#[test]
fn document_of_one_sentinel_byte_has_the_sentinel_key_only() {
    assert_eq!(pairs(&extract_trigrams(&[0xFF])), vec![(0xFF_FFFF, vec![])]);
}

#[test]
fn document_of_two_bytes_has_padded_keys_only() {
    assert_eq!(
        pairs(&extract_trigrams(b"ab")),
        vec![
            (id(&[b'a', b'b', 0xFF]), vec![]),
            (id(&[b'b', 0xFF, 0xFF]), vec![]),
            (0xFF_FFFF, vec![]),
        ]
    );
}

#[test]
fn document_of_three_bytes_is_followed_by_the_sentinel() {
    assert_eq!(
        pairs(&extract_trigrams(b"abc")),
        vec![
            (id(b"abc"), vec![0xFF_FFFF]),
            (id(&[b'b', b'c', 0xFF]), vec![]),
            (id(&[b'c', 0xFF, 0xFF]), vec![]),
            (0xFF_FFFF, vec![]),
        ]
    );
}

#[test]
fn successors_stand_three_bytes_on() {
    assert_eq!(
        pairs(&extract_trigrams(b"abcdefg")),
        vec![
            (id(b"abc"), vec![id(b"def")]),
            (id(b"bcd"), vec![id(b"efg")]),
            (id(b"cde"), vec![id(&[b'f', b'g', 0xFF])]),
            (id(b"def"), vec![id(&[b'g', 0xFF, 0xFF])]),
            (id(b"efg"), vec![0xFF_FFFF]),
            (id(&[b'f', b'g', 0xFF]), vec![]),
            (id(&[b'g', 0xFF, 0xFF]), vec![]),
            (0xFF_FFFF, vec![]),
        ]
    );
}

#[test]
fn repeated_trigram_gathers_its_successors_once_each() {
    let entries = extract_trigrams(b"abcxyzabcxyzabcuvw");
    let abc = entries.iter().find(|e| e.trigram == id(b"abc")).unwrap();
    assert_eq!(abc.successors, vec![id(b"uvw"), id(b"xyz")]);
    let keys: Vec<u32> = entries.iter().map(|e| e.trigram).collect();
    let mut sorted = keys.clone();
    sorted.sort();
    sorted.dedup();
    assert_eq!(keys, sorted);
}

#[test]
fn insert_keeps_the_order_and_skips_what_is_there() {
    let mut v = vec![1, 5, 9];
    insert_sorted(&mut v, 7);
    insert_sorted(&mut v, 0);
    insert_sorted(&mut v, 10);
    insert_sorted(&mut v, 5);
    assert_eq!(v, vec![0, 1, 5, 7, 9, 10]);
    assert_eq!(lower_bound(&v, 6), 3);
    assert_eq!(lower_bound(&v, 5), 2);
    assert_eq!(lower_bound(&v, 11), 6);
}
