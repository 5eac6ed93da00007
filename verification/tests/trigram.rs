use trident::{Trigram, TrigramID};

#[test]
fn integer_form_is_big_endian() {
    assert_eq!(Trigram::from(*b"abc").id(), 0x616263);
    assert_eq!(TrigramID::from(Trigram::from([0, 0, 1])), 1);
    assert_eq!(TrigramID::from(Trigram::from([0, 1, 0])), 256);
    assert_eq!(TrigramID::from(Trigram::from([1, 0, 0])), 65536);
    assert_eq!(TrigramID::from(Trigram::from([0xFF, 0xFF, 0xFF])), 0xFF_FFFF);
}

#[test]
fn trigram_of_an_integer_takes_the_low_24_bits() {
    assert_eq!(<[u8; 3]>::from(Trigram::from(0x616263u32)), *b"abc");
    assert_eq!(Trigram::from_id(0xAB_616263), Trigram::from(*b"abc"));
}

#[test]
fn trigram_id_roundtrip() {
    for b0 in [0u8, 1, 97, 254, 255] {
        for b1 in [0u8, 1, 98, 254, 255] {
            for b2 in [0u8, 1, 99, 254, 255] {
                let t = Trigram::from([b0, b1, b2]);
                assert_eq!(Trigram::from(TrigramID::from(t)), t);
            }
        }
    }
    for u in [0u32, 1, 255, 256, 65535, 65536, 0xFF_FFFF] {
        assert_eq!(TrigramID::from(Trigram::from(u)), u);
    }
}

#[test]
fn trigram_as_u32_maintains_sort_order() {
    let bytes = [0u8, 1, 2, 97, 98, 254, 255];
    let mut all = Vec::new();
    for b0 in bytes {
        for b1 in bytes {
            for b2 in bytes {
                all.push(Trigram::from([b0, b1, b2]));
            }
        }
    }
    for t1 in &all {
        for t2 in &all {
            assert_eq!(t1.cmp(t2), u32::from(*t1).cmp(&u32::from(*t2)));
            assert_eq!(t1.partial_cmp(t2), Some(t1.cmp(t2)));
            assert_eq!(t1 <= t2, t1.id() <= t2.id());
            assert_eq!(t1 == t2, t1.id() == t2.id());
        }
    }
}

#[test]
fn trigram_of_a_slice_needs_three_bytes() {
    assert_eq!(Trigram::try_from_slice(b"abcd"), Some(Trigram::from(*b"abc")));
    assert_eq!(Trigram::try_from_slice(b"abc"), Some(Trigram::from(*b"abc")));
    assert_eq!(Trigram::try_from_slice(b"ab"), None);
    assert_eq!(Trigram::try_from_slice(b""), None);
}

#[test]
fn default_trigram_is_zero() {
    assert_eq!(Trigram::default().id(), 0);
}
