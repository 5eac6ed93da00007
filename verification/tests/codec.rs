use trident::build::serialize::{
    read_sorted_u32s, read_u32s, write_sorted_u32s, write_u32s, StreamWriter, U32Compressor,
    U32Decompressor, U32DeltaCompressor, U32DeltaDecompressor,
};
use trident::build::sst::write_compressed_u32s;
use trident::IndexError;

fn scrambled(n: usize) -> Vec<u32> {
    let mut x: u32 = 0x9E37_79B9;
    let mut out = Vec::with_capacity(n);
    for i in 0..n {
        x ^= x << 13;
        x ^= x >> 17;
        x ^= x << 5;
        out.push(if i % 7 == 0 { x } else { x >> (i % 29) });
    }
    out
}

fn ascending(n: usize) -> Vec<u32> {
    let mut v = scrambled(n);
    v.sort();
    v
}

fn plain_round_trip(input: &[u32]) {
    let mut buf = Vec::new();
    let written = write_u32s(input, &mut buf);
    assert_eq!(written, buf.len());
    assert_eq!(read_u32s(&buf, input.len()), Ok(input.to_vec()));
}

fn sorted_round_trip(input: &[u32]) {
    let mut buf = Vec::new();
    let written = write_sorted_u32s(input, &mut buf);
    assert_eq!(written, buf.len());
    assert_eq!(read_sorted_u32s(&buf, input.len()), Ok(input.to_vec()));
}

#[test]
fn plain_codec_round_trips() {
    for n in [0usize, 1, 2, 5, 100, 500, 1000] {
        plain_round_trip(&scrambled(n));
    }
    plain_round_trip(&[0, u32::MAX, 1, u32::MAX - 1]);
}

#[test]
fn sorted_codec_round_trips() {
    for n in [0usize, 1, 2, 5, 100, 500, 1000] {
        sorted_round_trip(&ascending(n));
    }
    sorted_round_trip(&[0, 0, 0, u32::MAX, u32::MAX]);
}

#[test]
fn codecs_round_trip_across_block_boundaries() {
    for n in [127usize, 128, 129, 256, 257] {
        plain_round_trip(&scrambled(n));
        sorted_round_trip(&ascending(n));
    }
}

#[test]
fn compressors_and_decompressors_pair_up() {
    let input = scrambled(300);
    let mut buf = Vec::new();
    let n = U32Compressor(&input).write_to(&mut buf);
    assert_eq!(n, buf.len());
    assert_eq!(U32Decompressor::new(&buf, input.len()).decode(), Ok(input));

    let input = ascending(300);
    let mut buf = Vec::new();
    let n = U32DeltaCompressor(&input).write_to(&mut buf);
    assert_eq!(n, buf.len());
    assert_eq!(U32DeltaDecompressor::new(&buf, input.len()).decode(), Ok(input));
}

#[test]
fn tail_is_written_as_varints() {
    let mut buf = Vec::new();
    assert_eq!(write_u32s(&[0, 1, 127, 128, 300, 16384, u32::MAX], &mut buf), 15);
    assert_eq!(
        buf,
        vec![
            0x00, 0x01, 0x7F, 0x80, 0x01, 0xAC, 0x02, 0x80, 0x80, 0x01, 0xFF, 0xFF, 0xFF, 0xFF,
            0x0F
        ]
    );
}

#[test]
fn varint_of_the_greatest_value_takes_five_bytes() {
    let mut buf = Vec::new();
    assert_eq!(write_u32s(&[u32::MAX], &mut buf), 5);
    assert_eq!(buf, vec![0xFF, 0xFF, 0xFF, 0xFF, 0x0F]);
    assert_eq!(read_u32s(&buf, 1), Ok(vec![u32::MAX]));
}

#[test]
fn sorted_tail_is_written_as_steps() {
    let mut buf = Vec::new();
    assert_eq!(write_sorted_u32s(&[5, 5, 6, 306], &mut buf), 5);
    assert_eq!(buf, vec![0x05, 0x00, 0x01, 0xAC, 0x02]);
    assert_eq!(read_sorted_u32s(&buf, 4), Ok(vec![5, 5, 6, 306]));
}

#[test]
fn full_block_has_a_width_byte_and_sixteen_bytes_a_bit() {
    let mut buf = Vec::new();
    assert_eq!(write_u32s(&[0u32; 128], &mut buf), 1);
    assert_eq!(buf, vec![0]);
    assert_eq!(read_u32s(&buf, 128), Ok(vec![0u32; 128]));

    let mut buf = Vec::new();
    assert_eq!(write_u32s(&[1u32; 128], &mut buf), 17);
    let mut expected = vec![1u8];
    expected.extend_from_slice(&[0xFF; 16]);
    assert_eq!(buf, expected);
    assert_eq!(read_u32s(&buf, 128), Ok(vec![1u32; 128]));

    let mut buf = Vec::new();
    assert_eq!(write_u32s(&[u32::MAX; 128], &mut buf), 1 + 512);
    assert_eq!(buf[0], 32);
    assert_eq!(read_u32s(&buf, 128), Ok(vec![u32::MAX; 128]));
}

#[test]
fn sorted_block_packs_the_steps() {
    let input: Vec<u32> = (1..=128).collect();
    let mut buf = Vec::new();
    assert_eq!(write_sorted_u32s(&input, &mut buf), 17);
    let mut expected = vec![1u8];
    expected.extend_from_slice(&[0xFF; 16]);
    assert_eq!(buf, expected);
    assert_eq!(read_sorted_u32s(&buf, 128), Ok(input));

    // The second block counts up from the last value of the first.
    let input: Vec<u32> = (1..=256).collect();
    let mut buf = Vec::new();
    assert_eq!(write_sorted_u32s(&input, &mut buf), 34);
    let mut twice = expected.clone();
    twice.extend_from_slice(&expected);
    assert_eq!(buf, twice);
    assert_eq!(read_sorted_u32s(&buf, 256), Ok(input));
}

#[test]
fn block_and_tail_follow_each_other() {
    let mut input = vec![3u32; 128];
    input.push(300);
    let mut buf = Vec::new();
    assert_eq!(write_u32s(&input, &mut buf), 1 + 32 + 2);
    assert_eq!(buf[0], 2);
    assert_eq!(&buf[1..33], &[0xFF; 32]);
    assert_eq!(&buf[33..], &[0xAC, 0x02]);
    assert_eq!(read_u32s(&buf, 129), Ok(input));
}

#[test]
fn decoding_stops_at_the_count() {
    assert_eq!(read_u32s(&[1, 2, 3, 4], 2), Ok(vec![1, 2]));
    assert_eq!(read_sorted_u32s(&[1, 2, 3, 4], 2), Ok(vec![1, 3]));
    assert_eq!(read_u32s(&[], 0), Ok(vec![]));
}

#[test]
fn decoding_fails_where_the_bytes_end_early() {
    assert_eq!(read_u32s(&[], 1), Err(IndexError::CorruptStream));
    assert_eq!(read_u32s(&[0x80], 1), Err(IndexError::CorruptStream));
    assert_eq!(read_sorted_u32s(&[1, 2], 3), Err(IndexError::CorruptStream));
    // A block of width 1 needs sixteen bytes.
    assert_eq!(read_u32s(&[1, 0xFF, 0xFF], 128), Err(IndexError::CorruptStream));
    assert_eq!(read_sorted_u32s(&[], 128), Err(IndexError::CorruptStream));
}

#[test]
fn decoding_fails_on_a_width_above_32() {
    let mut bytes = vec![33u8];
    bytes.extend_from_slice(&[0u8; 33 * 16]);
    assert_eq!(read_u32s(&bytes, 128), Err(IndexError::CorruptStream));
    assert_eq!(read_sorted_u32s(&bytes, 128), Err(IndexError::CorruptStream));
}

#[test]
fn decoding_fails_on_a_varint_above_32_bits() {
    assert_eq!(read_u32s(&[0xFF, 0xFF, 0xFF, 0xFF, 0x1F], 1), Err(IndexError::CorruptStream));
    assert_eq!(read_u32s(&[0xFF, 0xFF, 0xFF, 0xFF, 0x0F], 1), Ok(vec![u32::MAX]));
}

#[test]
fn sorted_decoding_fails_on_a_sum_above_32_bits() {
    assert_eq!(
        read_sorted_u32s(&[0xFF, 0xFF, 0xFF, 0xFF, 0x0F, 0x01], 2),
        Err(IndexError::CorruptStream)
    );
    assert_eq!(
        read_sorted_u32s(&[0xFF, 0xFF, 0xFF, 0xFF, 0x0F, 0x00], 2),
        Ok(vec![u32::MAX, u32::MAX])
    );
}

#[test]
fn chunks_are_the_blocks_and_the_tail() {
    let input: Vec<u32> = (1..=258).collect();
    let chunks = write_compressed_u32s(&input);
    assert_eq!(chunks.len(), 3);
    let mut block = vec![1u8];
    block.extend_from_slice(&[0xFF; 16]);
    assert_eq!(chunks[0], block);
    assert_eq!(chunks[1], block);
    assert_eq!(chunks[2], vec![1, 1]);

    let mut whole = Vec::new();
    write_sorted_u32s(&input, &mut whole);
    assert_eq!(chunks.concat(), whole);

    assert_eq!(write_compressed_u32s(&[]), vec![Vec::<u8>::new()]);
}

#[test]
fn varint_may_run_on_with_empty_bytes() {
    // A varint need not be the shortest: bytes that add nothing may follow.
    assert_eq!(read_u32s(&[0x81, 0x80, 0x80, 0x80, 0x80, 0x00, 7], 2), Ok(vec![1, 7]));
    let mut ten = vec![0x80u8; 9];
    ten.push(0x00);
    ten.push(7);
    assert_eq!(read_u32s(&ten, 2), Ok(vec![0, 7]));
    // A tenth byte ends the varint, and may hold one bit only, which is too high.
    let mut high = vec![0x80u8; 9];
    high.push(0x01);
    assert_eq!(read_u32s(&high, 1), Err(IndexError::CorruptStream));
    let mut wide = vec![0x80u8; 9];
    wide.push(0x02);
    assert_eq!(read_u32s(&wide, 1), Err(IndexError::CorruptStream));
    let mut long = vec![0x80u8; 10];
    long.push(0x00);
    assert_eq!(read_u32s(&long, 1), Err(IndexError::CorruptStream));
}

#[test]
fn second_block_counts_from_the_last_value_of_the_first() {
    let input = vec![1000u32; 256];
    let mut w = Vec::new();
    assert_eq!(U32DeltaCompressor(&input).write_to(&mut w), 162);
    assert_eq!(w.len(), 162);
    // The first block has one step of 1000, which takes ten bits; the second has none.
    assert_eq!(w[0], 10);
    assert_eq!(w[161], 0);
    assert_eq!(read_sorted_u32s(&w, 256), Ok(input));
}
