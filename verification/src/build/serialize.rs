//! The integer codec: sequences of 32-bit integers as bit-packed blocks of 128,
//! each behind one byte that gives its bit width, and a tail of varints.
//!
//! The plain codec stores the values themselves. The sorted codec takes a
//! sequence that never decreases and stores the step from each value to the
//! next. Neither form delimits itself: the reader is told the count.

use vstd::prelude::*;
use vstd::slice::slice_subrange;

use crate::bitpack::{
    ascending_from, block_bits, deltas, lemma_max_width_bound, max_width, pack_block,
    pack_sorted_block, packed, packed_sorted, sorted_block_bits, unpack_block, unpack_sorted_block,
    unpacked, unpacked_sorted,
};
use crate::error::IndexError;
use crate::varint::{
    decode_varint, encode_varint, leb128, lemma_varint_round_trip, varint_decode, varint_scan,
};

verus! {

/// A value with a form in bytes, which it can append to a sink.
pub trait StreamWriter {
    /// The bytes that stand for the value.
    spec fn wire(&self) -> Seq<u8>;

    /// Whether the value has a form in bytes at all.
    spec fn writable(&self) -> bool;

    /// Appends the value's bytes to `w` and returns their number.
    fn write_to(&self, w: &mut Vec<u8>) -> (n: usize)
        requires
            self.writable(),
        ensures
            final(w)@ == old(w)@ + self.wire(),
            n == self.wire().len(),
    ;
}

/// A sequence of integers, to be written in the plain encoding.
pub struct U32Compressor<'a>(pub &'a [u32]);

impl<'a> StreamWriter for U32Compressor<'a> {
    open spec fn wire(&self) -> Seq<u8> {
        plain_encoding(self.0@)
    }

    open spec fn writable(&self) -> bool {
        true
    }

    /// Appends the plain encoding, which decodes to the sequence again, and in
    /// which the payload of every full block has sixteen bytes for each bit of
    /// the block's width.
    fn write_to(&self, w: &mut Vec<u8>) -> (n: usize)
        ensures
            n == plain_encoding_len(self.0@),
            blocks_round_trip(self.0@),
            plain_decoding(plain_encoding(self.0@), self.0@.len()) == Some(self.0@),
    {
        write_u32s(self.0, w)
    }
}

/// A sequence of integers that never decreases, to be written in the sorted encoding.
pub struct U32DeltaCompressor<'a>(pub &'a [u32]);

impl<'a> StreamWriter for U32DeltaCompressor<'a> {
    open spec fn wire(&self) -> Seq<u8> {
        delta_encoding(self.0@, 0)
    }

    open spec fn writable(&self) -> bool {
        ascending_from(0, self.0@)
    }

    /// Appends the sorted encoding, which decodes to the sequence again, and in
    /// which the payload of every full block has sixteen bytes for each bit of
    /// the block's width.
    fn write_to(&self, w: &mut Vec<u8>) -> (n: usize)
        ensures
            n == delta_encoding_len(self.0@, 0),
            sorted_blocks_round_trip(self.0@, 0),
            delta_decoding(delta_encoding(self.0@, 0), self.0@.len(), 0) == Some(self.0@),
    {
        write_sorted_u32s(self.0, w)
    }
}

/// Bytes that hold `count` integers in the plain encoding.
pub struct U32Decompressor<'a> {
    pub bytes: &'a [u8],
    pub count: usize,
}

impl<'a> U32Decompressor<'a> {
    pub fn new(bytes: &'a [u8], count: usize) -> (d: Self)
        ensures
            d.bytes@ == bytes@,
            d.count == count,
    {
        U32Decompressor { bytes, count }
    }

    /// The integers, or `CorruptStream` where the bytes do not hold `count` of them.
    pub fn decode(&self) -> (r: Result<Vec<u32>, IndexError>)
        ensures
            match r {
                Ok(vals) => plain_decoding(self.bytes@, self.count as nat) == Some(vals@)
                    && vals@.len() == self.count,
                Err(e) => e == IndexError::CorruptStream && plain_decoding(
                    self.bytes@,
                    self.count as nat,
                ) is None,
            },
    {
        read_u32s(self.bytes, self.count)
    }
}

/// Bytes that hold `count` integers in the sorted encoding.
pub struct U32DeltaDecompressor<'a> {
    pub bytes: &'a [u8],
    pub count: usize,
}

impl<'a> U32DeltaDecompressor<'a> {
    pub fn new(bytes: &'a [u8], count: usize) -> (d: Self)
        ensures
            d.bytes@ == bytes@,
            d.count == count,
    {
        U32DeltaDecompressor { bytes, count }
    }

    /// The integers, or `CorruptStream` where the bytes do not hold `count` of them.
    pub fn decode(&self) -> (r: Result<Vec<u32>, IndexError>)
        ensures
            match r {
                Ok(vals) => delta_decoding(self.bytes@, self.count as nat, 0) == Some(vals@)
                    && vals@.len() == self.count,
                Err(e) => e == IndexError::CorruptStream && delta_decoding(
                    self.bytes@,
                    self.count as nat,
                    0,
                ) is None,
            },
    {
        read_sorted_u32s(self.bytes, self.count)
    }
}

/// The `k`-th block of 128 of `vals`.
pub open spec fn block_at(vals: Seq<u32>, k: int) -> Seq<u32> {
    vals.subrange(128 * k, 128 * k + 128)
}

/// The values of `vals`, each as a varint.
pub open spec fn varints(vals: Seq<u32>) -> Seq<u8>
    decreases vals.len(),
{
    if vals.len() == 0 {
        Seq::empty()
    } else {
        leb128(vals[0] as nat) + varints(vals.skip(1))
    }
}

/// The plain encoding of `vals`.
pub open spec fn plain_encoding(vals: Seq<u32>) -> Seq<u8>
    decreases vals.len(),
{
    if vals.len() >= 128 {
        let block = vals.subrange(0, 128);
        let bits = max_width(block) as u8;
        seq![bits] + packed(block, bits) + plain_encoding(vals.skip(128))
    } else {
        varints(vals)
    }
}

/// The steps of `vals` from `last`, each as a varint.
pub open spec fn delta_varints(vals: Seq<u32>, last: u32) -> Seq<u8>
    decreases vals.len(),
{
    if vals.len() == 0 {
        Seq::empty()
    } else {
        leb128((vals[0] - last) as nat) + delta_varints(vals.skip(1), vals[0])
    }
}

/// The sorted encoding of `vals`, which never decreases and starts at `last` or above.
pub open spec fn delta_encoding(vals: Seq<u32>, last: u32) -> Seq<u8>
    decreases vals.len(),
{
    if vals.len() >= 128 {
        let block = vals.subrange(0, 128);
        let bits = max_width(deltas(last, block)) as u8;
        seq![bits] + packed_sorted(last, block, bits) + delta_encoding(vals.skip(128), block[127])
    } else {
        delta_varints(vals, last)
    }
}

/// The number of bytes of the plain encoding of `vals`: for every full block one
/// byte for its width and sixteen bytes for each bit of the width, then the
/// varints of the tail.
pub open spec fn plain_encoding_len(vals: Seq<u32>) -> nat
    decreases vals.len(),
{
    if vals.len() >= 128 {
        1 + 16 * max_width(vals.subrange(0, 128)) + plain_encoding_len(vals.skip(128))
    } else {
        varints(vals).len()
    }
}

/// The number of bytes of the sorted encoding of `vals` from `last` on: for every
/// full block one byte for its width and sixteen bytes for each bit of the
/// width, then the varints of the steps of the tail.
pub open spec fn delta_encoding_len(vals: Seq<u32>, last: u32) -> nat
    decreases vals.len(),
{
    if vals.len() >= 128 {
        let block = vals.subrange(0, 128);
        1 + 16 * max_width(deltas(last, block)) + delta_encoding_len(vals.skip(128), block[127])
    } else {
        delta_varints(vals, last).len()
    }
}

/// `head` before what `tail` holds, where it holds anything.
pub open spec fn prepend(head: Seq<u32>, tail: Option<Seq<u32>>) -> Option<Seq<u32>> {
    match tail {
        Some(t) => Some(head + t),
        None => None,
    }
}

/// The `count` values that `bytes` begins with as varints; `None` where `bytes`
/// ends first or a varint does not fit 32 bits.
pub open spec fn varints_decoding(bytes: Seq<u8>, count: nat) -> Option<Seq<u32>>
    decreases count,
{
    if count == 0 {
        Some(Seq::empty())
    } else {
        match varint_decode(bytes) {
            Some((v, n)) => prepend(
                seq![v],
                varints_decoding(bytes.skip(n as int), (count - 1) as nat),
            ),
            None => None,
        }
    }
}

/// The `count` values that `bytes` holds in the plain encoding; `None` where
/// `bytes` ends first, a block names a bit width above 32, or a varint of the tail
/// does not fit 32 bits. Bytes past the last value are not looked at.
pub open spec fn plain_decoding(bytes: Seq<u8>, count: nat) -> Option<Seq<u32>>
    decreases count,
{
    if count >= 128 {
        if bytes.len() == 0 {
            None
        } else {
            let bits = bytes[0];
            if bits > 32 || bytes.len() < 1 + 16 * bits {
                None
            } else {
                prepend(
                    unpacked(bytes.subrange(1, 1 + 16 * bits), bits),
                    plain_decoding(bytes.skip(1 + 16 * bits), (count - 128) as nat),
                )
            }
        }
    } else {
        varints_decoding(bytes, count)
    }
}

/// The `count` values that `bytes` begins with as varint steps up from `last`;
/// `None` where `bytes` ends first, a varint does not fit 32 bits, or a sum does not.
pub open spec fn delta_varints_decoding(bytes: Seq<u8>, count: nat, last: u32) -> Option<
    Seq<u32>,
>
    decreases count,
{
    if count == 0 {
        Some(Seq::empty())
    } else {
        match varint_decode(bytes) {
            Some((d, n)) => if last + d > u32::MAX {
                None
            } else {
                prepend(
                    seq![(last + d) as u32],
                    delta_varints_decoding(
                        bytes.skip(n as int),
                        (count - 1) as nat,
                        (last + d) as u32,
                    ),
                )
            },
            None => None,
        }
    }
}

/// The `count` values that `bytes` holds in the sorted encoding, counted up from
/// `last`; `None` where `bytes` ends first, a block names a bit width above 32, or
/// the tail holds a varint or reaches a sum that does not fit 32 bits. Bytes past
/// the last value are not looked at.
pub open spec fn delta_decoding(bytes: Seq<u8>, count: nat, last: u32) -> Option<Seq<u32>>
    decreases count,
{
    if count >= 128 {
        if bytes.len() == 0 {
            None
        } else {
            let bits = bytes[0];
            if bits > 32 || bytes.len() < 1 + 16 * bits {
                None
            } else {
                let block = unpacked_sorted(last, bytes.subrange(1, 1 + 16 * bits), bits);
                prepend(
                    block,
                    delta_decoding(bytes.skip(1 + 16 * bits), (count - 128) as nat, block[127]),
                )
            }
        }
    } else {
        delta_varints_decoding(bytes, count, last)
    }
}

/// Whether unpacking undoes the packing of `block` at its own bit width.
pub open spec fn block_round_trips(block: Seq<u32>) -> bool {
    let bits = max_width(block) as u8;
    packed(block, bits).len() == 16 * bits && unpacked(packed(block, bits), bits) == block
}

/// Whether unpacking from `last` undoes the packing of the steps of `block` from `last`.
pub open spec fn sorted_block_round_trips(last: u32, block: Seq<u32>) -> bool {
    let bits = max_width(deltas(last, block)) as u8;
    packed_sorted(last, block, bits).len() == 16 * bits && unpacked_sorted(
        last,
        packed_sorted(last, block, bits),
        bits,
    ) == block
}

/// The value before the `k`-th block of `vals`: `initial` before the first.
pub open spec fn value_before(vals: Seq<u32>, k: int, initial: u32) -> u32 {
    if k == 0 {
        initial
    } else {
        vals[128 * k - 1]
    }
}

/// Whether every full block of `vals` round-trips through the plain packing.
pub open spec fn blocks_round_trip(vals: Seq<u32>) -> bool {
    forall|k: int| 0 <= k < vals.len() / 128 ==> block_round_trips(#[trigger] block_at(vals, k))
}

/// Whether every full block of `vals` round-trips through the sorted packing.
pub open spec fn sorted_blocks_round_trip(vals: Seq<u32>, initial: u32) -> bool {
    forall|k: int|
        0 <= k < vals.len() / 128 ==> sorted_block_round_trips(
            value_before(vals, k, initial),
            #[trigger] block_at(vals, k),
        )
}

/// A varint's length is counted from its first byte and stays within the bytes read.
pub proof fn lemma_scan_bound(src: Seq<u8>, i: nat)
    ensures
        varint_scan(src, i) matches Some((v, n)) ==> i < n <= src.len(),
    decreases src.len() - i,
{
    if i < src.len() && i < 9 && src[i as int] >= 128 {
        lemma_scan_bound(src, i + 1);
    }
}

/// Decoding reads a tail of varints back.
pub proof fn lemma_varints_round_trip(vals: Seq<u32>)
    ensures
        varints_decoding(varints(vals), vals.len()) == Some(vals),
    decreases vals.len(),
{
    if vals.len() > 0 {
        let rest = vals.skip(1);
        lemma_varint_round_trip(vals[0], varints(rest));
        lemma_varints_round_trip(rest);
        let n = leb128(vals[0] as nat).len();
        assert(varints(vals).skip(n as int) =~= varints(rest));
        assert(seq![vals[0]] + rest =~= vals);
    } else {
        assert(vals =~= Seq::empty());
    }
}

/// Decoding reads a tail of varint steps back.
pub proof fn lemma_delta_varints_round_trip(vals: Seq<u32>, last: u32)
    requires
        ascending_from(last, vals),
    ensures
        delta_varints_decoding(delta_varints(vals, last), vals.len(), last) == Some(vals),
    decreases vals.len(),
{
    if vals.len() > 0 {
        let rest = vals.skip(1);
        let d = (vals[0] - last) as u32;
        lemma_varint_round_trip(d, delta_varints(rest, vals[0]));
        assert(ascending_from(vals[0], rest)) by {
            assert forall|i: int, j: int| 0 <= i <= j < rest.len() implies rest[i] <= rest[j] by {
                assert(rest[i] == vals[i + 1] && rest[j] == vals[j + 1]);
            }
            if rest.len() > 0 {
                assert(rest[0] == vals[1]);
            }
        }
        lemma_delta_varints_round_trip(rest, vals[0]);
        let n = leb128(d as nat).len();
        assert(delta_varints(vals, last).skip(n as int) =~= delta_varints(rest, vals[0]));
        assert(seq![vals[0]] + rest =~= vals);
    } else {
        assert(vals =~= Seq::empty());
    }
}

/// The plain decoding of the plain encoding of `vals` is `vals`, given that the
/// packing of each block can be undone.
pub proof fn lemma_plain_round_trip(vals: Seq<u32>)
    requires
        blocks_round_trip(vals),
    ensures
        plain_decoding(plain_encoding(vals), vals.len()) == Some(vals),
    decreases vals.len(),
{
    if vals.len() >= 128 {
        let block = vals.subrange(0, 128);
        let bits = max_width(block) as u8;
        let rest = vals.skip(128);
        lemma_max_width_bound(block);
        assert(block =~= block_at(vals, 0));
        assert(block_round_trips(block));
        assert forall|k: int| 0 <= k < rest.len() / 128 implies block_round_trips(
            #[trigger] block_at(rest, k),
        ) by {
            assert(block_at(rest, k) =~= block_at(vals, k + 1));
        }
        lemma_plain_round_trip(rest);
        let enc = plain_encoding(vals);
        let body = packed(block, bits);
        assert(enc == seq![bits] + body + plain_encoding(rest));
        assert(enc[0] == bits);
        assert(enc.subrange(1, 1 + 16 * bits) =~= body);
        assert(enc.skip(1 + 16 * bits) =~= plain_encoding(rest));
        assert(block + rest =~= vals);
    } else {
        lemma_varints_round_trip(vals);
    }
}

/// The sorted decoding of the sorted encoding of `vals` is `vals`, given that the
/// packing of each block can be undone.
pub proof fn lemma_delta_round_trip(vals: Seq<u32>, last: u32)
    requires
        ascending_from(last, vals),
        sorted_blocks_round_trip(vals, last),
    ensures
        delta_decoding(delta_encoding(vals, last), vals.len(), last) == Some(vals),
    decreases vals.len(),
{
    if vals.len() >= 128 {
        let block = vals.subrange(0, 128);
        let bits = max_width(deltas(last, block)) as u8;
        let rest = vals.skip(128);
        lemma_max_width_bound(deltas(last, block));
        assert(block =~= block_at(vals, 0));
        assert(sorted_block_round_trips(value_before(vals, 0, last), block_at(vals, 0)));
        assert(block[127] == vals[127]);
        assert(ascending_from(vals[127], rest)) by {
            assert forall|i: int, j: int| 0 <= i <= j < rest.len() implies rest[i] <= rest[j] by {
                assert(rest[i] == vals[i + 128] && rest[j] == vals[j + 128]);
            }
            if rest.len() > 0 {
                assert(rest[0] == vals[128]);
            }
        }
        assert forall|k: int| 0 <= k < rest.len() / 128 implies sorted_block_round_trips(
            value_before(rest, k, vals[127]),
            #[trigger] block_at(rest, k),
        ) by {
            assert(block_at(rest, k) =~= block_at(vals, k + 1));
            assert(value_before(rest, k, vals[127]) == value_before(vals, k + 1, last)) by {
                if k > 0 {
                    assert(rest[128 * k - 1] == vals[128 * k - 1 + 128]);
                }
            }
        }
        lemma_delta_round_trip(rest, vals[127]);
        let enc = delta_encoding(vals, last);
        let body = packed_sorted(last, block, bits);
        assert(enc == seq![bits] + body + delta_encoding(rest, vals[127]));
        assert(enc[0] == bits);
        assert(enc.subrange(1, 1 + 16 * bits) =~= body);
        assert(enc.skip(1 + 16 * bits) =~= delta_encoding(rest, vals[127]));
        assert(block + rest =~= vals);
    } else {
        lemma_delta_varints_round_trip(vals, last);
    }
}

/// The blocks after the first block of `vals` round-trip where those of `vals` do.
proof fn lemma_blocks_shift(vals: Seq<u32>)
    requires
        vals.len() >= 128,
        blocks_round_trip(vals),
    ensures
        block_round_trips(vals.subrange(0, 128)),
        blocks_round_trip(vals.skip(128)),
{
    let rest = vals.skip(128);
    assert(vals.subrange(0, 128) =~= block_at(vals, 0));
    assert forall|k: int| 0 <= k < rest.len() / 128 implies block_round_trips(
        #[trigger] block_at(rest, k),
    ) by {
        assert(block_at(rest, k) =~= block_at(vals, k + 1));
    }
}

/// The blocks after the first block of `vals` round-trip from the first block's
/// last value where those of `vals` do from `last`.
proof fn lemma_sorted_blocks_shift(vals: Seq<u32>, last: u32)
    requires
        vals.len() >= 128,
        sorted_blocks_round_trip(vals, last),
    ensures
        sorted_block_round_trips(last, vals.subrange(0, 128)),
        sorted_blocks_round_trip(vals.skip(128), vals[127]),
{
    let rest = vals.skip(128);
    assert(vals.subrange(0, 128) =~= block_at(vals, 0));
    assert(sorted_block_round_trips(value_before(vals, 0, last), block_at(vals, 0)));
    assert forall|k: int| 0 <= k < rest.len() / 128 implies sorted_block_round_trips(
        value_before(rest, k, vals[127]),
        #[trigger] block_at(rest, k),
    ) by {
        assert(block_at(rest, k) =~= block_at(vals, k + 1));
        assert(value_before(rest, k, vals[127]) == value_before(vals, k + 1, last)) by {
            if k > 0 {
                assert(rest[128 * k - 1] == vals[128 * k - 1 + 128]);
            }
        }
    }
}

/// The plain encoding has the length that the widths of its blocks give, given
/// that the payload of each block has sixteen bytes for each bit of its width.
pub proof fn lemma_plain_encoding_len(vals: Seq<u32>)
    requires
        blocks_round_trip(vals),
    ensures
        plain_encoding(vals).len() == plain_encoding_len(vals),
    decreases vals.len(),
{
    if vals.len() >= 128 {
        lemma_blocks_shift(vals);
        lemma_max_width_bound(vals.subrange(0, 128));
        lemma_plain_encoding_len(vals.skip(128));
    }
}

/// The sorted encoding has the length that the widths of its blocks give, given
/// that the payload of each block has sixteen bytes for each bit of its width.
pub proof fn lemma_delta_encoding_len(vals: Seq<u32>, last: u32)
    requires
        sorted_blocks_round_trip(vals, last),
    ensures
        delta_encoding(vals, last).len() == delta_encoding_len(vals, last),
    decreases vals.len(),
{
    if vals.len() >= 128 {
        let block = vals.subrange(0, 128);
        lemma_sorted_blocks_shift(vals, last);
        lemma_max_width_bound(deltas(last, block));
        assert(block[127] == vals[127]);
        lemma_delta_encoding_len(vals.skip(128), vals[127]);
    }
}

/// Appends the plain encoding of `vals` to `w` and returns its length in bytes.
/// Decoding the bytes written gives `vals` back, and the payload of every full
/// block has sixteen bytes for each bit of the block's width.
pub fn write_u32s(vals: &[u32], w: &mut Vec<u8>) -> (n: usize)
    ensures
        final(w)@ == old(w)@ + plain_encoding(vals@),
        n == plain_encoding(vals@).len(),
        n == plain_encoding_len(vals@),
        blocks_round_trip(vals@),
        plain_decoding(plain_encoding(vals@), vals@.len()) == Some(vals@),
{
    let ghost before = w@;
    let start = w.len();
    let total = vals.len();
    let mut i: usize = 0;
    let ghost mut k: int = 0;
    proof {
        assert(vals@.skip(0) =~= vals@);
    }
    while total - i >= 128
        invariant
            i <= total,
            total == vals@.len(),
            i == 128 * k,
            before + plain_encoding(vals@) == w@ + plain_encoding(vals@.skip(i as int)),
            forall|j: int| 0 <= j < k ==> block_round_trips(#[trigger] block_at(vals@, j)),
        decreases total - i,
    {
        let block = slice_subrange(vals, i, i + 128);
        let bits = block_bits(block);
        let body = pack_block(block, bits);
        let ghost prev = w@;
        w.push(bits);
        w.extend_from_slice(body.as_slice());
        proof {
            let rest = vals@.skip(i as int);
            assert(rest.subrange(0, 128) =~= block@);
            assert(rest.skip(128) =~= vals@.skip(i + 128));
            assert(block@ =~= block_at(vals@, k));
            assert(w@ =~= prev + (seq![bits] + body@));
            assert(prev + plain_encoding(rest) =~= w@ + plain_encoding(vals@.skip(i + 128)));
            k = k + 1;
        }
        i += 128;
    }
    while i < total
        invariant
            i <= total,
            total == vals@.len(),
            total - i < 128,
            before + plain_encoding(vals@) == w@ + varints(vals@.skip(i as int)),
        decreases total - i,
    {
        let enc = encode_varint(vals[i]);
        let ghost prev = w@;
        w.extend_from_slice(enc.as_slice());
        proof {
            let rest = vals@.skip(i as int);
            assert(rest[0] == vals@[i as int]);
            assert(rest.skip(1) =~= vals@.skip(i + 1));
            assert(prev + varints(rest) =~= w@ + varints(vals@.skip(i + 1)));
        }
        i += 1;
    }
    proof {
        assert(vals@.skip(total as int) =~= Seq::empty());
        assert(w@ =~= before + plain_encoding(vals@));
        assert(k == vals@.len() / 128);
        lemma_plain_round_trip(vals@);
        lemma_plain_encoding_len(vals@);
    }
    w.len() - start
}

/// Appends the sorted encoding of `vals`, which must never decrease, to `w` and
/// returns its length in bytes. Decoding the bytes written gives `vals` back,
/// and the payload of every full block has sixteen bytes for each bit of the
/// block's width.
pub fn write_sorted_u32s(vals: &[u32], w: &mut Vec<u8>) -> (n: usize)
    requires
        ascending_from(0, vals@),
    ensures
        final(w)@ == old(w)@ + delta_encoding(vals@, 0),
        n == delta_encoding(vals@, 0).len(),
        n == delta_encoding_len(vals@, 0),
        sorted_blocks_round_trip(vals@, 0),
        delta_decoding(delta_encoding(vals@, 0), vals@.len(), 0) == Some(vals@),
{
    let ghost before = w@;
    let start = w.len();
    let total = vals.len();
    let mut i: usize = 0;
    let mut last: u32 = 0;
    let ghost mut k: int = 0;
    proof {
        assert(vals@.skip(0) =~= vals@);
    }
    while total - i >= 128
        invariant
            i <= total,
            total == vals@.len(),
            i == 128 * k,
            last == value_before(vals@, k, 0),
            ascending_from(0, vals@),
            ascending_from(last, vals@.skip(i as int)),
            before + delta_encoding(vals@, 0) == w@ + delta_encoding(vals@.skip(i as int), last),
            forall|j: int|
                0 <= j < k ==> sorted_block_round_trips(
                    value_before(vals@, j, 0),
                    #[trigger] block_at(vals@, j),
                ),
        decreases total - i,
    {
        let block = slice_subrange(vals, i, i + 128);
        proof {
            let rest = vals@.skip(i as int);
            assert(block@ =~= rest.subrange(0, 128));
            assert(ascending_from(last, block@)) by {
                assert(block@[0] == rest[0]);
                assert forall|a: int, b: int| 0 <= a <= b < block@.len() implies block@[a]
                    <= block@[b] by {
                    assert(block@[a] == rest[a] && block@[b] == rest[b]);
                }
            }
        }
        let bits = sorted_block_bits(last, block);
        let body = pack_sorted_block(last, block, bits);
        let ghost prev = w@;
        w.push(bits);
        w.extend_from_slice(body.as_slice());
        let next = vals[i + 127];
        proof {
            let rest = vals@.skip(i as int);
            let after = vals@.skip(i + 128);
            assert(rest.skip(128) =~= after);
            assert(block@ =~= block_at(vals@, k));
            assert(block@[127] == next);
            assert(w@ =~= prev + (seq![bits] + body@));
            assert(prev + delta_encoding(rest, last) =~= w@ + delta_encoding(after, next));
            assert(ascending_from(next, after)) by {
                assert forall|a: int, b: int| 0 <= a <= b < after.len() implies after[a]
                    <= after[b] by {
                    assert(after[a] == vals@[a + i + 128] && after[b] == vals@[b + i + 128]);
                }
                if after.len() > 0 {
                    assert(after[0] == vals@[i + 128]);
                }
            }
            k = k + 1;
        }
        last = next;
        i += 128;
    }
    while i < total
        invariant
            i <= total,
            total == vals@.len(),
            total - i < 128,
            ascending_from(last, vals@.skip(i as int)),
            before + delta_encoding(vals@, 0) == w@ + delta_varints(vals@.skip(i as int), last),
        decreases total - i,
    {
        let v = vals[i];
        proof {
            assert(vals@.skip(i as int)[0] == v);
        }
        let enc = encode_varint(v - last);
        let ghost prev = w@;
        w.extend_from_slice(enc.as_slice());
        proof {
            let rest = vals@.skip(i as int);
            let after = vals@.skip(i + 1);
            assert(rest.skip(1) =~= after);
            assert(prev + delta_varints(rest, last) =~= w@ + delta_varints(after, v));
            assert(ascending_from(v, after)) by {
                assert forall|a: int, b: int| 0 <= a <= b < after.len() implies after[a]
                    <= after[b] by {
                    assert(after[a] == rest[a + 1] && after[b] == rest[b + 1]);
                }
                if after.len() > 0 {
                    assert(after[0] == rest[1]);
                }
            }
        }
        last = v;
        i += 1;
    }
    proof {
        assert(vals@.skip(total as int) =~= Seq::empty());
        assert(w@ =~= before + delta_encoding(vals@, 0));
        assert(k == vals@.len() / 128);
        lemma_delta_round_trip(vals@, 0);
        lemma_delta_encoding_len(vals@, 0);
    }
    w.len() - start
}

/// Reads `count` values in the plain encoding from the front of `bytes`.
pub fn read_u32s(bytes: &[u8], count: usize) -> (r: Result<Vec<u32>, IndexError>)
    ensures
        match r {
            Ok(vals) => plain_decoding(bytes@, count as nat) == Some(vals@) && vals@.len() == count,
            Err(e) => e == IndexError::CorruptStream && plain_decoding(bytes@, count as nat)
                is None,
        },
{
    let mut out: Vec<u32> = Vec::new();
    let mut pos: usize = 0;
    let mut left: usize = count;
    proof {
        assert(bytes@.skip(0) =~= bytes@);
        let all = plain_decoding(bytes@, count as nat);
        if all is Some {
            assert(out@ + all->0 =~= all->0);
        }
    }
    while left >= 128
        invariant
            pos <= bytes@.len(),
            out@.len() + left == count,
            plain_decoding(bytes@, count as nat) == prepend(
                out@,
                plain_decoding(bytes@.skip(pos as int), left as nat),
            ),
        decreases left,
    {
        if pos >= bytes.len() {
            return Err(IndexError::CorruptStream);
        }
        let bits = bytes[pos];
        proof {
            assert(bytes@.skip(pos as int)[0] == bits);
        }
        if bits > 32 {
            return Err(IndexError::CorruptStream);
        }
        let width: usize = 16 * (bits as usize);
        if bytes.len() - pos - 1 < width {
            return Err(IndexError::CorruptStream);
        }
        let chunk = slice_subrange(bytes, pos + 1, pos + 1 + width);
        let mut block = unpack_block(chunk, bits);
        let ghost prev = out@;
        let ghost unpacked_block = block@;
        out.append(&mut block);
        proof {
            let rest = bytes@.skip(pos as int);
            assert(rest.subrange(1, 1 + 16 * bits) =~= chunk@);
            assert(rest.skip(1 + 16 * bits) =~= bytes@.skip(pos + 1 + width));
            let tail = plain_decoding(bytes@.skip(pos + 1 + width), (left - 128) as nat);
            assert(plain_decoding(rest, left as nat) == prepend(unpacked_block, tail));
            if tail is Some {
                assert(prev + (unpacked_block + tail->0) =~= out@ + tail->0);
            }
        }
        pos = pos + 1 + width;
        left -= 128;
    }
    while left > 0
        invariant
            pos <= bytes@.len(),
            left < 128,
            out@.len() + left == count,
            plain_decoding(bytes@, count as nat) == prepend(
                out@,
                varints_decoding(bytes@.skip(pos as int), left as nat),
            ),
        decreases left,
    {
        let tail_bytes = slice_subrange(bytes, pos, bytes.len());
        proof {
            assert(tail_bytes@ =~= bytes@.skip(pos as int));
            lemma_scan_bound(tail_bytes@, 0);
        }
        match decode_varint(tail_bytes) {
            Some((v, n)) => {
                let ghost prev = out@;
                out.push(v);
                proof {
                    let rest = bytes@.skip(pos as int);
                    assert(rest.skip(n as int) =~= bytes@.skip(pos + n));
                    let tail = varints_decoding(bytes@.skip(pos + n), (left - 1) as nat);
                    if tail is Some {
                        assert(prev + (seq![v] + tail->0) =~= out@ + tail->0);
                    }
                }
                pos = pos + n;
                left -= 1;
            },
            None => {
                return Err(IndexError::CorruptStream);
            },
        }
    }
    proof {
        assert(out@ + Seq::<u32>::empty() =~= out@);
    }
    Ok(out)
}

/// Reads `count` values in the sorted encoding from the front of `bytes`.
pub fn read_sorted_u32s(bytes: &[u8], count: usize) -> (r: Result<Vec<u32>, IndexError>)
    ensures
        match r {
            Ok(vals) => delta_decoding(bytes@, count as nat, 0) == Some(vals@) && vals@.len()
                == count,
            Err(e) => e == IndexError::CorruptStream && delta_decoding(bytes@, count as nat, 0)
                is None,
        },
{
    let mut out: Vec<u32> = Vec::new();
    let mut pos: usize = 0;
    let mut left: usize = count;
    let mut last: u32 = 0;
    proof {
        assert(bytes@.skip(0) =~= bytes@);
        let all = delta_decoding(bytes@, count as nat, 0);
        if all is Some {
            assert(out@ + all->0 =~= all->0);
        }
    }
    while left >= 128
        invariant
            pos <= bytes@.len(),
            out@.len() + left == count,
            delta_decoding(bytes@, count as nat, 0) == prepend(
                out@,
                delta_decoding(bytes@.skip(pos as int), left as nat, last),
            ),
        decreases left,
    {
        if pos >= bytes.len() {
            return Err(IndexError::CorruptStream);
        }
        let bits = bytes[pos];
        proof {
            assert(bytes@.skip(pos as int)[0] == bits);
        }
        if bits > 32 {
            return Err(IndexError::CorruptStream);
        }
        let width: usize = 16 * (bits as usize);
        if bytes.len() - pos - 1 < width {
            return Err(IndexError::CorruptStream);
        }
        let chunk = slice_subrange(bytes, pos + 1, pos + 1 + width);
        let mut block = unpack_sorted_block(last, chunk, bits);
        let next = block[127];
        let ghost prev = out@;
        let ghost unpacked_block = block@;
        out.append(&mut block);
        proof {
            let rest = bytes@.skip(pos as int);
            assert(rest.subrange(1, 1 + 16 * bits) =~= chunk@);
            assert(rest.skip(1 + 16 * bits) =~= bytes@.skip(pos + 1 + width));
            let tail = delta_decoding(bytes@.skip(pos + 1 + width), (left - 128) as nat, next);
            assert(delta_decoding(rest, left as nat, last) == prepend(unpacked_block, tail));
            if tail is Some {
                assert(prev + (unpacked_block + tail->0) =~= out@ + tail->0);
            }
        }
        last = next;
        pos = pos + 1 + width;
        left -= 128;
    }
    while left > 0
        invariant
            pos <= bytes@.len(),
            left < 128,
            out@.len() + left == count,
            delta_decoding(bytes@, count as nat, 0) == prepend(
                out@,
                delta_varints_decoding(bytes@.skip(pos as int), left as nat, last),
            ),
        decreases left,
    {
        let tail_bytes = slice_subrange(bytes, pos, bytes.len());
        proof {
            assert(tail_bytes@ =~= bytes@.skip(pos as int));
            lemma_scan_bound(tail_bytes@, 0);
        }
        match decode_varint(tail_bytes) {
            Some((d, n)) => {
                match last.checked_add(d) {
                    Some(v) => {
                        let ghost prev = out@;
                        out.push(v);
                        proof {
                            let rest = bytes@.skip(pos as int);
                            assert(rest.skip(n as int) =~= bytes@.skip(pos + n));
                            let tail = delta_varints_decoding(
                                bytes@.skip(pos + n),
                                (left - 1) as nat,
                                v,
                            );
                            if tail is Some {
                                assert(prev + (seq![v] + tail->0) =~= out@ + tail->0);
                            }
                        }
                        last = v;
                        pos = pos + n;
                        left -= 1;
                    },
                    None => {
                        return Err(IndexError::CorruptStream);
                    },
                }
            },
            None => {
                return Err(IndexError::CorruptStream);
            },
        }
    }
    proof {
        assert(out@ + Seq::<u32>::empty() =~= out@);
    }
    Ok(out)
}

} // verus!
