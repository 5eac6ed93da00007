//! Blocks of 128 integers, bit-packed by the `bitpacking` crate.
//!
//! The layout of a packed block is the crate's own. Nothing here says what the
//! bytes are: the packed and the unpacked form of a block each get a name, and
//! the contracts below say how long they are and that unpacking undoes packing.

use bitpacking::{BitPacker, BitPacker4x};
use vstd::prelude::*;

verus! {

/// The number of integers in a block. Part of the file format.
pub const BLOCK_LEN: usize = 128;

/// The number of bits that `v` takes: the least `b` with `v < 2^b`.
pub open spec fn bit_width(v: nat) -> nat
    decreases v,
{
    if v == 0 {
        0
    } else {
        1 + bit_width(v / 2)
    }
}

/// The greatest bit width among `vals`; zero where there are none.
pub open spec fn max_width(vals: Seq<u32>) -> nat
    decreases vals.len(),
{
    if vals.len() == 0 {
        0
    } else {
        let rest = max_width(vals.drop_last());
        let here = bit_width(vals.last() as nat);
        if here > rest {
            here
        } else {
            rest
        }
    }
}

/// Whether `vals` never decreases and starts at `initial` or above.
pub open spec fn ascending_from(initial: u32, vals: Seq<u32>) -> bool {
    &&& vals.len() > 0 ==> initial <= vals[0]
    &&& forall|i: int, j: int| 0 <= i <= j < vals.len() ==> vals[i] <= vals[j]
}

/// The steps of `vals`: each value less the one before it, the first less `initial`.
pub open spec fn deltas(initial: u32, vals: Seq<u32>) -> Seq<u32> {
    Seq::new(
        vals.len(),
        |i: int|
            if i == 0 {
                (vals[0] - initial) as u32
            } else {
                (vals[i] - vals[i - 1]) as u32
            },
    )
}

/// The bytes that `BitPacker4x::compress` writes for `block` at `num_bits` bits a value.
pub uninterp spec fn packed(block: Seq<u32>, num_bits: u8) -> Seq<u8>;

/// The integers that `BitPacker4x::decompress` reads from `bytes` at `num_bits` bits a value.
pub uninterp spec fn unpacked(bytes: Seq<u8>, num_bits: u8) -> Seq<u32>;

/// The bytes that `BitPacker4x::compress_sorted` writes for the steps of `block` from `initial`.
pub uninterp spec fn packed_sorted(initial: u32, block: Seq<u32>, num_bits: u8) -> Seq<u8>;

/// The integers that `BitPacker4x::decompress_sorted` reads from `bytes`, summing the
/// steps up from `initial`.
pub uninterp spec fn unpacked_sorted(initial: u32, bytes: Seq<u8>, num_bits: u8) -> Seq<u32>;

/// `BitPacker4x::num_bits`: the bit width of the largest value of a block of 128,
/// which is at most 32.
#[verifier::external_body]
pub(crate) fn block_bits(block: &[u32]) -> (bits: u8)
    requires
        block@.len() == BLOCK_LEN,
    ensures
        bits == max_width(block@),
        bits <= 32,
{
    BitPacker4x::new().num_bits(block)
}

/// `BitPacker4x::compress`: packs a block of 128 values, each of which fits
/// `num_bits` bits, into `16 * num_bits` bytes, from which `decompress` at the same
/// width reads the block back.
#[verifier::external_body]
pub(crate) fn pack_block(block: &[u32], num_bits: u8) -> (out: Vec<u8>)
    requires
        block@.len() == BLOCK_LEN,
        num_bits <= 32,
        max_width(block@) <= num_bits,
    ensures
        out@ == packed(block@, num_bits),
        out@.len() == 16 * num_bits,
        unpacked(out@, num_bits) == block@,
{
    let mut out = vec![0u8; BitPacker4x::compressed_block_size(num_bits)];
    BitPacker4x::new().compress(block, &mut out, num_bits);
    out
}

/// `BitPacker4x::decompress`: reads 128 values of `num_bits` bits each from
/// `16 * num_bits` bytes.
#[verifier::external_body]
pub(crate) fn unpack_block(bytes: &[u8], num_bits: u8) -> (out: Vec<u32>)
    requires
        num_bits <= 32,
        bytes@.len() == 16 * num_bits,
    ensures
        out@ == unpacked(bytes@, num_bits),
        out@.len() == BLOCK_LEN,
{
    let mut out = vec![0u32; BitPacker4x::BLOCK_LEN];
    BitPacker4x::new().decompress(bytes, &mut out, num_bits);
    out
}

/// `BitPacker4x::num_bits_sorted`: the bit width of the largest step of a
/// never-decreasing block of 128 that starts at `initial` or above.
#[verifier::external_body]
pub(crate) fn sorted_block_bits(initial: u32, block: &[u32]) -> (bits: u8)
    requires
        block@.len() == BLOCK_LEN,
        ascending_from(initial, block@),
    ensures
        bits == max_width(deltas(initial, block@)),
        bits <= 32,
{
    BitPacker4x::new().num_bits_sorted(initial, block)
}

/// `BitPacker4x::compress_sorted`: packs the steps of a never-decreasing block of
/// 128, each of which fits `num_bits` bits, into `16 * num_bits` bytes, from which
/// `decompress_sorted` with the same `initial` and width reads the block back.
#[verifier::external_body]
pub(crate) fn pack_sorted_block(initial: u32, block: &[u32], num_bits: u8) -> (out: Vec<u8>)
    requires
        block@.len() == BLOCK_LEN,
        num_bits <= 32,
        ascending_from(initial, block@),
        max_width(deltas(initial, block@)) <= num_bits,
    ensures
        out@ == packed_sorted(initial, block@, num_bits),
        out@.len() == 16 * num_bits,
        unpacked_sorted(initial, out@, num_bits) == block@,
{
    let mut out = vec![0u8; BitPacker4x::compressed_block_size(num_bits)];
    BitPacker4x::new().compress_sorted(initial, block, &mut out, num_bits);
    out
}

/// `BitPacker4x::decompress_sorted`: reads 128 steps of `num_bits` bits each from
/// `16 * num_bits` bytes and sums them up from `initial`.
#[verifier::external_body]
pub(crate) fn unpack_sorted_block(initial: u32, bytes: &[u8], num_bits: u8) -> (out: Vec<u32>)
    requires
        num_bits <= 32,
        bytes@.len() == 16 * num_bits,
    ensures
        out@ == unpacked_sorted(initial, bytes@, num_bits),
        out@.len() == BLOCK_LEN,
{
    let mut out = vec![0u32; BitPacker4x::BLOCK_LEN];
    BitPacker4x::new().decompress_sorted(initial, bytes, &mut out, num_bits);
    out
}

/// The greatest width among `vals` is `w` where no value is wider and, unless
/// there are no values and `w` is zero, some value is that wide.
pub proof fn lemma_max_width_is(vals: Seq<u32>, w: nat)
    requires
        forall|i: int| 0 <= i < vals.len() ==> bit_width(#[trigger] vals[i] as nat) <= w,
        w == 0 || exists|i: int| 0 <= i < vals.len() && bit_width(#[trigger] vals[i] as nat) == w,
    ensures
        max_width(vals) == w,
    decreases vals.len(),
{
    if vals.len() > 0 {
        let rest = vals.drop_last();
        assert(forall|i: int| 0 <= i < rest.len() ==> rest[i] == vals[i]);
        if w > 0 && bit_width(vals.last() as nat) < w {
            let i = choose|i: int|
                0 <= i < vals.len() && bit_width(#[trigger] vals[i] as nat) == w;
            assert(bit_width(rest[i] as nat) == w);
            lemma_max_width_is(rest, w);
        } else {
            lemma_max_width_most(rest, w);
        }
    }
}

/// The greatest width among `vals` is at most `w` where no value is wider.
pub proof fn lemma_max_width_most(vals: Seq<u32>, w: nat)
    requires
        forall|i: int| 0 <= i < vals.len() ==> bit_width(#[trigger] vals[i] as nat) <= w,
    ensures
        max_width(vals) <= w,
    decreases vals.len(),
{
    if vals.len() > 0 {
        let rest = vals.drop_last();
        assert(forall|i: int| 0 <= i < rest.len() ==> rest[i] == vals[i]);
        lemma_max_width_most(rest, w);
    }
}

/// A value below `2^k` takes at most `k` bits.
pub proof fn lemma_bit_width_bound(v: nat, k: nat)
    requires
        v < vstd::arithmetic::power2::pow2(k),
    ensures
        bit_width(v) <= k,
    decreases v,
{
    if v != 0 {
        if k == 0 {
            vstd::arithmetic::power2::lemma2_to64();
        } else {
            vstd::arithmetic::power2::lemma_pow2_unfold(k);
            lemma_bit_width_bound(v / 2, (k - 1) as nat);
        }
    }
}

/// No block of 32-bit values needs more than 32 bits a value.
pub proof fn lemma_max_width_bound(vals: Seq<u32>)
    ensures
        max_width(vals) <= 32,
{
    assert forall|i: int| 0 <= i < vals.len() implies bit_width(#[trigger] vals[i] as nat)
        <= 32 by {
        vstd::arithmetic::power2::lemma2_to64();
        lemma_bit_width_bound(vals[i] as nat, 32);
    }
    lemma_max_width_most(vals, 32);
}

} // verus!
