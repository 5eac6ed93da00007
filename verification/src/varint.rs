//! Variable-length integers: unsigned LEB128, seven bits a byte, low bits first,
//! the top bit set on every byte but the last. Written and read by the
//! `integer-encoding` crate.

use integer_encoding::VarInt;
use vstd::prelude::*;

verus! {

/// The varint form of `n`.
pub open spec fn leb128(n: nat) -> Seq<u8>
    decreases n,
{
    if n < 128 {
        seq![n as u8]
    } else {
        seq![(128 + n % 128) as u8] + leb128(n / 128)
    }
}

/// `128^i`.
pub open spec fn pow128(i: nat) -> nat
    decreases i,
{
    if i == 0 {
        1
    } else {
        128 * pow128((i - 1) as nat)
    }
}

/// What the bytes of `src` from index `i` on add to a varint that began at index 0,
/// and the index just past its last byte; `None` where `src` ends first. A tenth
/// byte ends the varint and may hold one bit only.
pub open spec fn varint_scan(src: Seq<u8>, i: nat) -> Option<(nat, nat)>
    decreases src.len() - i,
{
    if i >= src.len() {
        None
    } else if i >= 9 {
        if src[i as int] < 2 {
            Some((src[i as int] as nat * pow128(i), i + 1))
        } else {
            None
        }
    } else if src[i as int] < 128 {
        Some((src[i as int] as nat * pow128(i), i + 1))
    } else {
        match varint_scan(src, i + 1) {
            Some((v, n)) => Some((((src[i as int] - 128) * pow128(i) + v) as nat, n)),
            None => None,
        }
    }
}

/// The 32-bit value of the varint at the front of `src`, and its length in bytes;
/// `None` where `src` ends inside it or the value does not fit 32 bits.
pub open spec fn varint_decode(src: Seq<u8>) -> Option<(u32, nat)> {
    match varint_scan(src, 0) {
        Some((v, n)) => if v <= u32::MAX {
            Some((v as u32, n))
        } else {
            None
        },
        None => None,
    }
}

/// `VarInt::encode_var_vec` on a `u32`: the varint form of `v`.
#[verifier::external_body]
pub(crate) fn encode_varint(v: u32) -> (out: Vec<u8>)
    ensures
        out@ == leb128(v as nat),
{
    v.encode_var_vec()
}

/// `VarInt::decode_var` on a `u32`: the value of the varint at the front of `src`
/// and the number of bytes it takes, where there is one that fits 32 bits.
#[verifier::external_body]
pub(crate) fn decode_varint(src: &[u8]) -> (r: Option<(u32, usize)>)
    ensures
        match r {
            Some((v, n)) => varint_decode(src@) == Some((v, n as nat)),
            None => varint_decode(src@) is None,
        },
{
    u32::decode_var(src)
}

/// Scanning reads a varint back, whatever follows it, while it ends within nine bytes.
proof fn lemma_scan_leb128(front: Seq<u8>, n: nat, rest: Seq<u8>)
    requires
        front.len() < 9,
        n < pow128((9 - front.len()) as nat),
    ensures
        varint_scan(front + leb128(n) + rest, front.len()) == Some(
            (n * pow128(front.len()), front.len() + leb128(n).len()),
        ),
    decreases n,
{
    let i = front.len();
    let src = front + leb128(n) + rest;
    if n < 128 {
        assert(src[i as int] == n as u8);
    } else {
        let b = (128 + n % 128) as u8;
        assert(src[i as int] == b);
        let front2 = front.push(b);
        assert(src =~= front2 + leb128(n / 128) + rest);
        assert(pow128((9 - i) as nat) == 128 * pow128((8 - i) as nat));
        assert(i < 8) by {
            if i == 8 {
                assert(pow128(1) == 128 * pow128(0));
            }
        }
        lemma_scan_leb128(front2, n / 128, rest);
        assert(pow128(i + 1) == 128 * pow128(i));
        assert((n % 128) * pow128(i) + (n / 128) * (128 * pow128(i)) == n * pow128(i))
            by (nonlinear_arith)
            requires
                true,
        ;
    }
}

/// Decoding reads a 32-bit varint back, whatever follows it.
pub proof fn lemma_varint_round_trip(v: u32, rest: Seq<u8>)
    ensures
        varint_decode(leb128(v as nat) + rest) == Some((v, leb128(v as nat).len())),
{
    reveal_with_fuel(pow128, 10);
    assert(pow128(9) > u32::MAX);
    let empty = Seq::<u8>::empty();
    let src = leb128(v as nat) + rest;
    lemma_scan_leb128(empty, v as nat, rest);
    assert(empty + leb128(v as nat) + rest =~= src);
    assert(pow128(0) == 1);
    assert((v as nat) * pow128(0) == v as nat);
    assert(varint_scan(src, 0) == Some((v as nat, leb128(v as nat).len())));
}

} // verus!
