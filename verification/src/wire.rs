//! Fixed-width integers as bytes, least or most significant byte first, written
//! and read by the `byteorder` crate.

use byteorder::{BigEndian, ByteOrder, LittleEndian, WriteBytesExt};
use vstd::prelude::*;

verus! {

/// `256^n`.
pub open spec fn pow256(n: nat) -> nat
    decreases n,
{
    if n == 0 {
        1
    } else {
        256 * pow256((n - 1) as nat)
    }
}

/// The low `n` bytes of `v`, least significant first.
pub open spec fn le_bytes(v: nat, n: nat) -> Seq<u8>
    decreases n,
{
    if n == 0 {
        Seq::empty()
    } else {
        seq![(v % 256) as u8] + le_bytes(v / 256, (n - 1) as nat)
    }
}

/// The number that `b` holds, least significant byte first.
pub open spec fn le_value(b: Seq<u8>) -> nat
    decreases b.len(),
{
    if b.len() == 0 {
        0
    } else {
        b[0] as nat + 256 * le_value(b.skip(1))
    }
}

/// The low `n` bytes of `v`, most significant first.
pub open spec fn be_bytes(v: nat, n: nat) -> Seq<u8>
    decreases n,
{
    if n == 0 {
        Seq::empty()
    } else {
        be_bytes(v / 256, (n - 1) as nat).push((v % 256) as u8)
    }
}

/// The number that `b` holds, most significant byte first.
pub open spec fn be_value(b: Seq<u8>) -> nat
    decreases b.len(),
{
    if b.len() == 0 {
        0
    } else {
        256 * be_value(b.drop_last()) + b.last() as nat
    }
}

/// `n` bytes are `n` bytes.
pub proof fn lemma_le_bytes_len(v: nat, n: nat)
    ensures
        le_bytes(v, n).len() == n,
    decreases n,
{
    if n > 0 {
        lemma_le_bytes_len(v / 256, (n - 1) as nat);
    }
}

/// The bytes of a number that fits them hold that number.
pub proof fn lemma_le_round_trip(v: nat, n: nat)
    requires
        v < pow256(n),
    ensures
        le_value(le_bytes(v, n)) == v,
        le_bytes(v, n).len() == n,
    decreases n,
{
    lemma_le_bytes_len(v, n);
    if n > 0 {
        let b = le_bytes(v, n);
        let rest = le_bytes(v / 256, (n - 1) as nat);
        lemma_le_bytes_len(v / 256, (n - 1) as nat);
        lemma_le_round_trip(v / 256, (n - 1) as nat);
        assert(b.skip(1) =~= rest);
        assert(b[0] == (v % 256) as u8);
    }
}

/// `n` bytes are `n` bytes.
pub proof fn lemma_be_bytes_len(v: nat, n: nat)
    ensures
        be_bytes(v, n).len() == n,
    decreases n,
{
    if n > 0 {
        lemma_be_bytes_len(v / 256, (n - 1) as nat);
    }
}

/// The bytes of a number that fits them hold that number.
pub proof fn lemma_be_round_trip(v: nat, n: nat)
    requires
        v < pow256(n),
    ensures
        be_value(be_bytes(v, n)) == v,
        be_bytes(v, n).len() == n,
    decreases n,
{
    lemma_be_bytes_len(v, n);
    if n > 0 {
        let b = be_bytes(v, n);
        let rest = be_bytes(v / 256, (n - 1) as nat);
        lemma_be_round_trip(v / 256, (n - 1) as nat);
        assert(b.drop_last() =~= rest);
        assert(b.last() == (v % 256) as u8);
    }
}

/// The values of `256^n` for the widths in use.
pub proof fn lemma_pow256_values()
    ensures
        pow256(2) == 0x1_0000,
        pow256(3) == 0x100_0000,
        pow256(4) == 0x1_0000_0000,
        pow256(8) == 0x1_0000_0000_0000_0000,
{
    reveal_with_fuel(pow256, 9);
}

/// `WriteBytesExt::write_u32::<LittleEndian>` on a vector: appends the four bytes
/// of `v`, least significant first.
#[verifier::external_body]
pub(crate) fn put_u32_le(w: &mut Vec<u8>, v: u32)
    ensures
        final(w)@ == old(w)@ + le_bytes(v as nat, 4),
{
    let _ = w.write_u32::<LittleEndian>(v);
}

/// `WriteBytesExt::write_u64::<LittleEndian>` on a vector: appends the eight bytes
/// of `v`, least significant first.
#[verifier::external_body]
pub(crate) fn put_u64_le(w: &mut Vec<u8>, v: u64)
    ensures
        final(w)@ == old(w)@ + le_bytes(v as nat, 8),
{
    let _ = w.write_u64::<LittleEndian>(v);
}

/// `LittleEndian::read_u32`: the number in the first four bytes of `buf`, least
/// significant first.
#[verifier::external_body]
pub(crate) fn get_u32_le(buf: &[u8]) -> (v: u32)
    requires
        buf@.len() >= 4,
    ensures
        v == le_value(buf@.subrange(0, 4)),
{
    LittleEndian::read_u32(buf)
}

/// `LittleEndian::read_u64`: the number in the first eight bytes of `buf`, least
/// significant first.
#[verifier::external_body]
pub(crate) fn get_u64_le(buf: &[u8]) -> (v: u64)
    requires
        buf@.len() >= 8,
    ensures
        v == le_value(buf@.subrange(0, 8)),
{
    LittleEndian::read_u64(buf)
}

/// `WriteBytesExt::write_u16::<BigEndian>` on a vector: appends the two bytes of
/// `v`, most significant first.
#[verifier::external_body]
pub(crate) fn put_u16_be(w: &mut Vec<u8>, v: u16)
    ensures
        final(w)@ == old(w)@ + be_bytes(v as nat, 2),
{
    let _ = w.write_u16::<BigEndian>(v);
}

/// `WriteBytesExt::write_u32::<BigEndian>` on a vector: appends the four bytes of
/// `v`, most significant first.
#[verifier::external_body]
pub(crate) fn put_u32_be(w: &mut Vec<u8>, v: u32)
    ensures
        final(w)@ == old(w)@ + be_bytes(v as nat, 4),
{
    let _ = w.write_u32::<BigEndian>(v);
}

/// `WriteBytesExt::write_u64::<BigEndian>` on a vector: appends the eight bytes of
/// `v`, most significant first.
#[verifier::external_body]
pub(crate) fn put_u64_be(w: &mut Vec<u8>, v: u64)
    ensures
        final(w)@ == old(w)@ + be_bytes(v as nat, 8),
{
    let _ = w.write_u64::<BigEndian>(v);
}

/// `BigEndian::read_u16`: the number in the first two bytes of `buf`, most
/// significant first.
#[verifier::external_body]
pub(crate) fn get_u16_be(buf: &[u8]) -> (v: u16)
    requires
        buf@.len() >= 2,
    ensures
        v == be_value(buf@.subrange(0, 2)),
{
    BigEndian::read_u16(buf)
}

/// `BigEndian::read_u32`: the number in the first four bytes of `buf`, most
/// significant first.
#[verifier::external_body]
pub(crate) fn get_u32_be(buf: &[u8]) -> (v: u32)
    requires
        buf@.len() >= 4,
    ensures
        v == be_value(buf@.subrange(0, 4)),
{
    BigEndian::read_u32(buf)
}

/// `BigEndian::read_u64`: the number in the first eight bytes of `buf`, most
/// significant first.
#[verifier::external_body]
pub(crate) fn get_u64_be(buf: &[u8]) -> (v: u64)
    requires
        buf@.len() >= 8,
    ensures
        v == be_value(buf@.subrange(0, 8)),
{
    BigEndian::read_u64(buf)
}

} // verus!
