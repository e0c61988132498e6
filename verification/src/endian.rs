//! Big-endian integers in byte strings.
//!
//! The spec functions say what a byte string means as a number; the
//! functions at the end hand the reading and writing to the `byteorder`
//! crate, and their contracts are taken on trust.
use vstd::prelude::*;
use byteorder::{BigEndian, ByteOrder};

verus! {

/// 256 to the power `n`, for the widths up to eight bytes.
pub open spec fn pow256(n: nat) -> nat {
    if n == 0 {
        1
    } else if n == 1 {
        0x100
    } else if n == 2 {
        0x1_0000
    } else if n == 3 {
        0x100_0000
    } else if n == 4 {
        0x1_0000_0000
    } else if n == 5 {
        0x100_0000_0000
    } else if n == 6 {
        0x1_0000_0000_0000
    } else if n == 7 {
        0x100_0000_0000_0000
    } else {
        0x1_0000_0000_0000_0000
    }
}

/// The `n` low base-256 digits of `v`, most significant first.
pub open spec fn be_bytes(v: nat, n: nat) -> Seq<u8>
    decreases n,
{
    if n == 0 {
        Seq::empty()
    } else {
        be_bytes(v / 256, (n - 1) as nat).push((v % 256) as u8)
    }
}

/// The number that `bytes` spell in base 256, most significant first.
pub open spec fn be_value(bytes: Seq<u8>) -> nat
    decreases bytes.len(),
{
    if bytes.len() == 0 {
        0
    } else {
        be_value(bytes.drop_last()) * 256 + bytes.last() as nat
    }
}

/// The number that `bytes` spell in two's complement: `be_value`, less
/// 256^len where the first byte has its high bit set.
pub open spec fn be_signed(bytes: Seq<u8>) -> int {
    if bytes.len() > 0 && bytes[0] >= 128 {
        be_value(bytes) - pow256(bytes.len())
    } else {
        be_value(bytes) as int
    }
}

/// The `n`-byte two's complement of `v`, big-endian.
pub open spec fn signed_bytes(v: int, n: nat) -> Seq<u8> {
    be_bytes((if v < 0 { v + pow256(n) } else { v }) as nat, n)
}

/// `be_bytes(v, n)` has `n` bytes.
pub proof fn lemma_be_bytes_len(v: nat, n: nat)
    ensures
        be_bytes(v, n).len() == n,
    decreases n,
{
    if n > 0 {
        lemma_be_bytes_len(v / 256, (n - 1) as nat);
    }
}

/// The bytes of a number that fits in `n` digits spell that number, and the
/// first byte has its high bit set exactly when the number is in the upper
/// half of the `n`-byte range.
pub proof fn lemma_be_round_trip(v: nat, n: nat)
    requires
        n <= 8,
        v < pow256(n),
    ensures
        be_value(be_bytes(v, n)) == v,
        n > 0 ==> (be_bytes(v, n)[0] >= 128 <==> 2 * v >= pow256(n)),
    decreases n,
{
    if n > 0 {
        let m = (n - 1) as nat;
        let front = be_bytes(v / 256, m);
        lemma_be_bytes_len(v / 256, m);
        lemma_be_round_trip(v / 256, m);
        let all = front.push((v % 256) as u8);
        assert(all.drop_last() =~= front);
        assert(all.last() == (v % 256) as u8);
        if m > 0 {
            assert(all[0] == front[0]);
        }
    }
}

/// A number in the signed `n`-byte range comes back from its `n`-byte
/// two's complement.
pub proof fn lemma_signed_round_trip(v: int, n: nat)
    requires
        1 <= n <= 8,
        -(pow256(n) as int) <= 2 * v < pow256(n),
    ensures
        signed_bytes(v, n).len() == n,
        be_signed(signed_bytes(v, n)) == v,
{
    let u = (if v < 0 { v + pow256(n) } else { v }) as nat;
    lemma_be_bytes_len(u, n);
    lemma_be_round_trip(u, n);
}

/// The number that a byte string spells is below 256^len.
pub proof fn lemma_be_value_bound(bytes: Seq<u8>)
    requires
        bytes.len() <= 8,
    ensures
        be_value(bytes) < pow256(bytes.len()),
    decreases bytes.len(),
{
    if bytes.len() > 0 {
        lemma_be_value_bound(bytes.drop_last());
    }
}

/// The two bytes of `value`, most significant first, as `byteorder`'s
/// `BigEndian::write_u16` lays them into a fresh buffer.
#[verifier::external_body]
pub(crate) fn u16_to_bytes(value: u16) -> (buf: Vec<u8>)
    ensures
        buf@ == be_bytes(value as nat, 2),
{
    let mut buf = vec![0; 2];
    BigEndian::write_u16(&mut buf, value);
    buf
}

/// The eight bytes of `value`, most significant first, as `byteorder`'s
/// `BigEndian::write_u64` lays them into a fresh buffer.
#[verifier::external_body]
pub(crate) fn u64_to_bytes(value: u64) -> (buf: Vec<u8>)
    ensures
        buf@ == be_bytes(value as nat, 8),
{
    let mut buf = vec![0; 8];
    BigEndian::write_u64(&mut buf, value);
    buf
}

/// `byteorder`'s `BigEndian::read_u16`: the number that the first two bytes
/// of `buf` spell. It panics on a shorter buffer, which `requires` rules out.
#[verifier::external_body]
pub(crate) fn read_u16(buf: &[u8]) -> (value: u16)
    requires
        buf@.len() >= 2,
    ensures
        value == be_value(buf@.subrange(0, 2)),
{
    BigEndian::read_u16(buf)
}

/// `byteorder`'s `BigEndian::read_u64`: the number that the first eight
/// bytes of `buf` spell. It panics on a shorter buffer, which `requires`
/// rules out.
#[verifier::external_body]
pub(crate) fn read_u64(buf: &[u8]) -> (value: u64)
    requires
        buf@.len() >= 8,
    ensures
        value == be_value(buf@.subrange(0, 8)),
{
    BigEndian::read_u64(buf)
}

/// `byteorder`'s `BigEndian::read_int`: the first `nbytes` bytes of `buf`
/// read as a two's complement number. It panics where `nbytes` is not in
/// 1..=8 or reaches past the buffer, which `requires` rules out.
#[verifier::external_body]
pub(crate) fn read_int(buf: &[u8], nbytes: usize) -> (value: i64)
    requires
        1 <= nbytes <= 8,
        nbytes <= buf@.len(),
    ensures
        value == be_signed(buf@.subrange(0, nbytes as int)),
{
    BigEndian::read_int(buf, nbytes)
}

} // verus!
