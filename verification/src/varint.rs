//! Variable-length encoding of unsigned 64-bit integers in one to nine bytes.
//!
//! A value below 2^56 is written in base 128, most significant group first;
//! every byte but the last has its high bit set. A larger value takes nine
//! bytes: eight groups of seven bits, each with the high bit set, that hold
//! the upper 56 bits, and a last byte that holds the low eight bits whole.
use vstd::prelude::*;
use crate::error::StorageError;

verus! {

/// The largest number of bytes an encoding takes.
pub const MAX_LEN: usize = 9;

/// The least value that needs the nine-byte form: 2^56.
pub const EXTENDED_MIN: u64 = 0x0100_0000_0000_0000;

/// Number of bytes in the encoding of `v`.
pub open spec fn encoded_len(v: u64) -> nat {
    if v < 0x80 {
        1
    } else if v < 0x4000 {
        2
    } else if v < 0x20_0000 {
        3
    } else if v < 0x1000_0000 {
        4
    } else if v < 0x8_0000_0000 {
        5
    } else if v < 0x400_0000_0000 {
        6
    } else if v < 0x2_0000_0000_0000 {
        7
    } else if v < 0x100_0000_0000_0000 {
        8
    } else {
        9
    }
}

/// The `n` low base-128 digits of `v`, most significant first, each with the
/// continuation bit set.
pub open spec fn groups(v: nat, n: nat) -> Seq<u8>
    decreases n,
{
    if n == 0 {
        Seq::empty()
    } else {
        groups(v / 128, (n - 1) as nat).push((v % 128 + 128) as u8)
    }
}

/// The encoding of `v`.
pub open spec fn encode(v: u64) -> Seq<u8> {
    if v >= EXTENDED_MIN {
        groups(v as nat / 256, 8).push((v % 256) as u8)
    } else {
        groups(v as nat / 128, (encoded_len(v) - 1) as nat).push((v % 128) as u8)
    }
}

/// Decoding that has read `i` continuation bytes and gathered `acc` from
/// them: the number of bytes the whole encoding takes and its value, or
/// `None` where `bytes` ends too early.
pub open spec fn decode_from(bytes: Seq<u8>, i: nat, acc: nat) -> Option<(nat, nat)>
    decreases 9 - i,
{
    if i >= bytes.len() {
        None
    } else if i >= 8 {
        Some((i + 1, acc * 256 + bytes[i as int] as nat))
    } else if bytes[i as int] < 128 {
        Some((i + 1, acc * 128 + bytes[i as int] as nat))
    } else {
        decode_from(bytes, i + 1, acc * 128 + (bytes[i as int] - 128) as nat)
    }
}

/// The encoding at the front of `bytes`: its length and its value, or `None`
/// where `bytes` ends before the encoding does. Bytes after it are ignored.
pub open spec fn decode(bytes: Seq<u8>) -> Option<(nat, nat)> {
    decode_from(bytes, 0, 0)
}

/// 128 to the power `i`, for the `i` that a decoder reaches.
pub open spec fn radix_pow(i: nat) -> nat {
    if i == 0 {
        1
    } else if i == 1 {
        0x80
    } else if i == 2 {
        0x4000
    } else if i == 3 {
        0x20_0000
    } else if i == 4 {
        0x1000_0000
    } else if i == 5 {
        0x8_0000_0000
    } else if i == 6 {
        0x400_0000_0000
    } else if i == 7 {
        0x2_0000_0000_0000
    } else {
        0x100_0000_0000_0000
    }
}

/// What the first `k` bytes gather when each is read as a continuation byte.
pub open spec fn gathered(bytes: Seq<u8>, k: nat) -> nat
    decreases k,
{
    if k == 0 {
        0
    } else {
        gathered(bytes, (k - 1) as nat) * 128 + (bytes[k - 1] - 128) as nat
    }
}

/// A decoder that meets only continuation bytes up to index `k` is, at `k`,
/// in the state that `gathered` describes.
proof fn lemma_decode_skips(bytes: Seq<u8>, j: nat, k: nat)
    requires
        j <= k <= 8,
        k <= bytes.len(),
        forall|i: int| 0 <= i < k ==> bytes[i] >= 128,
    ensures
        decode_from(bytes, j, gathered(bytes, j)) == decode_from(bytes, k, gathered(bytes, k)),
    decreases k - j,
{
    if j < k {
        lemma_decode_skips(bytes, j + 1, k);
    }
}

/// The groups of a value that fits in `n` digits are continuation bytes and
/// gather back to that value.
proof fn lemma_groups_gather(bytes: Seq<u8>, v: nat, n: nat)
    requires
        n <= 8,
        v < radix_pow(n),
        n <= bytes.len(),
        bytes.subrange(0, n as int) == groups(v, n),
    ensures
        gathered(bytes, n) == v,
        forall|i: int| 0 <= i < n ==> bytes[i] >= 128,
    decreases n,
{
    if n > 0 {
        let m = (n - 1) as nat;
        let front = groups(v / 128, m);
        assert(groups(v, n) == front.push((v % 128 + 128) as u8));
        assert(bytes.subrange(0, m as int) == front) by {
            assert(bytes.subrange(0, m as int) =~= bytes.subrange(0, n as int).subrange(
                0,
                m as int,
            ));
            assert(front.push((v % 128 + 128) as u8).subrange(0, m as int) =~= front) by {
                lemma_groups_len(v / 128, m);
            }
        }
        lemma_groups_len(v / 128, m);
        lemma_groups_gather(bytes, v / 128, m);
        assert(bytes[n - 1] == bytes.subrange(0, n as int)[n - 1]);
        assert(bytes[n - 1] == (v % 128 + 128) as u8);
        assert forall|i: int| 0 <= i < n implies bytes[i] >= 128 by {
        }
    }
}

/// `groups(v, n)` has `n` bytes.
pub proof fn lemma_groups_len(v: nat, n: nat)
    ensures
        groups(v, n).len() == n,
    decreases n,
{
    if n > 0 {
        lemma_groups_len(v / 128, (n - 1) as nat);
    }
}

/// An encoding is as long as `encoded_len` says: between one and nine bytes.
pub proof fn lemma_encode_len(v: u64)
    ensures
        encode(v).len() == encoded_len(v),
        1 <= encoded_len(v) <= 9,
{
    if v >= EXTENDED_MIN {
        lemma_groups_len(v as nat / 256, 8);
    } else {
        lemma_groups_len(v as nat / 128, (encoded_len(v) - 1) as nat);
    }
}

/// Decoding an encoding gives the value back and takes exactly the
/// encoding's bytes, whatever follows them.
pub proof fn lemma_round_trip(v: u64, rest: Seq<u8>)
    ensures
        decode(encode(v) + rest) == Some((encoded_len(v), v as nat)),
{
    let bytes = encode(v) + rest;
    lemma_encode_len(v);
    if v >= EXTENDED_MIN {
        let hi = v as nat / 256;
        lemma_groups_len(hi, 8);
        assert(bytes.subrange(0, 8) =~= groups(hi, 8));
        lemma_groups_gather(bytes, hi, 8);
        lemma_decode_skips(bytes, 0, 8);
        assert(bytes[8] == (v % 256) as u8);
    } else {
        let n = (encoded_len(v) - 1) as nat;
        let hi = v as nat / 128;
        lemma_groups_len(hi, n);
        assert(bytes.subrange(0, n as int) =~= groups(hi, n));
        lemma_groups_gather(bytes, hi, n);
        lemma_decode_skips(bytes, 0, n);
        assert(bytes[n as int] == (v % 128) as u8);
    }
}

/// What `decode` returns lies within the bytes and within 64 bits.
pub proof fn lemma_decode_bounds(bytes: Seq<u8>)
    ensures
        decode(bytes) matches Some((n, v)) ==> 1 <= n <= MAX_LEN && n <= bytes.len() && v
            <= u64::MAX,
{
    lemma_decode_from_bounds(bytes, 0, 0);
}

/// No encoding of a value is shorter than the one that `encode` gives:
/// whatever bytes decode to a value are at least as many.
pub proof fn lemma_encode_is_shortest(bytes: Seq<u8>)
    ensures
        decode(bytes) matches Some((n, v)) ==> v <= u64::MAX && encoded_len(v as u64) <= n,
{
    lemma_decode_from_bounds(bytes, 0, 0);
}

proof fn lemma_decode_from_bounds(bytes: Seq<u8>, i: nat, acc: nat)
    requires
        i <= 8,
        acc < radix_pow(i),
    ensures
        decode_from(bytes, i, acc) matches Some((n, v)) ==> i < n <= 9 && n <= bytes.len() && v
            <= u64::MAX && (n <= 8 ==> v < radix_pow(n)),
    decreases 9 - i,
{
    if i < bytes.len() && i < 8 && bytes[i as int] >= 128 {
        lemma_decode_from_bounds(bytes, i + 1, acc * 128 + (bytes[i as int] - 128) as nat);
    }
}

/// Decoding reads only the encoding: a buffer that agrees with `a` on the
/// `n` bytes that were read decodes as `a` does.
pub proof fn lemma_decode_prefix(a: Seq<u8>, b: Seq<u8>, n: nat, v: nat)
    requires
        decode(a) == Some((n, v)),
        n <= b.len(),
        a.subrange(0, n as int) == b.subrange(0, n as int),
    ensures
        decode(b) == Some((n, v)),
{
    lemma_decode_bounds(a);
    lemma_decode_from_prefix(a, b, 0, 0, n, v);
}

proof fn lemma_decode_from_prefix(a: Seq<u8>, b: Seq<u8>, i: nat, acc: nat, n: nat, v: nat)
    requires
        i <= 8,
        decode_from(a, i, acc) == Some((n, v)),
        n <= b.len(),
        n <= a.len(),
        a.subrange(0, n as int) == b.subrange(0, n as int),
    ensures
        decode_from(b, i, acc) == Some((n, v)),
    decreases 9 - i,
{
    lemma_decode_from_order(a, i, acc);
    assert(a[i as int] == a.subrange(0, n as int)[i as int]);
    assert(b[i as int] == b.subrange(0, n as int)[i as int]);
    if i < 8 && a[i as int] >= 128 {
        lemma_decode_from_prefix(a, b, i + 1, acc * 128 + (a[i as int] - 128) as nat, n, v);
    }
}

proof fn lemma_decode_from_order(bytes: Seq<u8>, i: nat, acc: nat)
    requires
        i <= 8,
    ensures
        decode_from(bytes, i, acc) matches Some((n, v)) ==> i < n <= bytes.len(),
    decreases 9 - i,
{
    if i < bytes.len() && i < 8 && bytes[i as int] >= 128 {
        lemma_decode_from_order(bytes, i + 1, acc * 128 + (bytes[i as int] - 128) as nat);
    }
}

/// Number of bytes that `write` produces for `value`.
pub fn len(value: u64) -> (n: usize)
    ensures
        n == encoded_len(value),
        1 <= n <= MAX_LEN,
{
    if value < 0x80 {
        1
    } else if value < 0x4000 {
        2
    } else if value < 0x20_0000 {
        3
    } else if value < 0x1000_0000 {
        4
    } else if value < 0x8_0000_0000 {
        5
    } else if value < 0x400_0000_0000 {
        6
    } else if value < 0x2_0000_0000_0000 {
        7
    } else if value < 0x100_0000_0000_0000 {
        8
    } else {
        9
    }
}

/// Appends the `n` low base-128 digits of `v` to `out`, most significant
/// first, each with the continuation bit set.
fn push_groups(out: &mut Vec<u8>, v: u64, n: usize)
    ensures
        final(out)@ == old(out)@ + groups(v as nat, n as nat),
    decreases n,
{
    if n > 0 {
        push_groups(out, v / 128, n - 1);
        let digit: u64 = v % 128 + 128;
        out.push(digit as u8);
        assert(final(out)@ =~= old(out)@ + groups(v as nat, n as nat));
    } else {
        assert(out@ =~= old(out)@ + groups(v as nat, n as nat));
    }
}

/// Encodes `value`.
pub fn write(value: u64) -> (bytes: Vec<u8>)
    ensures
        bytes@ == encode(value),
        bytes@.len() == encoded_len(value),
{
    let mut bytes: Vec<u8> = Vec::new();
    if value >= EXTENDED_MIN {
        push_groups(&mut bytes, value / 256, 8);
        bytes.push((value % 256) as u8);
    } else {
        let n = len(value);
        push_groups(&mut bytes, value / 128, n - 1);
        bytes.push((value % 128) as u8);
    }
    proof {
        lemma_encode_len(value);
        assert(bytes@ =~= encode(value));
    }
    bytes
}

/// Decodes the encoding at the front of `data`: the number of bytes it
/// takes, and its value. Fails where `data` ends before the encoding does.
pub fn read(data: &[u8]) -> (result: Result<(usize, u64), StorageError>)
    ensures
        match decode(data@) {
            Some((n, v)) => result == Ok::<(usize, u64), StorageError>((n as usize, v as u64))
                && 1 <= n <= 9 && n <= data@.len() && v <= u64::MAX,
            None => result == Err::<(usize, u64), StorageError>(StorageError::TruncatedVarint),
        },
{
    proof {
        lemma_decode_bounds(data@);
    }
    let mut acc: u64 = 0;
    let mut i: usize = 0;
    while i < 8
        invariant
            i <= 8,
            acc < radix_pow(i as nat),
            decode(data@) == decode_from(data@, i as nat, acc as nat),
        decreases 8 - i,
    {
        if i >= data.len() {
            return Err(StorageError::TruncatedVarint);
        }
        let b: u8 = data[i];
        if b < 128 {
            return Ok((i + 1, acc * 128 + b as u64));
        }
        acc = acc * 128 + (b - 128) as u64;
        i = i + 1;
    }
    if i >= data.len() {
        return Err(StorageError::TruncatedVarint);
    }
    Ok((9, acc * 256 + data[i] as u64))
}

} // verus!
