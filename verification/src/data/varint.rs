//! Length delimiters: the variable-length integers of the record header.

use vstd::prelude::*;

verus! {

/// The delimiter bytes of `n`: its base-128 digits, least significant first,
/// every byte but the last with the continuation bit `0x80` set.
pub open spec fn varint(n: nat) -> Seq<u8>
    decreases n,
{
    if n < 128 {
        seq![n as u8]
    } else {
        seq![(n % 128 + 128) as u8] + varint(n / 128)
    }
}

/// Reading a delimiter whose bytes start at index 0 of `bytes`, continued at
/// index `i`: the value of the digits from `i` on and the index behind the
/// last digit. It fails where the bytes end before a byte without the
/// continuation bit, where ten bytes do not end the delimiter, and where the
/// tenth byte would carry the value past 64 bits.
pub open spec fn varint_scan(bytes: Seq<u8>, i: int) -> Option<(nat, int)>
    decreases 10 - i,
{
    if i < 0 || i >= 10 || i >= bytes.len() {
        None
    } else if bytes[i] < 0x80 {
        if i == 9 && bytes[i] >= 2 {
            None
        } else {
            Some((bytes[i] as nat, i + 1))
        }
    } else {
        match varint_scan(bytes, i + 1) {
            Some((v, end)) => Some(((bytes[i] - 0x80) as nat + 128 * v, end)),
            None => None,
        }
    }
}

/// The delimiter at the front of `bytes`: its value and its length in bytes.
pub open spec fn varint_decode(bytes: Seq<u8>) -> Option<(nat, int)> {
    varint_scan(bytes, 0)
}

/// `prost::encode_length_delimiter`, writing into a fresh buffer: the bytes
/// written are the base-128 digits of `length`, as `varint` gives them.
#[verifier::external_body]
pub(crate) fn encode_length_delimiter(length: usize) -> (out: Vec<u8>)
    ensures
        out@ == varint(length as nat),
{
    let mut out: Vec<u8> = Vec::new();
    let _ = prost::encode_length_delimiter(length, &mut out);
    out
}

/// `prost::length_delimiter_len`: the number of bytes that the delimiter of
/// `length` takes.
#[verifier::external_body]
pub(crate) fn length_delimiter_len(length: usize) -> (n: usize)
    ensures
        n == varint(length as nat).len(),
{
    prost::length_delimiter_len(length)
}

/// `prost::decode_length_delimiter` on the front of `buf`: the value read and
/// the bytes behind it, or `None` where `varint_decode` fails or the value
/// exceeds `usize`.
#[verifier::external_body]
pub(crate) fn decode_length_delimiter<'a>(buf: &'a [u8]) -> (res: (Option<usize>, &'a [u8]))
    ensures
        match varint_decode(buf@) {
            Some((v, end)) => if v <= usize::MAX {
                res.0 == Some(v as usize) && res.1@ == buf@.skip(end)
            } else {
                res.0 is None
            },
            None => res.0 is None,
        },
{
    let mut rest: &[u8] = buf;
    let value = prost::decode_length_delimiter(&mut rest).ok();
    (value, rest)
}

/// The bound on the value of the digits from index `i` on, for a delimiter
/// that stays within 64 bits: `2^(64 - 7 * i)`.
pub open spec fn digit_cap(i: int) -> nat
    decreases 9 - i,
{
    if i >= 9 {
        2
    } else {
        128 * digit_cap(i + 1)
    }
}

/// Every value of 64 bits lies under the bound for a whole delimiter.
pub proof fn lemma_digit_cap_zero()
    ensures
        digit_cap(0) == 0x1_0000_0000_0000_0000,
{
    reveal_with_fuel(digit_cap, 11);
}

/// A delimiter has at least one byte, and at most five for a value of 32 bits.
pub proof fn lemma_varint_len(n: nat)
    ensures
        varint(n).len() >= 1,
        n < 128 ==> varint(n).len() == 1,
        n <= u32::MAX ==> varint(n).len() <= 5,
        n <= u64::MAX ==> varint(n).len() <= 10,
{
    reveal_with_fuel(varint, 11);
}

/// Reading back the bytes that `varint` gives for `n`, wherever they stand in
/// `bytes` from index `i` on, yields `n` and the index behind them.
pub proof fn lemma_scan_varint(bytes: Seq<u8>, i: int, n: nat)
    requires
        0 <= i <= 9,
        n < digit_cap(i),
        i + varint(n).len() <= bytes.len(),
        bytes.subrange(i, i + varint(n).len()) == varint(n),
    ensures
        varint_scan(bytes, i) == Some((n, i + varint(n).len())),
    decreases n,
{
    let enc = varint(n);
    assert(bytes[i] == bytes.subrange(i, i + enc.len())[0]);
    if n < 128 {
        assert(bytes[i] == n as u8);
        if i == 9 {
            assert(digit_cap(9) == 2);
        }
    } else {
        let rest = varint(n / 128);
        let first = seq![(n % 128 + 128) as u8];
        assert(enc == first + rest);
        assert(enc[0] == (n % 128 + 128) as u8);
        assert(i < 9) by {
            if i == 9 {
                assert(digit_cap(9) == 2);
            }
        }
        assert(digit_cap(i) == 128 * digit_cap(i + 1));
        assert(n / 128 < digit_cap(i + 1));
        assert(bytes.subrange(i + 1, i + 1 + rest.len()) == rest) by {
            assert forall|j: int| 0 <= j < rest.len() implies bytes.subrange(
                i + 1,
                i + 1 + rest.len(),
            )[j] == rest[j] by {
                assert(bytes.subrange(i, i + enc.len())[j + 1] == enc[j + 1]);
                assert(enc[j + 1] == rest[j]);
            }
        }
        lemma_scan_varint(bytes, i + 1, n / 128);
        assert((bytes[i] - 0x80) as nat + 128 * (n / 128) == n);
    }
}

/// A delimiter is read from its own bytes alone: whatever follows them does
/// not change the outcome.
pub proof fn lemma_scan_prefix(a: Seq<u8>, b: Seq<u8>, i: int)
    requires
        varint_scan(a, i) is Some,
        (varint_scan(a, i)->0).1 <= b.len(),
        a.subrange(0, (varint_scan(a, i)->0).1) == b.subrange(0, (varint_scan(a, i)->0).1),
    ensures
        varint_scan(b, i) == varint_scan(a, i),
    decreases 10 - i,
{
    let end = (varint_scan(a, i)->0).1;
    lemma_scan_bounds(a, i);
    assert(a[i] == a.subrange(0, end)[i]);
    assert(b[i] == b.subrange(0, end)[i]);
    if a[i] >= 0x80 {
        lemma_scan_prefix(a, b, i + 1);
    }
}

/// A delimiter that is read ends behind where it starts and within the bytes.
pub proof fn lemma_scan_bounds(bytes: Seq<u8>, i: int)
    requires
        varint_scan(bytes, i) is Some,
    ensures
        0 <= i < (varint_scan(bytes, i)->0).1 <= bytes.len(),
        (varint_scan(bytes, i)->0).1 <= 10,
        (varint_scan(bytes, i)->0).0 < digit_cap(i),
    decreases 10 - i,
{
    if bytes[i] >= 0x80 {
        lemma_scan_bounds(bytes, i + 1);
        if i == 9 {
        } else {
            assert(digit_cap(i) == 128 * digit_cap(i + 1));
        }
    } else {
        lemma_digit_cap_min(i);
    }
}

/// No bound on the digits is under 2, and every one before the last is at least 128.
pub proof fn lemma_digit_cap_min(i: int)
    ensures
        digit_cap(i) >= 2,
        i < 9 ==> digit_cap(i) >= 256,
    decreases 9 - i,
{
    if i < 9 {
        lemma_digit_cap_min(i + 1);
    }
}

/// What `varint` writes for a value of 64 bits is read back as that value,
/// whatever bytes follow.
pub proof fn lemma_varint_roundtrip(n: nat, rest: Seq<u8>)
    requires
        n <= u64::MAX,
    ensures
        varint_decode(varint(n) + rest) == Some((n, varint(n).len() as int)),
{
    lemma_digit_cap_zero();
    let bytes = varint(n) + rest;
    assert(bytes.subrange(0, varint(n).len() as int) == varint(n));
    lemma_scan_varint(bytes, 0, n);
}

} // verus!
