//! Byte-level helpers shared by the codec, the store and the adapters:
//! slice comparison, little-endian integer fields, decimal and
//! hexadecimal text.

use vstd::prelude::*;

verus! {

/// The characters with the same code points as the given ASCII bytes.
pub open spec fn ascii_chars(bs: Seq<u8>) -> Seq<char> {
    bs.map_values(|b: u8| b as char)
}

/// Every byte is an ASCII code point.
pub open spec fn all_ascii(bs: Seq<u8>) -> bool {
    forall|i: int| 0 <= i < bs.len() ==> bs[i] < 128
}

pub fn bytes_eq(a: &[u8], b: &[u8]) -> (r: bool)
    ensures
        r == (a@ == b@),
{
    if a.len() != b.len() {
        assert(a@ != b@);
        return false;
    }
    let mut i: usize = 0;
    while i < a.len()
        invariant
            i <= a@.len(),
            a@.len() == b@.len(),
            forall|j: int| 0 <= j < i ==> a@[j] == b@[j],
        decreases a@.len() - i,
    {
        if a[i] != b[i] {
            return false;
        }
        i = i + 1;
    }
    proof {
        assert(a@ =~= b@);
    }
    true
}

/// Little-endian encoding of a 16-bit field.
pub open spec fn le16(n: u16) -> Seq<u8> {
    seq![(n & 0xff) as u8, ((n >> 8) & 0xff) as u8]
}

/// The value read back from a little-endian 16-bit field.
pub open spec fn le16_val(bs: Seq<u8>) -> u16
    recommends
        bs.len() == 2,
{
    (bs[0] as u16) | ((bs[1] as u16) << 8)
}

pub proof fn lemma_le16_roundtrip(n: u16)
    ensures
        le16_val(le16(n)) == n,
{
    let b0 = (n & 0xff) as u8;
    let b1 = ((n >> 8) & 0xff) as u8;
    assert(((b0 as u16) | ((b1 as u16) << 8)) == n) by (bit_vector)
        requires
            b0 == (n & 0xff) as u8,
            b1 == ((n >> 8) & 0xff) as u8,
    ;
}

/// Little-endian encoding of a 32-bit field.
pub open spec fn le32(n: u32) -> Seq<u8> {
    seq![
        (n & 0xff) as u8,
        ((n >> 8) & 0xff) as u8,
        ((n >> 16) & 0xff) as u8,
        ((n >> 24) & 0xff) as u8,
    ]
}

/// The value read back from a little-endian 32-bit field.
pub open spec fn le32_val(bs: Seq<u8>) -> u32
    recommends
        bs.len() == 4,
{
    (bs[0] as u32) | ((bs[1] as u32) << 8) | ((bs[2] as u32) << 16) | ((bs[3] as u32) << 24)
}

pub proof fn lemma_le32_roundtrip(n: u32)
    ensures
        le32_val(le32(n)) == n,
{
    let b0 = (n & 0xff) as u8;
    let b1 = ((n >> 8) & 0xff) as u8;
    let b2 = ((n >> 16) & 0xff) as u8;
    let b3 = ((n >> 24) & 0xff) as u8;
    assert(((b0 as u32) | ((b1 as u32) << 8) | ((b2 as u32) << 16) | ((b3 as u32) << 24)) == n)
        by (bit_vector)
        requires
            b0 == (n & 0xff) as u8,
            b1 == ((n >> 8) & 0xff) as u8,
            b2 == ((n >> 16) & 0xff) as u8,
            b3 == ((n >> 24) & 0xff) as u8,
    ;
}

/// Little-endian encoding of a 64-bit field.
pub open spec fn le64(n: u64) -> Seq<u8> {
    seq![
        (n & 0xff) as u8,
        ((n >> 8) & 0xff) as u8,
        ((n >> 16) & 0xff) as u8,
        ((n >> 24) & 0xff) as u8,
        ((n >> 32) & 0xff) as u8,
        ((n >> 40) & 0xff) as u8,
        ((n >> 48) & 0xff) as u8,
        ((n >> 56) & 0xff) as u8,
    ]
}

/// The value read back from a little-endian 64-bit field.
pub open spec fn le64_val(bs: Seq<u8>) -> u64
    recommends
        bs.len() == 8,
{
    (bs[0] as u64) | ((bs[1] as u64) << 8) | ((bs[2] as u64) << 16) | ((bs[3] as u64) << 24)
        | ((bs[4] as u64) << 32) | ((bs[5] as u64) << 40) | ((bs[6] as u64) << 48)
        | ((bs[7] as u64) << 56)
}

pub proof fn lemma_le64_roundtrip(n: u64)
    ensures
        le64_val(le64(n)) == n,
{
    let b0 = (n & 0xff) as u8;
    let b1 = ((n >> 8) & 0xff) as u8;
    let b2 = ((n >> 16) & 0xff) as u8;
    let b3 = ((n >> 24) & 0xff) as u8;
    let b4 = ((n >> 32) & 0xff) as u8;
    let b5 = ((n >> 40) & 0xff) as u8;
    let b6 = ((n >> 48) & 0xff) as u8;
    let b7 = ((n >> 56) & 0xff) as u8;
    assert(((b0 as u64) | ((b1 as u64) << 8) | ((b2 as u64) << 16) | ((b3 as u64) << 24) | (
    (b4 as u64) << 32) | ((b5 as u64) << 40) | ((b6 as u64) << 48) | ((b7 as u64) << 56)) == n)
        by (bit_vector)
        requires
            b0 == (n & 0xff) as u8,
            b1 == ((n >> 8) & 0xff) as u8,
            b2 == ((n >> 16) & 0xff) as u8,
            b3 == ((n >> 24) & 0xff) as u8,
            b4 == ((n >> 32) & 0xff) as u8,
            b5 == ((n >> 40) & 0xff) as u8,
            b6 == ((n >> 48) & 0xff) as u8,
            b7 == ((n >> 56) & 0xff) as u8,
    ;
}

pub fn push_le16(out: &mut Vec<u8>, n: u16)
    ensures
        final(out)@ == old(out)@ + le16(n),
{
    out.push((n & 0xff) as u8);
    out.push(((n >> 8) & 0xff) as u8);
    assert(out@ =~= old(out)@ + le16(n));
}

pub fn push_le32(out: &mut Vec<u8>, n: u32)
    ensures
        final(out)@ == old(out)@ + le32(n),
{
    out.push((n & 0xff) as u8);
    out.push(((n >> 8) & 0xff) as u8);
    out.push(((n >> 16) & 0xff) as u8);
    out.push(((n >> 24) & 0xff) as u8);
    assert(out@ =~= old(out)@ + le32(n));
}

pub fn push_le64(out: &mut Vec<u8>, n: u64)
    ensures
        final(out)@ == old(out)@ + le64(n),
{
    out.push((n & 0xff) as u8);
    out.push(((n >> 8) & 0xff) as u8);
    out.push(((n >> 16) & 0xff) as u8);
    out.push(((n >> 24) & 0xff) as u8);
    out.push(((n >> 32) & 0xff) as u8);
    out.push(((n >> 40) & 0xff) as u8);
    out.push(((n >> 48) & 0xff) as u8);
    out.push(((n >> 56) & 0xff) as u8);
    assert(out@ =~= old(out)@ + le64(n));
}

pub fn read_le16(bs: &[u8], at: usize) -> (r: u16)
    requires
        at + 2 <= bs@.len(),
    ensures
        r == le16_val(bs@.subrange(at as int, at + 2)),
{
    let r = (bs[at] as u16) | ((bs[at + 1] as u16) << 8);
    proof {
        let sub = bs@.subrange(at as int, at + 2);
        assert(sub[0] == bs@[at as int] && sub[1] == bs@[at + 1]);
    }
    r
}

pub fn read_le32(bs: &[u8], at: usize) -> (r: u32)
    requires
        at + 4 <= bs@.len(),
    ensures
        r == le32_val(bs@.subrange(at as int, at + 4)),
{
    let r = (bs[at] as u32) | ((bs[at + 1] as u32) << 8) | ((bs[at + 2] as u32) << 16) | ((bs[at
        + 3] as u32) << 24);
    proof {
        let sub = bs@.subrange(at as int, at + 4);
        assert(sub[0] == bs@[at as int] && sub[1] == bs@[at + 1] && sub[2] == bs@[at + 2]
            && sub[3] == bs@[at + 3]);
    }
    r
}

pub fn read_le64(bs: &[u8], at: usize) -> (r: u64)
    requires
        at + 8 <= bs@.len(),
    ensures
        r == le64_val(bs@.subrange(at as int, at + 8)),
{
    let r = (bs[at] as u64) | ((bs[at + 1] as u64) << 8) | ((bs[at + 2] as u64) << 16) | ((bs[at
        + 3] as u64) << 24) | ((bs[at + 4] as u64) << 32) | ((bs[at + 5] as u64) << 40) | ((bs[at
        + 6] as u64) << 48) | ((bs[at + 7] as u64) << 56);
    proof {
        let sub = bs@.subrange(at as int, at + 8);
        assert(sub[0] == bs@[at as int] && sub[1] == bs@[at + 1] && sub[2] == bs@[at + 2]
            && sub[3] == bs@[at + 3] && sub[4] == bs@[at + 4] && sub[5] == bs@[at + 5]
            && sub[6] == bs@[at + 6] && sub[7] == bs@[at + 7]);
    }
    r
}

/// The decimal digits of `n`, as ASCII bytes, most significant first.
pub open spec fn dec_digits(n: nat) -> Seq<u8>
    decreases n,
{
    if n < 10 {
        seq![(48 + n) as u8]
    } else {
        dec_digits(n / 10).push((48 + n % 10) as u8)
    }
}

/// Renders `n` in decimal.
pub fn u64_to_dec(n: u64) -> (r: Vec<u8>)
    ensures
        r@ == dec_digits(n as nat),
{
    let mut out: Vec<u8> = Vec::new();
    let d0 = (48 + (n % 10)) as u8;
    out.push(d0);
    let mut m: u64 = n / 10;
    proof {
        if n >= 10 {
            assert(dec_digits(n as nat) =~= dec_digits((n / 10) as nat) + out@);
        } else {
            assert(dec_digits(n as nat) =~= out@);
        }
    }
    while m > 0
        invariant
            m > 0 ==> dec_digits(n as nat) =~= dec_digits(m as nat) + out@,
            m == 0 ==> dec_digits(n as nat) =~= out@,
        decreases m,
    {
        let d = (48 + (m % 10)) as u8;
        out.insert(0, d);
        proof {
            if m >= 10 {
                assert(dec_digits(m as nat) =~= dec_digits((m / 10) as nat).push(
                    (48 + m % 10) as u8,
                ));
                assert(dec_digits(n as nat) =~= dec_digits((m / 10) as nat) + out@);
            } else {
                assert(dec_digits(m as nat) =~= seq![d]);
                assert(dec_digits(n as nat) =~= out@);
            }
        }
        m = m / 10;
    }
    out
}

/// The upper-case hexadecimal digit for a value below 16.
pub open spec fn hex_digit(v: u8) -> u8
    recommends
        v < 16,
{
    if v < 10 {
        (48 + v) as u8
    } else {
        (55 + v) as u8
    }
}

/// Upper-case hexadecimal text for a byte string, two digits per byte.
pub open spec fn hex_bytes(bs: Seq<u8>) -> Seq<u8> {
    Seq::new(
        bs.len() * 2,
        |i: int|
            if i % 2 == 0 {
                hex_digit(bs[i / 2] / 16)
            } else {
                hex_digit(bs[i / 2] % 16)
            },
    )
}

pub fn to_hex(bs: &[u8]) -> (r: Vec<u8>)
    ensures
        r@ == hex_bytes(bs@),
{
    let mut out: Vec<u8> = Vec::new();
    let mut i: usize = 0;
    while i < bs.len()
        invariant
            i <= bs@.len(),
            out@.len() == i * 2,
            forall|j: int| 0 <= j < out@.len() ==> out@[j] == #[trigger] hex_bytes(bs@)[j],
        decreases bs@.len() - i,
    {
        let b = bs[i];
        let hi = b / 16;
        let lo = b % 16;
        let hc = if hi < 10 {
            48 + hi
        } else {
            55 + hi
        };
        let lc = if lo < 10 {
            48 + lo
        } else {
            55 + lo
        };
        out.push(hc);
        out.push(lc);
        i = i + 1;
    }
    assert(out@ =~= hex_bytes(bs@));
    out
}

pub proof fn lemma_hex_ascii(bs: Seq<u8>)
    ensures
        all_ascii(hex_bytes(bs)),
{
}

/// The value of an ASCII hexadecimal digit, upper or lower case.
pub open spec fn hex_val_of(b: u8) -> Option<u8> {
    if 48 <= b && b <= 57 {
        Some((b - 48) as u8)
    } else if 65 <= b && b <= 70 {
        Some((b - 55) as u8)
    } else if 97 <= b && b <= 102 {
        Some((b - 87) as u8)
    } else {
        None
    }
}

pub fn hex_val(b: u8) -> (r: Option<u8>)
    ensures
        r == hex_val_of(b),
{
    if 48 <= b && b <= 57 {
        Some(b - 48)
    } else if 65 <= b && b <= 70 {
        Some(b - 55)
    } else if 97 <= b && b <= 102 {
        Some(b - 87)
    } else {
        None
    }
}

} // verus!
