//! Text encodings: the bridge from ASCII bytes to `String`, the
//! form-urlencoding used by the index listing, and the base64 encoding
//! used by armoring and by sealed tokens.

use vstd::prelude::*;
use crate::util::{ascii_chars, all_ascii, hex_digit};

verus! {

/// Relies on String::from_utf8: bytes below 128 are valid UTF-8 and
/// decode to the characters with the same code points.
#[verifier::external_body]
pub fn ascii_to_string(b: Vec<u8>) -> (r: String)
    requires
        all_ascii(b@),
    ensures
        r@ == ascii_chars(b@),
{
    String::from_utf8(b).unwrap_or_default()
}

/// ASCII text round-trips between its byte and character forms.
pub proof fn lemma_ascii_roundtrip(bs: Seq<u8>)
    requires
        all_ascii(bs),
    ensures
        vstd::utf8::encode_utf8(ascii_chars(bs)) == bs,
{
    let cs = ascii_chars(bs);
    assert(vstd::utf8::is_ascii_chars(cs)) by {
        assert forall|i: int| 0 <= i < cs.len() implies '\0' <= #[trigger] cs[i] <= '\u{7f}' by {
            assert(bs[i] < 128);
            assert(cs[i] == bs[i] as char);
        }
    }
    vstd::utf8::is_ascii_chars_encode_utf8(cs);
    assert forall|i: int| 0 <= i < bs.len() implies vstd::utf8::encode_utf8(cs)[i] == bs[i] by {
        assert(cs[i] == bs[i] as char);
        assert(cs[i] as u8 == vstd::utf8::encode_utf8(cs)[i]);
    }
    assert(vstd::utf8::encode_utf8(cs) =~= bs);
}

// ---------------------------------------------------------------------
// Form-urlencoding
// ---------------------------------------------------------------------
/// One byte's form-urlencoded rendering: alphanumerics and `*-._` pass
/// unchanged, a space becomes `+`, anything else `%XX` in upper case.
pub open spec fn urlencoded_byte(b: u8) -> Seq<u8> {
    if b == 32 {
        seq![43u8]
    } else if (48 <= b && b <= 57) || (65 <= b && b <= 90) || (97 <= b && b <= 122) || b == 42
        || b == 45 || b == 46 || b == 95 {
        seq![b]
    } else {
        seq![37u8, hex_digit(b / 16), hex_digit(b % 16)]
    }
}

pub open spec fn urlencoded(bs: Seq<u8>) -> Seq<u8>
    decreases bs.len(),
{
    if bs.len() == 0 {
        Seq::empty()
    } else {
        urlencoded_byte(bs[0]) + urlencoded(bs.drop_first())
    }
}

/// Relies on url::form_urlencoded::byte_serialize: alphanumerics and
/// `*-._` pass unchanged, a space becomes `+`, every other byte becomes
/// `%XX` with upper-case hex digits.
#[verifier::external_body]
pub fn urlencode(b: &[u8]) -> (r: Vec<u8>)
    ensures
        r@ == urlencoded(b@),
{
    let s: String = url::form_urlencoded::byte_serialize(b).collect();
    s.into_bytes()
}

pub proof fn lemma_urlencoded_ascii(bs: Seq<u8>)
    ensures
        all_ascii(urlencoded(bs)),
    decreases bs.len(),
{
    if bs.len() > 0 {
        lemma_urlencoded_ascii(bs.drop_first());
        assert forall|i: int| 0 <= i < urlencoded(bs).len() implies urlencoded(bs)[i] < 128 by {
            let h = urlencoded_byte(bs[0]);
            if i < h.len() {
                assert(urlencoded(bs)[i] == h[i]);
            } else {
                assert(urlencoded(bs)[i] == urlencoded(bs.drop_first())[i - h.len()]);
            }
        }
    }
}

// ---------------------------------------------------------------------
// Base64
// ---------------------------------------------------------------------
/// The base64 alphabet character for a six-bit value.
pub open spec fn b64_char(v: u8) -> u8
    recommends
        v < 64,
{
    if v < 26 {
        (65 + v) as u8
    } else if v < 52 {
        (71 + v) as u8
    } else if v < 62 {
        (v - 4) as u8
    } else if v == 62 {
        43
    } else {
        47
    }
}

/// The six-bit value of a base64 alphabet character.
pub open spec fn b64_val_of(c: u8) -> Option<u8> {
    if 65 <= c && c <= 90 {
        Some((c - 65) as u8)
    } else if 97 <= c && c <= 122 {
        Some((c - 71) as u8)
    } else if 48 <= c && c <= 57 {
        Some((c + 4) as u8)
    } else if c == 43 {
        Some(62)
    } else if c == 47 {
        Some(63)
    } else {
        None
    }
}

pub proof fn lemma_b64_char_roundtrip(v: u8)
    requires
        v < 64,
    ensures
        b64_val_of(b64_char(v)) == Some(v),
        b64_char(v) < 128,
        b64_char(v) != 61,
{
}

/// Base64 text for a byte string, with `=` padding.
pub open spec fn b64_encode(bs: Seq<u8>) -> Seq<u8>
    decreases bs.len(),
{
    if bs.len() == 0 {
        Seq::empty()
    } else if bs.len() == 1 {
        let b0 = bs[0];
        seq![b64_char(b0 >> 2), b64_char((b0 & 3) << 4), 61, 61]
    } else if bs.len() == 2 {
        let b0 = bs[0];
        let b1 = bs[1];
        seq![b64_char(b0 >> 2), b64_char(((b0 & 3) << 4) | (b1 >> 4)), b64_char((b1 & 15) << 2), 61]
    } else {
        let b0 = bs[0];
        let b1 = bs[1];
        let b2 = bs[2];
        seq![
            b64_char(b0 >> 2),
            b64_char(((b0 & 3) << 4) | (b1 >> 4)),
            b64_char(((b1 & 15) << 2) | (b2 >> 6)),
            b64_char(b2 & 63),
        ] + b64_encode(bs.skip(3))
    }
}

/// The bytes a base64 text denotes; `None` when it is not canonical
/// base64.
pub open spec fn b64_decode(s: Seq<u8>) -> Option<Seq<u8>>
    decreases s.len(),
{
    if s.len() == 0 {
        Some(Seq::empty())
    } else if s.len() % 4 != 0 {
        None
    } else if s.len() == 4 {
        match (b64_val_of(s[0]), b64_val_of(s[1])) {
            (Some(v0), Some(v1)) => {
                if s[2] == 61 && s[3] == 61 {
                    if v1 & 15 == 0 {
                        Some(seq![(v0 << 2) | (v1 >> 4)])
                    } else {
                        None
                    }
                } else if s[3] == 61 {
                    match b64_val_of(s[2]) {
                        Some(v2) => {
                            if v2 & 3 == 0 {
                                Some(seq![(v0 << 2) | (v1 >> 4), ((v1 & 15) << 4) | (v2 >> 2)])
                            } else {
                                None
                            }
                        },
                        None => None,
                    }
                } else {
                    match (b64_val_of(s[2]), b64_val_of(s[3])) {
                        (Some(v2), Some(v3)) => Some(
                            seq![
                                (v0 << 2) | (v1 >> 4),
                                ((v1 & 15) << 4) | (v2 >> 2),
                                ((v2 & 3) << 6) | v3,
                            ],
                        ),
                        _ => None,
                    }
                }
            },
            _ => None,
        }
    } else {
        match (b64_val_of(s[0]), b64_val_of(s[1]), b64_val_of(s[2]), b64_val_of(s[3])) {
            (Some(v0), Some(v1), Some(v2), Some(v3)) => {
                match b64_decode(s.skip(4)) {
                    Some(rest) => Some(
                        seq![
                            (v0 << 2) | (v1 >> 4),
                            ((v1 & 15) << 4) | (v2 >> 2),
                            ((v2 & 3) << 6) | v3,
                        ] + rest,
                    ),
                    None => None,
                }
            },
            _ => None,
        }
    }
}

pub proof fn lemma_b64_encode_len(bs: Seq<u8>)
    ensures
        b64_encode(bs).len() == ((bs.len() + 2) / 3) * 4,
    decreases bs.len(),
{
    if bs.len() > 2 {
        lemma_b64_encode_len(bs.skip(3));
    }
}

pub proof fn lemma_b64_encode_ascii(bs: Seq<u8>)
    ensures
        all_ascii(b64_encode(bs)),
    decreases bs.len(),
{
    if bs.len() > 2 {
        lemma_b64_encode_ascii(bs.skip(3));
        assert forall|i: int| 0 <= i < b64_encode(bs).len() implies b64_encode(bs)[i] < 128 by {
            if i >= 4 {
                assert(b64_encode(bs)[i] == b64_encode(bs.skip(3))[i - 4]);
            }
        }
    }
}

/// Decoding inverts encoding.
pub proof fn lemma_b64_roundtrip(bs: Seq<u8>)
    ensures
        b64_decode(b64_encode(bs)) == Some(bs),
    decreases bs.len(),
{
    let e = b64_encode(bs);
    if bs.len() == 0 {
    } else if bs.len() == 1 {
        let b0 = bs[0];
        assert((b0 >> 2) < 64 && ((b0 & 3) << 4) < 64) by (bit_vector);
        lemma_b64_char_roundtrip(b0 >> 2);
        lemma_b64_char_roundtrip((b0 & 3) << 4);
        assert(((b0 & 3) << 4) & 15 == 0) by (bit_vector);
        assert((((b0 >> 2) << 2) | (((b0 & 3) << 4) >> 4)) == b0) by (bit_vector);
        assert(b64_decode(e) == Some(seq![b0]));
        assert(seq![b0] =~= bs);
    } else if bs.len() == 2 {
        let b0 = bs[0];
        let b1 = bs[1];
        let c1 = ((b0 & 3) << 4) | (b1 >> 4);
        let c2 = (b1 & 15) << 2;
        assert((b0 >> 2) < 64) by (bit_vector);
        lemma_b64_char_roundtrip(b0 >> 2);
        assert(c1 < 64 && c2 < 64) by (bit_vector)
            requires
                c1 == ((b0 & 3) << 4) | (b1 >> 4),
                c2 == (b1 & 15) << 2,
        ;
        lemma_b64_char_roundtrip(c1);
        lemma_b64_char_roundtrip(c2);
        assert(c2 & 3 == 0) by (bit_vector)
            requires
                c2 == (b1 & 15) << 2,
        ;
        assert((((b0 >> 2) << 2) | (c1 >> 4)) == b0 && (((c1 & 15) << 4) | (c2 >> 2)) == b1)
            by (bit_vector)
            requires
                c1 == ((b0 & 3) << 4) | (b1 >> 4),
                c2 == (b1 & 15) << 2,
        ;
        assert(b64_decode(e) == Some(seq![b0, b1]));
        assert(seq![b0, b1] =~= bs);
    } else {
        let b0 = bs[0];
        let b1 = bs[1];
        let b2 = bs[2];
        let c0 = b0 >> 2;
        let c1 = ((b0 & 3) << 4) | (b1 >> 4);
        let c2 = ((b1 & 15) << 2) | (b2 >> 6);
        let c3 = b2 & 63;
        assert(c0 < 64 && c1 < 64 && c2 < 64 && c3 < 64) by (bit_vector)
            requires
                c0 == b0 >> 2,
                c1 == ((b0 & 3) << 4) | (b1 >> 4),
                c2 == ((b1 & 15) << 2) | (b2 >> 6),
                c3 == b2 & 63,
        ;
        lemma_b64_char_roundtrip(c0);
        lemma_b64_char_roundtrip(c1);
        lemma_b64_char_roundtrip(c2);
        lemma_b64_char_roundtrip(c3);
        assert((((c0 << 2) | (c1 >> 4)) == b0) && ((((c1 & 15) << 4) | (c2 >> 2)) == b1) && ((((
        c2 & 3) << 6) | c3) == b2)) by (bit_vector)
            requires
                c0 == b0 >> 2,
                c1 == ((b0 & 3) << 4) | (b1 >> 4),
                c2 == ((b1 & 15) << 2) | (b2 >> 6),
                c3 == b2 & 63,
        ;
        lemma_b64_roundtrip(bs.skip(3));
        lemma_b64_encode_len(bs.skip(3));
        lemma_b64_encode_len(bs);
        if bs.len() == 3 {
            assert(b64_encode(bs.skip(3)) =~= Seq::<u8>::empty());
            assert(e =~= seq![b64_char(c0), b64_char(c1), b64_char(c2), b64_char(c3)]);
            assert(e.len() == 4);
            assert(b64_decode(e) == Some(seq![b0, b1, b2]));
            assert(seq![b0, b1, b2] =~= bs);
        } else {
            assert(e.len() > 4 && e.len() % 4 == 0);
            assert(e.skip(4) =~= b64_encode(bs.skip(3)));
            assert(e[0] == b64_char(c0) && e[1] == b64_char(c1) && e[2] == b64_char(c2) && e[3]
                == b64_char(c3));
            assert(b64_decode(e) == Some(seq![b0, b1, b2] + bs.skip(3)));
            assert(seq![b0, b1, b2] + bs.skip(3) =~= bs);
        }
    }
}

/// Renders bytes as base64 text.
pub fn b64_encode_exec(bs: &[u8]) -> (r: Vec<u8>)
    ensures
        r@ == b64_encode(bs@),
{
    let mut out: Vec<u8> = Vec::new();
    let mut i: usize = 0;
    proof {
        assert(bs@.skip(0) =~= bs@);
    }
    while i < bs.len() && bs.len() - i >= 3
        invariant
            i <= bs@.len(),
            i % 3 == 0,
            b64_encode(bs@) == out@ + b64_encode(bs@.skip(i as int)),
        decreases bs@.len() - i,
    {
        let b0 = bs[i];
        let b1 = bs[i + 1];
        let b2 = bs[i + 2];
        let ghost rest = bs@.skip(i as int);
        proof {
            assert(rest.len() >= 3);
            assert(rest[0] == b0 && rest[1] == b1 && rest[2] == b2);
            assert(rest.skip(3) =~= bs@.skip(i + 3));
            assert((b0 >> 2) < 64 && (((b0 & 3) << 4) | (b1 >> 4)) < 64 && (((b1 & 15) << 2) | (
            b2 >> 6)) < 64 && (b2 & 63) < 64) by (bit_vector);
        }
        out.push(b64_char_exec(b0 >> 2));
        out.push(b64_char_exec(((b0 & 3) << 4) | (b1 >> 4)));
        out.push(b64_char_exec(((b1 & 15) << 2) | (b2 >> 6)));
        out.push(b64_char_exec(b2 & 63));
        proof {
            assert(b64_encode(bs@) =~= out@ + b64_encode(bs@.skip(i + 3)));
        }
        i = i + 3;
    }
    let n = bs.len();
    let ghost rest = bs@.skip(i as int);
    let rem = n - i;
    if rem == 1 {
        let b0 = bs[i];
        proof {
            assert(rest.len() == 1 && rest[0] == b0);
            assert((b0 >> 2) < 64 && ((b0 & 3) << 4) < 64) by (bit_vector);
        }
        out.push(b64_char_exec(b0 >> 2));
        out.push(b64_char_exec((b0 & 3) << 4));
        out.push(61);
        out.push(61);
        proof {
            assert(out@ =~= b64_encode(bs@));
        }
    } else if rem == 2 {
        let b0 = bs[i];
        let b1 = bs[i + 1];
        proof {
            assert(rest.len() == 2 && rest[0] == b0 && rest[1] == b1);
            assert((b0 >> 2) < 64 && (((b0 & 3) << 4) | (b1 >> 4)) < 64 && ((b1 & 15) << 2)
                < 64) by (bit_vector);
        }
        out.push(b64_char_exec(b0 >> 2));
        out.push(b64_char_exec(((b0 & 3) << 4) | (b1 >> 4)));
        out.push(b64_char_exec((b1 & 15) << 2));
        out.push(61);
        proof {
            assert(out@ =~= b64_encode(bs@));
        }
    } else {
        proof {
            assert(rest.len() == 0);
            assert(b64_encode(rest) =~= Seq::<u8>::empty());
            assert(out@ =~= b64_encode(bs@));
        }
    }
    out
}

fn b64_char_exec(v: u8) -> (r: u8)
    requires
        v < 64,
    ensures
        r == b64_char(v),
{
    if v < 26 {
        65 + v
    } else if v < 52 {
        71 + v
    } else if v < 62 {
        v - 4
    } else if v == 62 {
        43
    } else {
        47
    }
}

fn b64_val_exec(c: u8) -> (r: Option<u8>)
    ensures
        r == b64_val_of(c),
{
    if 65 <= c && c <= 90 {
        Some(c - 65)
    } else if 97 <= c && c <= 122 {
        Some(c - 71)
    } else if 48 <= c && c <= 57 {
        Some(c + 4)
    } else if c == 43 {
        Some(62)
    } else if c == 47 {
        Some(63)
    } else {
        None
    }
}

/// Reads base64 text back into bytes, rejecting anything that is not
/// canonical base64.
pub fn b64_decode_exec(s: &[u8]) -> (r: Option<Vec<u8>>)
    ensures
        match r {
            Some(v) => b64_decode(s@) == Some(v@),
            None => b64_decode(s@) is None,
        },
{
    let n = s.len();
    if n % 4 != 0 {
        return None;
    }
    let mut out: Vec<u8> = Vec::new();
    let mut i: usize = 0;
    proof {
        assert(s@.skip(0) =~= s@);
    }
    while i < n && n - i > 4
        invariant
            i <= s@.len(),
            n == s@.len(),
            n % 4 == 0,
            i % 4 == 0,
            b64_decode(s@) == match b64_decode(s@.skip(i as int)) {
                Some(t) => Some(out@ + t),
                None => None::<Seq<u8>>,
            },
        decreases s@.len() - i,
    {
        let ghost rest = s@.skip(i as int);
        proof {
            assert(rest.len() == n - i);
            assert(rest.len() > 4);
            assert(rest.len() % 4 == 0) by (nonlinear_arith)
                requires
                    rest.len() == n - i,
                    n % 4 == 0,
                    i % 4 == 0,
                    i <= n,
            ;
            assert(rest[0] == s@[i as int] && rest[1] == s@[i + 1] && rest[2] == s@[i + 2]
                && rest[3] == s@[i + 3]);
            assert(rest.skip(4) =~= s@.skip(i + 4));
        }
        let v0 = b64_val_exec(s[i]);
        let v1 = b64_val_exec(s[i + 1]);
        let v2 = b64_val_exec(s[i + 2]);
        let v3 = b64_val_exec(s[i + 3]);
        match (v0, v1, v2, v3) {
            (Some(v0), Some(v1), Some(v2), Some(v3)) => {
                assert(v0 < 64 && v1 < 64 && v2 < 64 && v3 < 64);
                let d0 = (v0 << 2) | (v1 >> 4);
                let d1 = ((v1 & 15) << 4) | (v2 >> 2);
                let d2 = ((v2 & 3) << 6) | v3;
                let ghost pre = out@;
                out.push(d0);
                out.push(d1);
                out.push(d2);
                proof {
                    let d = seq![d0, d1, d2];
                    assert(out@ =~= pre + d);
                    match b64_decode(s@.skip(i + 4)) {
                        Some(t2) => {
                            assert(b64_decode(rest) == Some(d + t2));
                            assert(pre + (d + t2) =~= (pre + d) + t2);
                        },
                        None => {
                            assert(b64_decode(rest) is None);
                        },
                    }
                }
                i = i + 4;
            },
            _ => {
                return None;
            },
        }
    }
    if i == n {
        proof {
            assert(s@.skip(i as int).len() == 0);
            assert(b64_decode(s@.skip(i as int)) == Some(Seq::<u8>::empty()));
            assert(out@ + Seq::<u8>::empty() =~= out@);
        }
        return Some(out);
    }
    proof {
        assert(n - i == 4) by (nonlinear_arith)
            requires
                i % 4 == 0,
                n % 4 == 0,
                i < n,
                n - i <= 4,
        ;
    }
    let ghost rest = s@.skip(i as int);
    proof {
        assert(rest.len() == 4);
        assert(rest[0] == s@[i as int] && rest[1] == s@[i + 1] && rest[2] == s@[i + 2] && rest[3]
            == s@[i + 3]);
    }
    let v0 = match b64_val_exec(s[i]) {
        Some(v) => v,
        None => {
            return None;
        },
    };
    let v1 = match b64_val_exec(s[i + 1]) {
        Some(v) => v,
        None => {
            return None;
        },
    };
    assert(v0 < 64 && v1 < 64);
    if s[i + 2] == 61 && s[i + 3] == 61 {
        if v1 & 15 == 0 {
            let d0 = (v0 << 2) | (v1 >> 4);
            let ghost pre = out@;
            out.push(d0);
            proof {
                assert(b64_decode(rest) == Some(seq![d0]));
                assert(pre + seq![d0] =~= out@);
            }
            return Some(out);
        } else {
            return None;
        }
    }
    if s[i + 3] == 61 {
        let v2 = match b64_val_exec(s[i + 2]) {
            Some(v) => v,
            None => {
                return None;
            },
        };
        assert(v2 < 64);
        if v2 & 3 == 0 {
            let d0 = (v0 << 2) | (v1 >> 4);
            let d1 = ((v1 & 15) << 4) | (v2 >> 2);
            let ghost pre = out@;
            out.push(d0);
            out.push(d1);
            proof {
                assert(b64_decode(rest) == Some(seq![d0, d1]));
                assert(pre + seq![d0, d1] =~= out@);
            }
            return Some(out);
        } else {
            return None;
        }
    }
    let v2 = match b64_val_exec(s[i + 2]) {
        Some(v) => v,
        None => {
            return None;
        },
    };
    let v3 = match b64_val_exec(s[i + 3]) {
        Some(v) => v,
        None => {
            return None;
        },
    };
    assert(v2 < 64 && v3 < 64);
    let d0 = (v0 << 2) | (v1 >> 4);
    let d1 = ((v1 & 15) << 4) | (v2 >> 2);
    let d2 = ((v2 & 3) << 6) | v3;
    let ghost pre = out@;
    out.push(d0);
    out.push(d1);
    out.push(d2);
    proof {
        assert(b64_decode(rest) == Some(seq![d0, d1, d2]));
        assert(pre + seq![d0, d1, d2] =~= out@);
    }
    Some(out)
}

} // verus!
