//! Sealed verification tokens: self-contained strings binding a
//! fingerprint and an identity to a purpose and an expiry, protected by
//! a keyed tag. Redemption needs no server-side state beyond the
//! replay-tracking set of consumed tags.

use vstd::prelude::*;
use vstd::utf8::encode_utf8;
use crate::util::{
    le32, le32_val, le64, le64_val, ascii_chars, lemma_le32_roundtrip,
    lemma_le64_roundtrip, bytes_eq,
};
use crate::textenc::{
    b64_encode, b64_decode, b64_encode_exec, b64_decode_exec, ascii_to_string,
    lemma_b64_encode_ascii, lemma_b64_roundtrip, lemma_ascii_roundtrip,
};
use crate::crypto::{hmac_sha256, hmac_sha256_of};

verus! {

/// What a token authorizes: publishing an identity, or removing one.
#[derive(Clone, Copy, PartialEq, Eq, Structural, Debug)]
pub enum Purpose {
    Verify,
    Delete,
}

/// Why redemption failed: past expiry; tampered, malformed or replayed;
/// or presented for the wrong purpose.
#[derive(Clone, Copy, PartialEq, Eq, Structural, Debug)]
pub enum TokenError {
    Expired,
    Invalid,
    WrongPurpose,
}

pub struct TokenService {
    pub secret: Vec<u8>,
    pub consumed: Vec<Vec<u8>>,
}

#[verifier::ext_equal]
pub struct TokenServiceV {
    pub secret: Seq<u8>,
    pub consumed: Seq<Seq<u8>>,
}

impl View for TokenService {
    type V = TokenServiceV;

    open spec fn view(&self) -> TokenServiceV {
        TokenServiceV {
            secret: self.secret@,
            consumed: self.consumed@.map_values(|v: Vec<u8>| v@),
        }
    }
}

pub open spec fn purpose_code(p: Purpose) -> u8 {
    match p {
        Purpose::Verify => 1,
        Purpose::Delete => 2,
    }
}

/// The sealed fields: fingerprint, purpose, expiry, the identity
/// address behind its length.
pub open spec fn token_payload(fpr: Seq<u8>, purpose: Purpose, expiry: u64, email: Seq<u8>)
    -> Seq<u8> {
    fpr + seq![purpose_code(purpose)] + le64(expiry) + le32(email.len() as u32) + email
}

/// The whole token: the payload and its tag, in base64.
pub open spec fn token_bytes(
    secret: Seq<u8>,
    fpr: Seq<u8>,
    purpose: Purpose,
    expiry: u64,
    email: Seq<u8>,
) -> Seq<u8> {
    let payload = token_payload(fpr, purpose, expiry, email);
    b64_encode(payload + hmac_sha256_of(secret, payload))
}

/// What redeeming a token string yields, given the service state.
pub open spec fn redeem_view(
    sv: TokenServiceV,
    token: Seq<char>,
    purpose: Purpose,
    now: u64,
) -> Result<(Seq<u8>, Seq<u8>), TokenError> {
    match b64_decode(encode_utf8(token)) {
        None => Err(TokenError::Invalid),
        Some(b) => {
            if b.len() < 33 {
                Err(TokenError::Invalid)
            } else {
                let elen = le32_val(b.subrange(29, 33)) as int;
                if b.len() < 33 + elen {
                    Err(TokenError::Invalid)
                } else {
                    let payload = b.take(33 + elen);
                    let tag = b.skip(33 + elen);
                    if tag != hmac_sha256_of(sv.secret, payload) {
                        Err(TokenError::Invalid)
                    } else if payload[20] != purpose_code(purpose) {
                        Err(TokenError::WrongPurpose)
                    } else if now > le64_val(payload.subrange(21, 29)) {
                        Err(TokenError::Expired)
                    } else if sv.consumed.contains(tag) {
                        Err(TokenError::Invalid)
                    } else {
                        Ok((payload.take(20), payload.subrange(33, 33 + elen)))
                    }
                }
            }
        },
    }
}

/// The tag a token string carries, for replay tracking.
pub open spec fn token_tag(token: Seq<char>) -> Seq<u8> {
    match b64_decode(encode_utf8(token)) {
        None => Seq::empty(),
        Some(b) => {
            if b.len() < 33 {
                Seq::empty()
            } else {
                b.skip(33 + le32_val(b.subrange(29, 33)) as int)
            }
        },
    }
}

impl TokenService {
    /// A fresh service around a process-wide secret.
    pub fn new(secret: Vec<u8>) -> (r: TokenService)
        ensures
            r@.secret == secret@,
            r@.consumed.len() == 0,
    {
        let r = TokenService { secret, consumed: Vec::new() };
        proof {
            assert(r@.consumed =~= Seq::<Seq<u8>>::empty());
        }
        r
    }

    /// Issues a sealed token binding the fingerprint and identity to the
    /// purpose, expiring `ttl` seconds from `now`.
    pub fn issue(
        &self,
        fpr: &Vec<u8>,
        email: &Vec<u8>,
        purpose: Purpose,
        ttl: u64,
        now: u64,
    ) -> (r: String)
        requires
            fpr@.len() == 20,
            email@.len() < crate::cert::FIELD_LIMIT,
            now + ttl <= u64::MAX,
        ensures
            r@ == ascii_chars(
                token_bytes(self@.secret, fpr@, purpose, (now + ttl) as u64, email@),
            ),
    {
        let expiry = now + ttl;
        let mut payload: Vec<u8> = Vec::new();
        let mut i: usize = 0;
        while i < fpr.len()
            invariant
                i <= fpr@.len(),
                payload@ == fpr@.take(i as int),
            decreases fpr@.len() - i,
        {
            payload.push(fpr[i]);
            proof {
                assert(fpr@.take(i + 1) =~= fpr@.take(i as int).push(fpr@[i as int]));
            }
            i = i + 1;
        }
        proof {
            assert(payload@ =~= fpr@);
        }
        let pc: u8 = match purpose {
            Purpose::Verify => 1,
            Purpose::Delete => 2,
        };
        payload.push(pc);
        crate::util::push_le64(&mut payload, expiry);
        crate::util::push_le32(&mut payload, email.len() as u32);
        let mut j: usize = 0;
        let ghost mid = payload@;
        while j < email.len()
            invariant
                j <= email@.len(),
                payload@ == mid + email@.take(j as int),
            decreases email@.len() - j,
        {
            payload.push(email[j]);
            proof {
                assert(mid + email@.take(j + 1) =~= (mid + email@.take(j as int)).push(
                    email@[j as int],
                ));
            }
            j = j + 1;
        }
        proof {
            assert(payload@ =~= token_payload(fpr@, purpose, expiry, email@));
        }
        let tag = hmac_sha256(self.secret.as_slice(), payload.as_slice());
        let mut whole = payload;
        let ghost pv = whole@;
        let mut k: usize = 0;
        while k < tag.len()
            invariant
                k <= tag@.len(),
                whole@ == pv + tag@.take(k as int),
            decreases tag@.len() - k,
        {
            whole.push(tag[k]);
            proof {
                assert(pv + tag@.take(k + 1) =~= (pv + tag@.take(k as int)).push(tag@[k as int]));
            }
            k = k + 1;
        }
        proof {
            assert(whole@ =~= pv + tag@);
        }
        let enc = b64_encode_exec(whole.as_slice());
        proof {
            lemma_b64_encode_ascii(whole@);
        }
        ascii_to_string(enc)
    }

    /// Redeems a token for a purpose at the given time: checks the tag,
    /// the purpose, the expiry and the replay set, and on success
    /// consumes the token and returns the sealed fingerprint and
    /// identity.
    pub fn redeem(&mut self, token: &str, purpose: Purpose, now: u64) -> (r: Result<
        (Vec<u8>, Vec<u8>),
        TokenError,
    >)
        ensures
            match r {
                Ok(p) => redeem_view(old(self)@, token@, purpose, now) == Ok::<(Seq<u8>, Seq<u8>), TokenError>((p.0@, p.1@)),
                Err(e) => redeem_view(old(self)@, token@, purpose, now) == Err::<
                    (Seq<u8>, Seq<u8>),
                    TokenError,
                >(e),
            },
            final(self)@.secret == old(self)@.secret,
            final(self)@.consumed == if r is Ok {
                old(self)@.consumed.push(token_tag(token@))
            } else {
                old(self)@.consumed
            },
    {
        let bs = token.as_bytes();
        let b = match b64_decode_exec(bs) {
            Some(b) => b,
            None => {
                return Err(TokenError::Invalid);
            },
        };
        if b.len() < 33 {
            return Err(TokenError::Invalid);
        }
        let elen32 = crate::util::read_le32(b.as_slice(), 29);
        let elen = elen32 as usize;
        if b.len() - 33 < elen {
            return Err(TokenError::Invalid);
        }
        let cut = 33 + elen;
        let payload = crate::codec::copy_range(b.as_slice(), 0, cut);
        let tag = crate::codec::copy_range(b.as_slice(), cut, b.len());
        proof {
            assert(payload@ =~= b@.take(33 + elen32 as int));
            assert(tag@ =~= b@.skip(33 + elen32 as int));
        }
        let expect = hmac_sha256(self.secret.as_slice(), payload.as_slice());
        if !bytes_eq(expect.as_slice(), tag.as_slice()) {
            return Err(TokenError::Invalid);
        }
        let pc: u8 = match purpose {
            Purpose::Verify => 1,
            Purpose::Delete => 2,
        };
        if payload[20] != pc {
            return Err(TokenError::WrongPurpose);
        }
        let expiry = crate::util::read_le64(payload.as_slice(), 21);
        proof {
            assert(payload@.subrange(21, 29) =~= b@.take(33 + elen32 as int).subrange(21, 29));
        }
        if now > expiry {
            return Err(TokenError::Expired);
        }
        if self.tag_consumed(&tag) {
            return Err(TokenError::Invalid);
        }
        let ghost pre = self@.consumed;
        self.consumed.push(tag);
        proof {
            assert(self@.consumed =~= pre.push(token_tag(token@)));
        }
        let fpr = crate::codec::copy_range(payload.as_slice(), 0, 20);
        let email = crate::codec::copy_range(payload.as_slice(), 33, payload.len());
        proof {
            let pl = b@.take(33 + elen32 as int);
            assert(fpr@ =~= pl.take(20));
            assert(email@ =~= pl.subrange(33, 33 + elen32 as int));
        }
        Ok((fpr, email))
    }

    fn tag_consumed(&self, tag: &Vec<u8>) -> (r: bool)
        ensures
            r == self@.consumed.contains(tag@),
    {
        let mut i: usize = 0;
        while i < self.consumed.len()
            invariant
                i <= self.consumed@.len(),
                forall|j: int| 0 <= j < i ==> self@.consumed[j] != tag@,
            decreases self.consumed@.len() - i,
        {
            proof {
                assert(self@.consumed[i as int] == self.consumed@[i as int]@);
            }
            if bytes_eq(self.consumed[i].as_slice(), tag.as_slice()) {
                assert(self@.consumed[i as int] == tag@);
                return true;
            }
            i = i + 1;
        }
        proof {
            if self@.consumed.contains(tag@) {
                let j = choose|j: int|
                    0 <= j < self@.consumed.len() && self@.consumed[j] == tag@;
                assert(false);
            }
        }
        false
    }
}

/// The token lifecycle: a token redeems successfully for its purpose up
/// to its expiry while unconsumed; after expiry it is expired; once its
/// tag is in the consumed set it is invalid; and under any other
/// purpose it is rejected as such.
pub proof fn lemma_token_lifecycle(
    sv: TokenServiceV,
    fpr: Seq<u8>,
    email: Seq<u8>,
    purpose: Purpose,
    expiry: u64,
    now: u64,
    other: Purpose,
)
    requires
        fpr.len() == 20,
        email.len() < crate::cert::FIELD_LIMIT,
    ensures
        ({
            let tc = ascii_chars(token_bytes(sv.secret, fpr, purpose, expiry, email));
            let payload = token_payload(fpr, purpose, expiry, email);
            let tag = hmac_sha256_of(sv.secret, payload);
            &&& (now <= expiry && !sv.consumed.contains(tag) ==> redeem_view(sv, tc, purpose, now)
                == Ok::<_, TokenError>((fpr, email)))
            &&& (now > expiry ==> redeem_view(sv, tc, purpose, now) == Err::<
                (Seq<u8>, Seq<u8>),
                _,
            >(TokenError::Expired))
            &&& (now <= expiry && sv.consumed.contains(tag) ==> redeem_view(sv, tc, purpose, now)
                == Err::<(Seq<u8>, Seq<u8>), _>(TokenError::Invalid))
            &&& (other != purpose ==> redeem_view(sv, tc, other, now) == Err::<
                (Seq<u8>, Seq<u8>),
                _,
            >(TokenError::WrongPurpose))
            &&& token_tag(tc) == tag
        }),
{
    let payload = token_payload(fpr, purpose, expiry, email);
    let tag = hmac_sha256_of(sv.secret, payload);
    let whole = payload + tag;
    let tb = b64_encode(whole);
    let tc = ascii_chars(tb);
    lemma_b64_encode_ascii(whole);
    lemma_ascii_roundtrip(tb);
    assert(encode_utf8(tc) == tb);
    lemma_b64_roundtrip(whole);
    assert(b64_decode(encode_utf8(tc)) == Some(whole));
    assert(payload.len() == 33 + email.len());
    assert(whole.len() >= 33);
    assert(whole.subrange(29, 33) =~= le32(email.len() as u32));
    lemma_le32_roundtrip(email.len() as u32);
    let elen = le32_val(whole.subrange(29, 33)) as int;
    assert(elen == email.len());
    assert(whole.len() >= 33 + elen);
    assert(whole.take(33 + elen) =~= payload);
    assert(whole.skip(33 + elen) =~= tag);
    assert(payload[20] == purpose_code(purpose));
    assert(payload.subrange(21, 29) =~= le64(expiry));
    lemma_le64_roundtrip(expiry);
    assert(payload.take(20) =~= fpr);
    assert(payload.subrange(33, 33 + elen) =~= email);
    if other != purpose {
        assert(purpose_code(other) != purpose_code(purpose));
    }
}

} // verus!
