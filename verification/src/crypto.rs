//! Digest and message-authentication primitives, relied on from the
//! outside: a fingerprint digest for content addressing and a keyed tag
//! for sealed tokens.

use vstd::prelude::*;
use hmac::Mac;
use sha2::Digest;

verus! {

pub uninterp spec fn sha256_of(data: Seq<u8>) -> Seq<u8>;

pub uninterp spec fn hmac_sha256_of(key: Seq<u8>, msg: Seq<u8>) -> Seq<u8>;

/// Relies on sha2::Sha256: the digest is a function of the input bytes
/// alone and is 32 bytes long.
#[verifier::external_body]
pub fn sha256(data: &[u8]) -> (r: Vec<u8>)
    ensures
        r@ == sha256_of(data@),
        r@.len() == 32,
{
    sha2::Sha256::digest(data).to_vec()
}

/// Relies on hmac::Hmac over sha2::Sha256: the tag is a function of the
/// key and message bytes alone and is 32 bytes long; any key length is
/// accepted.
#[verifier::external_body]
pub fn hmac_sha256(key: &[u8], msg: &[u8]) -> (r: Vec<u8>)
    ensures
        r@ == hmac_sha256_of(key@, msg@),
        r@.len() == 32,
{
    let mut mac = <hmac::Hmac<sha2::Sha256> as Mac>::new_from_slice(key)
        .expect("any key length is accepted");
    mac.update(msg);
    mac.finalize().into_bytes().to_vec()
}

} // verus!
