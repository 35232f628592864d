//! Digests, message authentication codes and the comparison of secrets.

use hmac::Mac;
use sha2::Digest;
use subtle::ConstantTimeEq;
use vstd::prelude::*;

verus! {

/// The SHA-256 digest of a message.
pub uninterp spec fn sha256(message: Seq<u8>) -> Seq<u8>;

/// The HMAC of a message under a key, with SHA-1.
pub uninterp spec fn hmac_sha1(key: Seq<u8>, message: Seq<u8>) -> Seq<u8>;

/// The HMAC of a message under a key, with SHA-256.
pub uninterp spec fn hmac_sha256(key: Seq<u8>, message: Seq<u8>) -> Seq<u8>;

/// The HMAC of a message under a key, with SHA-512.
pub uninterp spec fn hmac_sha512(key: Seq<u8>, message: Seq<u8>) -> Seq<u8>;

/// `sha2::Sha256::digest`: 32 bytes that depend on the message alone.
#[verifier::external_body]
pub(crate) fn digest_sha256(message: &[u8]) -> (digest: Vec<u8>)
    ensures
        digest@ == sha256(message@),
        digest@.len() == 32,
{
    sha2::Sha256::digest(message).to_vec()
}

/// `hmac::Hmac` over `sha1::Sha1`, which takes keys of any size: 20 bytes that
/// depend on the key and the message alone.
#[verifier::external_body]
pub(crate) fn mac_sha1(key: &[u8], message: &[u8]) -> (mac: Vec<u8>)
    ensures
        mac@ == hmac_sha1(key@, message@),
        mac@.len() == 20,
{
    let mut mac =
        hmac::Hmac::<sha1::Sha1>::new_from_slice(key).expect("HMAC accepts keys of any size");
    mac.update(message);
    mac.finalize().into_bytes().to_vec()
}

/// `hmac::Hmac` over `sha2::Sha256`, which takes keys of any size: 32 bytes that
/// depend on the key and the message alone.
#[verifier::external_body]
pub(crate) fn mac_sha256(key: &[u8], message: &[u8]) -> (mac: Vec<u8>)
    ensures
        mac@ == hmac_sha256(key@, message@),
        mac@.len() == 32,
{
    let mut mac =
        hmac::Hmac::<sha2::Sha256>::new_from_slice(key).expect("HMAC accepts keys of any size");
    mac.update(message);
    mac.finalize().into_bytes().to_vec()
}

/// `hmac::Hmac` over `sha2::Sha512`, which takes keys of any size: 64 bytes that
/// depend on the key and the message alone.
#[verifier::external_body]
pub(crate) fn mac_sha512(key: &[u8], message: &[u8]) -> (mac: Vec<u8>)
    ensures
        mac@ == hmac_sha512(key@, message@),
        mac@.len() == 64,
{
    let mut mac =
        hmac::Hmac::<sha2::Sha512>::new_from_slice(key).expect("HMAC accepts keys of any size");
    mac.update(message);
    mac.finalize().into_bytes().to_vec()
}

/// `subtle::ConstantTimeEq::ct_eq` on slices of bytes: whether they have the same
/// length and the same bytes. How long the comparison takes is not stated.
#[verifier::external_body]
pub(crate) fn same_bytes(a: &[u8], b: &[u8]) -> (same: bool)
    ensures
        same == (a@ == b@),
{
    a.ct_eq(b).into()
}

} // verus!
