//! The cryptographic primitives that the ledger takes from OpenSSL, and
//! the base-58 encoding that it takes from `bs58`.
//!
//! Nothing in this file is proved: each item states what the library
//! believes of a function that lives outside it.

use vstd::prelude::*;

verus! {

/// The SHA-256 digest of a byte string, as OpenSSL computes it.
pub uninterp spec fn sha256_digest(data: Seq<u8>) -> Seq<u8>;

/// `openssl::sha::sha256` hashes `data` in one call. The contract names the
/// 32 bytes it returns; it claims nothing else about them.
pub assume_specification[ openssl::sha::sha256 ](data: &[u8]) -> (digest: [u8; 32])
    ensures
        digest@ == sha256_digest(data@),
;

/// Whether OpenSSL takes `signature`, a DER-encoded ECDSA signature, as
/// valid for `digest` under the public key that `key` encodes in DER.
pub uninterp spec fn ecdsa_accepts(key: Seq<u8>, signature: Seq<u8>, digest: Seq<u8>) -> bool;

/// `openssl::ecdsa::EcdsaSigRef::verify`, on a key read by
/// `PKey::public_key_from_der` and `PKey::ec_key` and a signature read by
/// `EcdsaSig::from_der`. The answer is `false` when either does not parse
/// or when the check itself reports an error. The contract names the
/// answer; it does not say which signatures are valid.
#[verifier::external_body]
pub(crate) fn ecdsa_verify_der(key: &[u8], signature: &[u8], digest: &[u8; 32]) -> (ok: bool)
    ensures
        ok == ecdsa_accepts(key@, signature@, digest@),
{
    let parsed_key = openssl::pkey::PKey::public_key_from_der(key).and_then(|k| k.ec_key());
    let parsed_sig = openssl::ecdsa::EcdsaSig::from_der(signature);
    match (parsed_key, parsed_sig) {
        (Ok(k), Ok(s)) => s.verify(digest, &k).unwrap_or(false),
        _ => false,
    }
}

/// The text of a byte string in base 58 with the alphabet of Bitcoin, as
/// `bs58` writes it.
pub uninterp spec fn base58_text(bytes: Seq<u8>) -> Seq<char>;

/// `bs58::encode` with its default alphabet, taken `into_string`. The
/// contract names the text; it does not say what it is.
#[verifier::external_body]
pub(crate) fn base58_encode(bytes: &[u8]) -> (s: String)
    ensures
        s@ == base58_text(bytes@),
{
    bs58::encode(bytes).into_string()
}

/// An elliptic-curve key of OpenSSL. The library carries such a value and
/// never looks inside it.
#[verifier::external_type_specification]
#[verifier::external_body]
#[verifier::reject_recursive_types(T)]
pub struct ExEcKey<T>(openssl::ec::EcKey<T>);

/// The marker of OpenSSL for a key that has its private part.
#[verifier::external_type_specification]
#[verifier::external_body]
pub struct ExPrivate(openssl::pkey::Private);

/// The error list that OpenSSL hands back when a call fails.
#[verifier::external_type_specification]
#[verifier::external_body]
pub struct ExErrorStack(openssl::error::ErrorStack);

/// `openssl::ec::EcKey::generate` on the group that
/// `EcGroup::from_curve_name` gives for the curve numbered `nid`. The key is
/// random, so nothing is claimed of it.
#[verifier::external_body]
pub(crate) fn generate_key(nid: i32) -> (r: Result<
    openssl::ec::EcKey<openssl::pkey::Private>,
    openssl::error::ErrorStack,
>) {
    openssl::ec::EcGroup::from_curve_name(openssl::nid::Nid::from_raw(nid)).and_then(
        |group| openssl::ec::EcKey::generate(&group),
    )
}

/// `openssl::ec::EcKeyRef::check_key`. Nothing is claimed of the answer.
#[verifier::external_body]
pub(crate) fn check_key(key: &openssl::ec::EcKey<openssl::pkey::Private>) -> (r: Result<
    (),
    openssl::error::ErrorStack,
>) {
    key.check_key()
}

/// `openssl::ec::EcGroupRef::curve_name` on the group of the key, as the
/// number that `Nid::as_raw` gives. Nothing is claimed of the answer.
#[verifier::external_body]
pub(crate) fn curve_nid(key: &openssl::ec::EcKey<openssl::pkey::Private>) -> (r: Option<i32>) {
    key.group().curve_name().map(|nid| nid.as_raw())
}

/// `openssl::pkey::PKeyRef::public_key_to_der` on the public half of the
/// key, which `EcKey::from_public_key` and `PKey::from_ec_key` put together.
/// Nothing is claimed of the bytes.
#[verifier::external_body]
pub(crate) fn public_key_der(key: &openssl::ec::EcKey<openssl::pkey::Private>) -> (r: Result<
    Vec<u8>,
    openssl::error::ErrorStack,
>) {
    openssl::ec::EcKey::from_public_key(key.group(), key.public_key()).and_then(
        |public| openssl::pkey::PKey::from_ec_key(public),
    ).and_then(|pkey| pkey.public_key_to_der())
}

/// `openssl::ecdsa::EcdsaSig::sign` on `digest`, encoded by
/// `EcdsaSigRef::to_der`. Signing draws a random number, so nothing is
/// claimed of the bytes: the caller checks them.
#[verifier::external_body]
pub(crate) fn ecdsa_sign_der(
    key: &openssl::ec::EcKey<openssl::pkey::Private>,
    digest: &[u8; 32],
) -> (r: Result<Vec<u8>, openssl::error::ErrorStack>) {
    openssl::ecdsa::EcdsaSig::sign(digest, key).and_then(|sig| sig.to_der())
}

/// `openssl::ec::EcKeyRef::private_key_to_pem`. Nothing is claimed of the
/// bytes.
#[verifier::external_body]
pub(crate) fn private_key_to_pem(key: &openssl::ec::EcKey<openssl::pkey::Private>) -> (r: Result<
    Vec<u8>,
    openssl::error::ErrorStack,
>) {
    key.private_key_to_pem()
}

/// `openssl::ec::EcKey::private_key_from_pem`, which refuses to run on more
/// bytes than a C `int` counts. Nothing is claimed of the key.
#[verifier::external_body]
pub(crate) fn private_key_from_pem(pem: &[u8]) -> (r: Result<
    openssl::ec::EcKey<openssl::pkey::Private>,
    openssl::error::ErrorStack,
>)
    requires
        pem@.len() <= 0x7fff_ffff,
{
    openssl::ec::EcKey::private_key_from_pem(pem)
}

/// `Clone::clone` of `openssl::ec::EcKey`, which shares the key under a
/// second handle. Nothing is claimed of the copy.
#[verifier::external_body]
pub(crate) fn clone_key(key: &openssl::ec::EcKey<openssl::pkey::Private>) -> (r: openssl::ec::EcKey<
    openssl::pkey::Private,
>) {
    key.clone()
}

} // verus!
