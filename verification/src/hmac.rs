//! HMAC-SHA256 message authentication codes.
use vstd::prelude::*;
use pbkdf2::hmac::{Hmac, Mac};
use sha2::Sha256;

verus! {

/// Length of an HMAC-SHA256 code
pub const HMAC_SIZE: usize = 32;

/// The error a MAC reports for a key of a length it cannot take (`crypto_common`).
#[verifier::external_type_specification]
#[verifier::external_body]
pub struct ExInvalidLength(sha2::digest::InvalidLength);

/// The HMAC-SHA256 code of `data` under `key`.
pub uninterp spec fn hmac_sha256(key: Seq<u8>, data: Seq<u8>) -> Seq<u8>;

/// Calls `hmac::Hmac::<Sha256>::new_from_slice`, `update` and `finalize`. Claimed: the result is
/// the named HMAC-SHA256 code of the arguments; the key is accepted at any length (HMAC hashes
/// a long key down), so the call succeeds.
#[verifier::external_body]
fn hmac_sha256_code(data: &[u8], secret_key: &[u8]) -> (r: Result<[u8; HMAC_SIZE], sha2::digest::InvalidLength>)
    ensures
        r is Ok,
        r matches Ok(t) ==> t@ == hmac_sha256(secret_key@, data@),
{
    let mut mac = Hmac::<Sha256>::new_from_slice(secret_key)?;
    mac.update(data);
    Ok(mac.finalize().into_bytes().into())
}

/// Calls `hmac::Hmac::<Sha256>::new_from_slice`, `update` and `verify` (a constant-time
/// comparison). Claimed: it answers whether `target_mac` is the named HMAC-SHA256 code of the
/// arguments; the key is accepted at any length.
#[verifier::external_body]
fn hmac_sha256_verify(target_mac: [u8; HMAC_SIZE], data: &[u8], secret_key: &[u8]) -> (r: Result<
    bool,
    sha2::digest::InvalidLength,
>)
    ensures
        r is Ok,
        r matches Ok(b) ==> (b <==> target_mac@ == hmac_sha256(secret_key@, data@)),
{
    let mut mac = Hmac::<Sha256>::new_from_slice(secret_key)?;
    mac.update(data);
    match mac.verify(&target_mac.into()) {
        Ok(_) => Ok(true),
        Err(_) => Ok(false),
    }
}

/// The HMAC-SHA256 code of `data` under `secret_key`.
pub fn generate_hmac_code(data: &[u8], secret_key: &[u8]) -> (r: Result<[u8; HMAC_SIZE], sha2::digest::InvalidLength>)
    ensures
        r matches Ok(t) && t@ == hmac_sha256(secret_key@, data@),
{
    hmac_sha256_code(data, secret_key)
}

/// Whether `target_mac` is the HMAC-SHA256 code of `data` under `secret_key`.
pub fn verify_hmac_code(target_mac: [u8; HMAC_SIZE], data: &[u8], secret_key: &[u8]) -> (r: Result<
    bool,
    sha2::digest::InvalidLength,
>)
    ensures
        r matches Ok(b) && (b <==> target_mac@ == hmac_sha256(secret_key@, data@)),
{
    hmac_sha256_verify(target_mac, data, secret_key)
}

} // verus!
