//! Symmetric cryptography used by the vault: key derivation (PBKDF2-HMAC-SHA256) and
//! authenticated encryption of regions (AES-256-GCM).
use vstd::prelude::*;
use vstd::utf8::encode_utf8;
use aes_gcm::aead::{Aead, OsRng};
use aes_gcm::{AeadCore, Aes256Gcm, Key, KeyInit};
use crate::error::CryptographyError;

verus! {

/// The length of the initialization vector (salt) used in PBKDF2 key generation
pub const IV_LENGTH: usize = 16;
/// Number of PBKDF2 rounds used to derive the user key
pub const PBKDF2_ITERATIONS: usize = 300000;
/// Length of an AES-256 key
pub const KEY_LENGTH: usize = 32;
/// Length of an AES-GCM nonce
pub const AES_NONCE_LENGTH: usize = 12;
/// Length of the AES-GCM authentication tag appended to every ciphertext
pub const AES_TAG_LENGTH: usize = 16;
/// Largest plaintext AES-GCM accepts (2^36 bytes)
pub const AES_MAX_PLAINTEXT: u64 = 0x10_0000_0000;

/// The ciphertext (with tag) that AES-256-GCM produces for `plaintext` under `key` and `nonce`.
pub uninterp spec fn aes256gcm_seal(key: Seq<u8>, nonce: Seq<u8>, plaintext: Seq<u8>) -> Seq<u8>;

/// The outcome of AES-256-GCM decryption of `ciphertext` (with tag) under `key` and `nonce`:
/// `None` when the authentication tag does not verify.
pub uninterp spec fn aes256gcm_open(key: Seq<u8>, nonce: Seq<u8>, ciphertext: Seq<u8>) -> Option<Seq<u8>>;

/// The 32-byte key that PBKDF2-HMAC-SHA256 derives from `password` and `salt` in `rounds` rounds.
pub uninterp spec fn pbkdf2_hmac_sha256(password: Seq<u8>, salt: Seq<u8>, rounds: nat) -> Seq<u8>;

/// Calls `aes_gcm::Aes256Gcm::encrypt` (through `aead::Aead`) with an empty associated data.
/// Claimed: the call fails exactly when the plaintext is longer than 2^36 bytes; otherwise the
/// ciphertext is the named AES-GCM seal of the arguments, is 16 bytes longer than the plaintext,
/// and decrypts with the same key and nonce to the plaintext (AEAD correctness).
#[verifier::external_body]
fn aes_seal(key: &[u8], nonce: &[u8; AES_NONCE_LENGTH], data: &[u8]) -> (r: Option<Vec<u8>>)
    requires
        key@.len() == KEY_LENGTH,
    ensures
        r is Some <==> data@.len() <= AES_MAX_PLAINTEXT,
        r matches Some(c) ==> c@ == aes256gcm_seal(key@, nonce@, data@),
        r matches Some(c) ==> c@.len() == data@.len() + AES_TAG_LENGTH,
        r matches Some(c) ==> aes256gcm_open(key@, nonce@, c@) == Some(data@),
{
    let cipher = Aes256Gcm::new(Key::<Aes256Gcm>::from_slice(key));
    cipher.encrypt(nonce.into(), data).ok()
}

/// Calls `aes_gcm::Aes256Gcm::decrypt` (through `aead::Aead`) with an empty associated data.
/// Claimed: the result is the named AES-GCM opening of the arguments; a successful opening is
/// 16 bytes shorter than the ciphertext.
#[verifier::external_body]
fn aes_open(key: &[u8], nonce: &[u8; AES_NONCE_LENGTH], data: &[u8]) -> (r: Option<Vec<u8>>)
    requires
        key@.len() == KEY_LENGTH,
    ensures
        r matches Some(p) ==> aes256gcm_open(key@, nonce@, data@) == Some(p@),
        r is None ==> aes256gcm_open(key@, nonce@, data@) is None,
        r matches Some(p) ==> p@.len() + AES_TAG_LENGTH == data@.len(),
{
    let cipher = Aes256Gcm::new(Key::<Aes256Gcm>::from_slice(key));
    cipher.decrypt(nonce.into(), data).ok()
}

/// Calls `aes_gcm::Aes256Gcm::generate_nonce` with the operating system's random generator.
/// Nothing is claimed of the nonce: it is random.
#[verifier::external_body]
fn aes_random_nonce() -> (r: [u8; AES_NONCE_LENGTH]) {
    Aes256Gcm::generate_nonce(&mut OsRng).into()
}

/// Calls `pbkdf2::pbkdf2_hmac_array::<sha2::Sha256, 32>`.
/// Claimed: the result is the named PBKDF2-HMAC-SHA256 key of the arguments.
#[verifier::external_body]
fn pbkdf2_sha256(password: &[u8], salt: &[u8], rounds: u32) -> (r: [u8; KEY_LENGTH])
    ensures
        r@ == pbkdf2_hmac_sha256(password@, salt@, rounds as nat),
{
    pbkdf2::pbkdf2_hmac_array::<sha2::Sha256, KEY_LENGTH>(password, salt, rounds)
}

/// The result of an encryption: the nonce that was generated and the ciphertext (with tag)
#[derive(Debug)]
pub struct EncryptedData {
    /// The nonce generated in the process
    pub nonce: [u8; AES_NONCE_LENGTH],
    /// The encrypted data, 16 bytes longer than the plaintext
    pub data: Vec<u8>,
}

/// Generate the user key from a password and an initialization vector using PBKDF2
/// (HMAC-SHA256, 300000 rounds, 32 bytes of output). The password enters as its UTF-8 bytes.
pub fn generate_user_key(password: String, iv: &[u8; IV_LENGTH]) -> (r: [u8; KEY_LENGTH])
    ensures
        r@ == pbkdf2_hmac_sha256(encode_utf8(password@), iv@, PBKDF2_ITERATIONS as nat),
{
    pbkdf2_sha256(password.as_str().as_bytes(), iv, PBKDF2_ITERATIONS as u32)
}

/// What decrypting `data` with `nonce` and `key` gives: the plaintext, or an inauthentic tag.
pub open spec fn spec_decrypt(key: Seq<u8>, nonce: Seq<u8>, data: Seq<u8>) -> Result<Seq<u8>, ()> {
    match aes256gcm_open(key, nonce, data) {
        Some(p) => Ok(p),
        None => Err(()),
    }
}

/// Keep a decrypted buffer only if it has exactly `n` elements.
fn get_array_from_vec(vec: Vec<u8>, n: usize) -> (r: Result<Vec<u8>, CryptographyError>)
    ensures
        vec@.len() == n ==> (r matches Ok(v) && v@ == vec@),
        vec@.len() != n ==> (r matches Err(CryptographyError::InvalidLength { expected, actual })
            && expected == n && actual == vec@.len()),
{
    if vec.len() == n {
        Ok(vec)
    } else {
        let actual = vec.len();
        Err(CryptographyError::InvalidLength { expected: n, actual })
    }
}

/// Decrypt a region of `len` bytes: `data` holds the ciphertext followed by the 16-byte tag.
/// The result is the plaintext, or `InauthenticTag` when the tag does not verify.
pub fn decrypt_region(data: &[u8], nonce: &[u8; AES_NONCE_LENGTH], key: &[u8], len: usize) -> (r: Result<
    Vec<u8>,
    CryptographyError,
>)
    requires
        key@.len() == KEY_LENGTH,
        data@.len() == len + AES_TAG_LENGTH,
    ensures
        r matches Ok(p) ==> spec_decrypt(key@, nonce@, data@) == Ok::<Seq<u8>, ()>(p@) && p@.len() == len,
        r is Err ==> spec_decrypt(key@, nonce@, data@) is Err && r matches Err(CryptographyError::InauthenticTag),
{
    match aes_open(key, nonce, data) {
        None => Err(CryptographyError::InauthenticTag),
        Some(mut plain) => {
            let ghost opened = plain@;
            plain.truncate(len);
            assert(plain@ =~= opened);
            get_array_from_vec(plain, len)
        },
    }
}

/// Decrypt a region of any size (ciphertext followed by its tag).
pub fn decrypt_region_dyn(data: Vec<u8>, nonce: &[u8; AES_NONCE_LENGTH], key: &[u8]) -> (r: Result<
    Vec<u8>,
    CryptographyError,
>)
    requires
        key@.len() == KEY_LENGTH,
    ensures
        r matches Ok(p) ==> spec_decrypt(key@, nonce@, data@) == Ok::<Seq<u8>, ()>(p@),
        r is Err ==> spec_decrypt(key@, nonce@, data@) is Err && r matches Err(CryptographyError::InauthenticTag),
{
    match aes_open(key, nonce, data.as_slice()) {
        None => Err(CryptographyError::InauthenticTag),
        Some(plain) => Ok(plain),
    }
}

/// Encrypt a region with a freshly generated nonce. The result holds the nonce and the
/// ciphertext, 16 bytes longer than `data` (authentication tag).
pub fn encrypt_region(data: &[u8], key: &[u8]) -> (r: Result<EncryptedData, CryptographyError>)
    requires
        key@.len() == KEY_LENGTH,
    ensures
        r is Ok <==> data@.len() <= AES_MAX_PLAINTEXT,
        r matches Ok(e) ==> e.data@ == aes256gcm_seal(key@, e.nonce@, data@),
        r matches Ok(e) ==> e.data@.len() == data@.len() + AES_TAG_LENGTH,
        r matches Ok(e) ==> spec_decrypt(key@, e.nonce@, e.data@) == Ok::<Seq<u8>, ()>(data@),
        r is Err ==> r matches Err(CryptographyError::InauthenticTag),
{
    let nonce = aes_random_nonce();
    match aes_seal(key, &nonce, data) {
        None => Err(CryptographyError::InauthenticTag),
        Some(c) => Ok(EncryptedData { nonce, data: c }),
    }
}

} // verus!