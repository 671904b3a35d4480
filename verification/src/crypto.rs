//! Key derivation and the sealed blob: the serialized collection encrypted
//! under AES-256-GCM, followed by the nonce it was sealed with.

use aes_gcm::aead::{Aead, AeadCore, KeyInit, OsRng};
use aes_gcm::{Aes256Gcm, Key, Nonce};
use sha2::{Digest, Sha256};
use std::string::FromUtf8Error;
use vstd::prelude::*;
use vstd::utf8::{decode_utf8, encode_utf8, valid_utf8};

verus! {

/// The number of bytes in a nonce, which end every sealed blob.
pub const NONCE_LEN: usize = 12;

/// The longest plaintext, in bytes, that can be sealed.
pub const MAX_PLAINTEXT_LEN: u64 = 0x10_0000_0000;

/// Why a blob could not be opened.
#[derive(Debug, Clone, Copy, PartialEq, Eq, Structural)]
pub enum DecryptError {
    /// The authentication tag does not verify: the master password is wrong
    /// or the blob was altered.
    AuthenticationFailed,
    /// The opened bytes are not valid UTF-8.
    EncodingError,
    /// The blob is shorter than a nonce.
    InsufficientData,
}

impl DecryptError {
    /// The message that describes the error to the user.
    pub open spec fn message_spec(self) -> Seq<char> {
        match self {
            DecryptError::AuthenticationFailed => "Master password is incorrect"@,
            DecryptError::EncodingError => "UTF-8 error: decrypted data is not valid text"@,
            DecryptError::InsufficientData => "Insufficient data length"@,
        }
    }

    /// The message that describes the error to the user.
    pub fn message(&self) -> (text: String)
        ensures
            text@ == self.message_spec(),
    {
        match self {
            DecryptError::AuthenticationFailed => "Master password is incorrect".to_owned(),
            DecryptError::EncodingError => "UTF-8 error: decrypted data is not valid text".to_owned(),
            DecryptError::InsufficientData => "Insufficient data length".to_owned(),
        }
    }
}

/// The error of the `aead` traits, which says nothing of its cause.
#[verifier::external_type_specification]
#[verifier::external_body]
pub struct ExAeadError(aes_gcm::Error);

/// The error of `String::from_utf8`.
#[verifier::external_type_specification]
#[verifier::external_body]
pub struct ExFromUtf8Error(FromUtf8Error);

/// The SHA-256 digest of `data`, as `sha2` computes it.
pub uninterp spec fn sha256(data: Seq<u8>) -> Seq<u8>;

/// What `Aes256Gcm::encrypt` returns for a plaintext it accepts, with no
/// associated data: the ciphertext followed by the authentication tag.
pub uninterp spec fn aes256_gcm_seal(key: Seq<u8>, nonce: Seq<u8>, plaintext: Seq<u8>) -> Seq<u8>;

/// What `Aes256Gcm::decrypt` returns, with no associated data: the plaintext,
/// or nothing where the tag does not verify or the input has no room for one.
pub uninterp spec fn aes256_gcm_open(key: Seq<u8>, nonce: Seq<u8>, sealed: Seq<u8>) -> Option<
    Seq<u8>,
>;

/// Calls `Sha256::digest` of the `sha2` crate: the result is the SHA-256
/// digest of `data`, a function of the bytes alone, and 32 bytes long.
#[verifier::external_body]
fn sha256_digest(data: &[u8]) -> (digest: [u8; 32])
    ensures
        digest@ == sha256(data@),
{
    Sha256::digest(data).into()
}

/// Calls `Aes256Gcm::generate_nonce` of the `aes-gcm` crate with the
/// operating system's random source. Nothing is claimed of the bytes.
#[verifier::external_body]
fn fresh_nonce() -> (nonce: [u8; 12]) {
    Aes256Gcm::generate_nonce(&mut OsRng).into()
}

/// Calls `Aes256Gcm::encrypt` of the `aes-gcm` crate with no associated
/// data. The call fails exactly when the plaintext is longer than the
/// crate's `P_MAX`; otherwise its result is a function of key, nonce and
/// plaintext alone, and `Aes256Gcm::decrypt` with the same key and nonce
/// opens it to the plaintext.
#[verifier::external_body]
fn aead_seal(key: &[u8; 32], nonce: &[u8; 12], plaintext: &[u8]) -> (r: Result<
    Vec<u8>,
    aes_gcm::Error,
>)
    ensures
        r is Ok <==> plaintext@.len() <= MAX_PLAINTEXT_LEN,
        r matches Ok(sealed) ==> sealed@ == aes256_gcm_seal(key@, nonce@, plaintext@)
            && aes256_gcm_open(key@, nonce@, sealed@) == Some(plaintext@),
{
    Aes256Gcm::new(Key::<Aes256Gcm>::from_slice(key)).encrypt(Nonce::from_slice(nonce), plaintext)
}

/// Calls `Aes256Gcm::decrypt` of the `aes-gcm` crate with no associated
/// data. Its result is a function of key, nonce and input alone. The nonce
/// must be 12 bytes long: the crate panics on any other length.
#[verifier::external_body]
fn aead_open(key: &[u8; 32], nonce: &[u8], sealed: &[u8]) -> (r: Result<Vec<u8>, aes_gcm::Error>)
    requires
        nonce@.len() == 12,
    ensures
        r is Ok <==> aes256_gcm_open(key@, nonce@, sealed@) is Some,
        r matches Ok(plaintext) ==> aes256_gcm_open(key@, nonce@, sealed@) == Some(plaintext@),
{
    Aes256Gcm::new(Key::<Aes256Gcm>::from_slice(key)).decrypt(Nonce::from_slice(nonce), sealed)
}

/// Calls `String::from_utf8`, which succeeds exactly on valid UTF-8 and then
/// returns the text that the bytes encode.
#[verifier::external_body]
fn string_from_utf8(bytes: Vec<u8>) -> (r: Result<String, FromUtf8Error>)
    ensures
        r is Ok <==> valid_utf8(bytes@),
        r matches Ok(text) ==> text@ == decode_utf8(bytes@),
{
    String::from_utf8(bytes)
}

/// The key that a vault is sealed with. It can be derived from a password or
/// made from 32 bytes, and used to seal and to open.
pub struct EncryptionKey {
    bytes: [u8; 32],
}

impl View for EncryptionKey {
    type V = Seq<u8>;

    closed spec fn view(&self) -> Seq<u8> {
        self.bytes@
    }
}

impl EncryptionKey {
    /// The key made of `bytes`.
    pub fn from_bytes(bytes: [u8; 32]) -> (key: EncryptionKey)
        ensures
            key@ == bytes@,
            key@.len() == 32,
    {
        EncryptionKey { bytes }
    }
}

/// The key that belongs to a master password: the SHA-256 digest of the
/// password's UTF-8 bytes.
pub open spec fn key_spec(password: Seq<char>) -> Seq<u8> {
    sha256(encode_utf8(password))
}

/// A sealed blob: the ciphertext with its tag, then the nonce.
pub open spec fn sealed_blob(plaintext: Seq<u8>, key: Seq<u8>, nonce: Seq<u8>) -> Seq<u8> {
    aes256_gcm_seal(key, nonce, plaintext) + nonce
}

/// What opening `blob` with `key` gives: the text that was sealed, or the
/// reason why there is none.
pub open spec fn decrypt_spec(blob: Seq<u8>, key: Seq<u8>) -> Result<Seq<char>, DecryptError> {
    if blob.len() < 12 {
        Err(DecryptError::InsufficientData)
    } else {
        let cut = blob.len() - 12;
        match aes256_gcm_open(key, blob.subrange(cut, blob.len() as int), blob.subrange(0, cut)) {
            None => Err(DecryptError::AuthenticationFailed),
            Some(plaintext) => if valid_utf8(plaintext) {
                Ok(decode_utf8(plaintext))
            } else {
                Err(DecryptError::EncodingError)
            },
        }
    }
}

/// Derives the key from a master password. Any password gives a key, the
/// empty one too, and the same password always gives the same key.
pub fn generate_key_from_password(password: &str) -> (key: EncryptionKey)
    ensures
        key@ == key_spec(password@),
        key@.len() == 32,
{
    let digest = sha256_digest(password.as_bytes());
    EncryptionKey::from_bytes(digest)
}

/// Seals `data` under `key` with the given nonce. No nonce may be used twice
/// with one key.
pub fn seal_with_nonce(data: &str, key: &EncryptionKey, nonce: &[u8; 12]) -> (blob: Vec<u8>)
    requires
        encode_utf8(data@).len() <= MAX_PLAINTEXT_LEN,
    ensures
        blob@ == sealed_blob(encode_utf8(data@), key@, nonce@),
        decrypt_spec(blob@, key@) == Ok::<_, DecryptError>(data@),
{
    broadcast use {vstd::utf8::encode_utf8_valid_utf8, vstd::utf8::encode_utf8_decode_utf8};

    let mut blob = aead_seal(&key.bytes, nonce, data.as_bytes()).unwrap();
    let ghost sealed = blob@;
    let mut i: usize = 0;
    while i < NONCE_LEN
        invariant
            i <= 12,
            nonce@.len() == 12,
            blob@ == sealed + nonce@.subrange(0, i as int),
        decreases 12 - i,
    {
        blob.push(nonce[i]);
        i += 1;
    }
    proof {
        assert(nonce@.subrange(0, 12) == nonce@);
        let cut = blob@.len() - 12;
        assert(blob@.subrange(cut, blob@.len() as int) == nonce@);
        assert(blob@.subrange(0, cut) == sealed);
    }
    blob
}

/// Seals `data` under `key` with a fresh random nonce. The blob is the
/// ciphertext with its tag followed by the nonce, and opening it with the
/// same key gives `data` back.
pub fn encrypt_data(data: String, key: &EncryptionKey) -> (blob: Vec<u8>)
    requires
        encode_utf8(data@).len() <= MAX_PLAINTEXT_LEN,
    ensures
        exists|nonce: Seq<u8>|
            nonce.len() == 12 && blob@ == #[trigger] sealed_blob(encode_utf8(data@), key@, nonce),
        decrypt_spec(blob@, key@) == Ok::<_, DecryptError>(data@),
{
    let nonce = fresh_nonce();
    let blob = seal_with_nonce(data.as_str(), key, &nonce);
    assert(nonce@.len() == 12 && blob@ == sealed_blob(encode_utf8(data@), key@, nonce@));
    blob
}

/// Opens a sealed blob: splits off the trailing nonce, verifies and decrypts
/// the rest, and reads the result as UTF-8 text.
pub fn decrypt_data(data: Vec<u8>, key: &EncryptionKey) -> (r: Result<String, DecryptError>)
    ensures
        match decrypt_spec(data@, key@) {
            Ok(text) => r matches Ok(s) && s@ == text,
            Err(e) => r == Err::<String, _>(e),
        },
{
    let mut data = data;
    let length = data.len();
    if length < NONCE_LEN {
        return Err(DecryptError::InsufficientData);
    }
    let nonce = data.split_off(length - NONCE_LEN);
    match aead_open(&key.bytes, nonce.as_slice(), data.as_slice()) {
        Err(_) => Err(DecryptError::AuthenticationFailed),
        Ok(plaintext) => match string_from_utf8(plaintext) {
            Ok(text) => Ok(text),
            Err(_) => Err(DecryptError::EncodingError),
        },
    }
}

} // verus!
