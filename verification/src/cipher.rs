//! The envelope cipher: one text field to one self-contained blob and back.
//!
//! A blob is the 96-bit nonce followed by the AES-256-GCM ciphertext with its
//! 128-bit tag, with no length prefix.

use aes_gcm::aead::{Aead, AeadCore, KeyInit, OsRng};
use aes_gcm::{Aes256Gcm, Key, Nonce};
use vstd::prelude::*;
use vstd::slice::*;
use vstd::string::*;
use vstd::utf8::*;

use crate::error::NoteError;

verus! {

/// Bytes in a key.
pub const KEY_LEN: usize = 32;

/// Bytes in a nonce, the prefix of every blob.
pub const NONCE_LEN: usize = 12;

/// Bytes in the authentication tag, the suffix of every blob.
pub const TAG_LEN: usize = 16;

/// The longest plaintext, in bytes, that one AES-GCM message carries.
pub const MAX_PLAINTEXT_LEN: u64 = 0x10_0000_0000;

/// The ciphertext with its tag that AES-256-GCM gives for a key, a nonce and
/// a plaintext, without associated data.
pub uninterp spec fn aes256_gcm_encrypt(key: Seq<u8>, nonce: Seq<u8>, plaintext: Seq<u8>) -> Seq<u8>;

/// The plaintext that AES-256-GCM recovers from a ciphertext with its tag, or
/// `None` where the tag does not authenticate it.
pub uninterp spec fn aes256_gcm_decrypt(key: Seq<u8>, nonce: Seq<u8>, ciphertext: Seq<u8>) -> Option<Seq<u8>>;

/// The blob that sealing `text` under `key` with `nonce` gives.
pub open spec fn sealed(key: Seq<u8>, nonce: Seq<u8>, text: Seq<char>) -> Seq<u8> {
    nonce + aes256_gcm_encrypt(key, nonce, encode_utf8(text))
}

/// What opening `blob` under `key` gives: the text, or the reason for failing.
pub open spec fn opened(key: Seq<u8>, blob: Seq<u8>) -> Result<Seq<char>, NoteError> {
    if blob.len() < NONCE_LEN {
        Err(NoteError::BlobTooShort)
    } else {
        match aes256_gcm_decrypt(
            key,
            blob.subrange(0, NONCE_LEN as int),
            blob.subrange(NONCE_LEN as int, blob.len() as int),
        ) {
            None => Err(NoteError::Authentication),
            Some(bytes) => if valid_utf8(bytes) {
                Ok(decode_utf8(bytes))
            } else {
                Err(NoteError::InvalidUtf8)
            },
        }
    }
}

/// Whether `blob` is `text` sealed under `key`: a nonce, then the ciphertext
/// of the text's UTF-8 bytes under that nonce, then the tag; such a blob
/// opens to `text`.
pub open spec fn is_sealed(blob: Seq<u8>, key: Seq<u8>, text: Seq<char>) -> bool {
    &&& blob.len() == NONCE_LEN + encode_utf8(text).len() + TAG_LEN
    &&& blob == sealed(key, blob.subrange(0, NONCE_LEN as int), text)
    &&& opened(key, blob) == Ok::<Seq<char>, NoteError>(text)
}

/// A 256-bit key.
pub struct SecretKey {
    bytes: Vec<u8>,
}

impl View for SecretKey {
    type V = Seq<u8>;

    closed spec fn view(&self) -> Seq<u8> {
        self.bytes@
    }
}

impl SecretKey {
    #[verifier::type_invariant]
    spec fn well_formed(&self) -> bool {
        self.bytes@.len() == KEY_LEN
    }

    /// Takes a key from its bytes; there must be exactly 32 of them.
    pub fn from_bytes(bytes: &[u8]) -> (res: Option<SecretKey>)
        ensures
            res is Some <==> bytes@.len() == KEY_LEN,
            res matches Some(key) ==> key@ == bytes@,
    {
        if bytes.len() == KEY_LEN {
            Some(SecretKey { bytes: slice_to_vec(bytes) })
        } else {
            None
        }
    }

    /// The key's bytes.
    pub fn as_bytes(&self) -> (bytes: &[u8])
        ensures
            bytes@ == self@,
            bytes@.len() == KEY_LEN,
    {
        proof {
            use_type_invariant(self);
        }
        self.bytes.as_slice()
    }
}

/// Draws a nonce from the operating system's random source, through
/// `Aes256Gcm::generate_nonce`. Only its length is known.
#[verifier::external_body]
fn fresh_nonce() -> (nonce: Vec<u8>)
    ensures
        nonce@.len() == NONCE_LEN,
{
    Aes256Gcm::generate_nonce(&mut OsRng).to_vec()
}

/// `Aead::encrypt` of `Aes256Gcm`, without associated data. It refuses a
/// plaintext of more than 2^36 bytes and nothing else; the result is the
/// ciphertext, as long as the plaintext, followed by the tag, and the same
/// key and nonce decrypt it to the plaintext.
#[verifier::external_body]
fn aead_encrypt(key: &[u8], nonce: &[u8], plaintext: &[u8]) -> (res: Option<Vec<u8>>)
    requires
        key@.len() == KEY_LEN,
        nonce@.len() == NONCE_LEN,
    ensures
        res is Some <==> plaintext@.len() <= MAX_PLAINTEXT_LEN,
        res matches Some(ct) ==> ct@ == aes256_gcm_encrypt(key@, nonce@, plaintext@),
        res matches Some(ct) ==> ct@.len() == plaintext@.len() + TAG_LEN,
        res matches Some(ct) ==> aes256_gcm_decrypt(key@, nonce@, ct@) == Some(plaintext@),
{
    let cipher = Aes256Gcm::new(Key::<Aes256Gcm>::from_slice(key));
    cipher.encrypt(Nonce::from_slice(nonce), plaintext).ok()
}

/// `Aead::decrypt` of `Aes256Gcm`, without associated data: the plaintext
/// where the tag authenticates the ciphertext, `None` otherwise.
#[verifier::external_body]
fn aead_decrypt(key: &[u8], nonce: &[u8], ciphertext: &[u8]) -> (res: Option<Vec<u8>>)
    requires
        key@.len() == KEY_LEN,
        nonce@.len() == NONCE_LEN,
    ensures
        res is Some <==> aes256_gcm_decrypt(key@, nonce@, ciphertext@) is Some,
        res matches Some(pt) ==> aes256_gcm_decrypt(key@, nonce@, ciphertext@) == Some(pt@),
{
    let cipher = Aes256Gcm::new(Key::<Aes256Gcm>::from_slice(key));
    cipher.decrypt(Nonce::from_slice(nonce), ciphertext).ok()
}

/// `String::from_utf8`: the text that the bytes encode, where they are valid
/// UTF-8.
#[verifier::external_body]
pub(crate) fn string_from_utf8(bytes: Vec<u8>) -> (res: Option<String>)
    ensures
        res is Some <==> valid_utf8(bytes@),
        res matches Some(s) ==> s@ == decode_utf8(bytes@),
{
    String::from_utf8(bytes).ok()
}

/// Seals `data` under `key` with the given nonce.
///
/// Fails exactly when the nonce is not 96 bits long or the text has more
/// than 2^36 bytes. A blob that comes back opens to `data` under `key`.
pub fn seal_with_nonce(data: &str, key: &SecretKey, nonce: &[u8]) -> (res: Result<Vec<u8>, NoteError>)
    ensures
        res is Ok <==> nonce@.len() == NONCE_LEN && encode_utf8(data@).len() <= MAX_PLAINTEXT_LEN,
        res matches Ok(blob) ==> blob@ == sealed(key@, nonce@, data@),
        res matches Ok(blob) ==> is_sealed(blob@, key@, data@),
        res matches Err(e) ==> e == NoteError::Encryption,
{
    if nonce.len() != NONCE_LEN {
        return Err(NoteError::Encryption);
    }
    let plaintext = data.as_bytes();
    match aead_encrypt(key.as_bytes(), nonce, plaintext) {
        None => Err(NoteError::Encryption),
        Some(ct) => {
            let mut blob = slice_to_vec(nonce);
            blob.extend_from_slice(ct.as_slice());
            proof {
                assert(blob@ == nonce@ + ct@);
                assert(blob@.subrange(0, NONCE_LEN as int) == nonce@);
                assert(blob@.subrange(NONCE_LEN as int, blob@.len() as int) == ct@);
                encode_utf8_valid_utf8(data@);
                encode_utf8_decode_utf8(data@);
            }
            Ok(blob)
        },
    }
}

/// Seals `data` under `key` with a nonce drawn afresh for this call.
///
/// Fails exactly when the text has more than 2^36 bytes. The blob is the
/// nonce followed by ciphertext and tag, and opens to `data` under `key`.
pub fn encrypt_data(data: &str, key: &SecretKey) -> (res: Result<Vec<u8>, NoteError>)
    ensures
        res is Ok <==> encode_utf8(data@).len() <= MAX_PLAINTEXT_LEN,
        res matches Ok(blob) ==> is_sealed(blob@, key@, data@),
        res matches Err(e) ==> e == NoteError::Encryption,
{
    let nonce = fresh_nonce();
    let res = seal_with_nonce(data, key, nonce.as_slice());
    assert(res matches Ok(blob) ==> blob@.subrange(0, NONCE_LEN as int) == nonce@);
    res
}

/// Opens a blob under `key`: splits off the nonce, authenticates and decrypts
/// the rest, and reads the plaintext as UTF-8.
pub fn decrypt_data(encrypted: &[u8], key: &SecretKey) -> (res: Result<String, NoteError>)
    ensures
        match opened(key@, encrypted@) {
            Ok(text) => res matches Ok(s) && s@ == text,
            Err(e) => res == Err::<String, NoteError>(e),
        },
{
    if encrypted.len() < NONCE_LEN {
        return Err(NoteError::BlobTooShort);
    }
    let nonce = slice_subrange(encrypted, 0, NONCE_LEN);
    let ciphertext = slice_subrange(encrypted, NONCE_LEN, encrypted.len());
    match aead_decrypt(key.as_bytes(), nonce, ciphertext) {
        None => Err(NoteError::Authentication),
        Some(plaintext) => match string_from_utf8(plaintext) {
            None => Err(NoteError::InvalidUtf8),
            Some(text) => Ok(text),
        },
    }
}

} // verus!
