//! The cryptographic core of a worker lane: authenticated encryption and
//! decryption of one block under AES-128-GCM with empty associated data.
//!
//! The cipher itself is outside code. Its two operations are deterministic
//! functions of the key, the nonce and the message, so each is given a name
//! (`seal_of`, `unseal_of`) that the contracts of the callers speak of. The
//! nonce generator is random and gets no name: nothing is promised of it but
//! its length.

use vstd::prelude::*;

use crate::frame::Record;
use crate::keys::Key;
use crate::CryptError;
use crate::BLOCK_SIZE;
use crate::KEY_SIZE;
use crate::NONCE_SIZE;
use crate::TAG_SIZE;

verus! {

/// The largest plaintext AES-GCM accepts: longer inputs make the cipher
/// report an internal failure instead of encrypting.
pub const PLAIN_MAX: u64 = 0x10_0000_0000;

/// The ciphertext-with-tag that AES-128-GCM produces for a key, a nonce and
/// a plaintext, left uninterpreted: it is a function of those three alone.
pub uninterp spec fn seal_of(key: Seq<u8>, nonce: Seq<u8>, plain: Seq<u8>) -> Seq<u8>;

/// What AES-128-GCM decryption returns for a key, a nonce and a
/// ciphertext-with-tag: the plaintext when the tag verifies, nothing when it
/// does not. A function of the three arguments alone.
pub uninterp spec fn unseal_of(key: Seq<u8>, nonce: Seq<u8>, sealed: Seq<u8>) -> Option<Seq<u8>>;

/// Relies on aes_gcm::Aes128Gcm through aead::Aead::encrypt (the cipher is
/// rebuilt from the key bytes by aead::KeyInit::new): the result is the
/// ciphertext with a 16-byte tag appended, it is a function of key, nonce
/// and plaintext alone, decrypting it with the same key and nonce yields the
/// plaintext back, and encryption succeeds exactly when the plaintext is no
/// longer than `PLAIN_MAX` (the associated data is empty).
#[verifier::external_body]
fn aes_gcm_seal(key: &Vec<u8>, nonce: &Vec<u8>, plain: &Vec<u8>) -> (r: Option<Vec<u8>>)
    requires
        key@.len() == KEY_SIZE,
        nonce@.len() == NONCE_SIZE,
    ensures
        r is Some <==> plain@.len() <= PLAIN_MAX,
        r matches Some(sealed) ==> {
            &&& sealed@ == seal_of(key@, nonce@, plain@)
            &&& sealed@.len() == plain@.len() + TAG_SIZE
            &&& unseal_of(key@, nonce@, sealed@) == Some(plain@)
        },
{
    let cipher = <aes_gcm::Aes128Gcm as aes_gcm::KeyInit>::new(
        aes_gcm::Key::<aes_gcm::Aes128Gcm>::from_slice(key.as_slice()),
    );
    let nonce = aes_gcm::Nonce::from_slice(nonce.as_slice());
    aes_gcm::aead::Aead::encrypt(&cipher, nonce, plain.as_slice()).ok()
}

/// Relies on aes_gcm::Aes128Gcm through aead::Aead::decrypt (the cipher is
/// rebuilt from the key bytes by aead::KeyInit::new): the result is a
/// function of key, nonce and ciphertext alone; on success the plaintext is
/// the ciphertext without its 16-byte tag; a ciphertext shorter than the tag
/// is always rejected (the associated data is empty).
#[verifier::external_body]
fn aes_gcm_unseal(key: &Vec<u8>, nonce: &Vec<u8>, sealed: &Vec<u8>) -> (r: Option<Vec<u8>>)
    requires
        key@.len() == KEY_SIZE,
        nonce@.len() == NONCE_SIZE,
    ensures
        r matches Some(plain) ==> {
            &&& unseal_of(key@, nonce@, sealed@) == Some(plain@)
            &&& sealed@.len() >= TAG_SIZE
            &&& plain@.len() == sealed@.len() - TAG_SIZE
        },
        r is None ==> unseal_of(key@, nonce@, sealed@) is None,
        sealed@.len() < TAG_SIZE ==> r is None,
{
    let cipher = <aes_gcm::Aes128Gcm as aes_gcm::KeyInit>::new(
        aes_gcm::Key::<aes_gcm::Aes128Gcm>::from_slice(key.as_slice()),
    );
    let nonce = aes_gcm::Nonce::from_slice(nonce.as_slice());
    aes_gcm::aead::Aead::decrypt(&cipher, nonce, sealed.as_slice()).ok()
}

/// Relies on rand::random: the nonce is 12 bytes of cryptographic
/// randomness. Nothing else is promised of it.
#[verifier::external_body]
fn fresh_nonce() -> (r: Vec<u8>)
    ensures
        r@.len() == NONCE_SIZE,
{
    rand::random::<[u8; 12]>().to_vec()
}

/// What one encryption lane does with one job: draw a fresh nonce and seal
/// the block under it. The record it returns opens back to the block under
/// the same key. A block is at most `BLOCK_SIZE` bytes, and for such blocks
/// the cipher cannot fail, so the failure arm is provably never taken.
pub fn encrypt_block(key: &Key, plain: Vec<u8>) -> (r: Result<Record, CryptError>)
    requires
        key.wf(),
        plain@.len() <= BLOCK_SIZE,
    ensures
        r is Ok,
        r matches Ok(rec) ==> {
            &&& rec.wf()
            &&& rec.ciphertext@.len() == plain@.len() + TAG_SIZE
            &&& rec.ciphertext@ == seal_of(key@, rec.nonce@, plain@)
            &&& unseal_of(key@, rec.nonce@, rec.ciphertext@) == Some(plain@)
        },
{
    let nonce = fresh_nonce();
    match aes_gcm_seal(key.as_bytes(), &nonce, &plain) {
        Some(sealed) => Ok(Record { nonce, ciphertext: sealed }),
        None => Err(CryptError::EncryptionFailure),
    }
}

/// What one decryption lane does with one job: open the record's ciphertext
/// under the record's own nonce. A tag that does not verify is an
/// `AuthenticationFailure`; it is never retried.
pub fn decrypt_block(key: &Key, rec: &Record) -> (r: Result<Vec<u8>, CryptError>)
    requires
        key.wf(),
        rec.nonce@.len() == NONCE_SIZE,
    ensures
        r matches Ok(plain) ==> unseal_of(key@, rec.nonce@, rec.ciphertext@) == Some(plain@)
            && rec.ciphertext@.len() >= TAG_SIZE && plain@.len() == rec.ciphertext@.len()
            - TAG_SIZE,
        r is Err ==> r == Err::<Vec<u8>, CryptError>(CryptError::AuthenticationFailure)
            && unseal_of(key@, rec.nonce@, rec.ciphertext@) is None,
{
    match aes_gcm_unseal(key.as_bytes(), &rec.nonce, &rec.ciphertext) {
        Some(plain) => Ok(plain),
        None => Err(CryptError::AuthenticationFailure),
    }
}

} // verus!
