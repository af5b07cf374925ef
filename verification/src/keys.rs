//! Key derivation: a passphrase is hashed once with SHA-256 and the first
//! `KEY_SIZE` bytes of the digest become the symmetric key. The same
//! passphrase always yields the same key; only nonces vary between runs.

use vstd::prelude::*;

use crate::CryptError;
use crate::KEY_SIZE;

verus! {

/// The SHA-256 digest of a byte sequence, left uninterpreted: the engine
/// never needs to know the digest's bits, only that it is a function of the
/// input alone and is 32 bytes long.
pub uninterp spec fn digest_of(data: Seq<u8>) -> Seq<u8>;

/// Relies on sha2::Sha256::digest: the digest is 32 bytes and depends on the
/// input bytes alone.
#[verifier::external_body]
fn sha256_digest(data: &Vec<u8>) -> (r: Vec<u8>)
    ensures
        r@ == digest_of(data@),
        r@.len() == 32,
{
    <sha2::Sha256 as sha2::Digest>::digest(data.as_slice()).to_vec()
}

/// The key that a passphrase derives to: the first `KEY_SIZE` bytes of its
/// SHA-256 digest.
pub open spec fn key_of(pass: Seq<u8>) -> Seq<u8> {
    digest_of(pass).take(KEY_SIZE as int)
}

/// The symmetric key shared read-only by every worker lane of a run.
pub struct Key {
    bytes: Vec<u8>,
}

impl View for Key {
    type V = Seq<u8>;

    closed spec fn view(&self) -> Seq<u8> {
        self.bytes@
    }
}

impl Key {
    /// A key is well formed when it holds exactly `KEY_SIZE` bytes.
    pub open spec fn wf(&self) -> bool {
        self@.len() == KEY_SIZE
    }

    /// Borrows the raw key bytes.
    pub fn as_bytes(&self) -> (r: &Vec<u8>)
        ensures
            r@ == self@,
    {
        &self.bytes
    }
}

/// Derives the symmetric key from a passphrase: the first `KEY_SIZE` bytes
/// of the passphrase's SHA-256 digest. An empty passphrase is rejected with
/// `InvalidKey`; every other passphrase derives a key.
pub fn derive_key(pass: &Vec<u8>) -> (r: Result<Key, CryptError>)
    ensures
        r is Ok <==> pass@.len() != 0,
        pass@.len() == 0 <==> r == Err::<Key, CryptError>(CryptError::InvalidKey),
        r matches Ok(k) ==> k@ == key_of(pass@) && k.wf(),
{
    if pass.len() == 0 {
        return Err(CryptError::InvalidKey);
    }
    let mut digest = sha256_digest(pass);
    digest.truncate(KEY_SIZE);
    Ok(Key { bytes: digest })
}

} // verus!
