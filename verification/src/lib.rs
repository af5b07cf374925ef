//! A parallel-friendly streaming authenticated-encryption engine.
//!
//! A file is processed as a sequence of fixed-size blocks. Each block is
//! encrypted independently under AES-128-GCM with a fresh random nonce and
//! written as a framed record `length:u32-le || nonce[12] || ciphertext`,
//! where the ciphertext carries a 16-byte authentication tag. Records stand
//! back to back in the output, in the order of the original blocks.

use vstd::prelude::*;

pub mod aead;
pub mod engine;
pub mod frame;
pub mod keys;
pub mod orchestrate;

verus! {

/// Size in bytes of a plaintext block cut from the input during encryption.
pub const BLOCK_SIZE: usize = 4096;

/// Size in bytes of the symmetric key (AES-128).
pub const KEY_SIZE: usize = 16;

/// Size in bytes of a nonce.
pub const NONCE_SIZE: usize = 12;

/// Size in bytes of the authentication tag appended to each ciphertext.
pub const TAG_SIZE: usize = 16;

/// Everything that can go wrong while processing a file.
#[derive(Clone, Copy, Debug, PartialEq, Eq, Structural)]
pub enum CryptError {
    /// The passphrase was empty, so no key could be derived.
    InvalidKey,
    /// Reading or writing a file failed; reported by the surrounding
    /// orchestration, never produced by the engine itself.
    IoError,
    /// A framed record was malformed or cut short.
    TruncatedInput,
    /// An authentication tag did not verify.
    AuthenticationFailure,
    /// The cipher itself failed to encrypt a block.
    EncryptionFailure,
}

} // verus!
