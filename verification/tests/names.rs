//! Tests of key derivation and of the orchestrator's pure decision points.

use blockcrypt::keys::derive_key;
use blockcrypt::orchestrate::{encrypted_name, needs_confirmation, strip_suffix_name};
use blockcrypt::CryptError;

#[test]
fn empty_passphrase_is_invalid_key() {
    assert!(matches!(derive_key(&Vec::new()), Err(CryptError::InvalidKey)));
}

#[test]
fn key_is_truncated_sha256_of_passphrase() {
    // SHA-256("secret") begins 2bb80d537b1da3e38bd30361aa855686...
    let key = derive_key(&b"secret".to_vec()).unwrap();
    let expected: Vec<u8> = vec![
        0x2b, 0xb8, 0x0d, 0x53, 0x7b, 0x1d, 0xa3, 0xe3, 0x8b, 0xd3, 0x03, 0x61, 0xaa, 0x85, 0x56,
        0x86,
    ];
    assert_eq!(key.as_bytes(), &expected);
}

#[test]
fn same_passphrase_same_key() {
    let a = derive_key(&b"correct horse".to_vec()).unwrap();
    let b = derive_key(&b"correct horse".to_vec()).unwrap();
    assert_eq!(a.as_bytes(), b.as_bytes());
    let c = derive_key(&b"correct  horse".to_vec()).unwrap();
    assert_ne!(a.as_bytes(), c.as_bytes());
}

#[test]
fn encrypted_name_appends_dot_and_extension() {
    let name = encrypted_name(&b"notes.txt".to_vec(), &b"enc".to_vec());
    assert_eq!(name, b"notes.txt.enc".to_vec());
}

#[test]
fn strip_suffix_name_accepts_only_the_suffix() {
    let base = strip_suffix_name(&b"notes.txt.enc".to_vec(), &b".enc".to_vec());
    assert_eq!(base, Some(b"notes.txt".to_vec()));
    assert_eq!(strip_suffix_name(&b"notes.txt".to_vec(), &b".enc".to_vec()), None);
    assert_eq!(strip_suffix_name(&b"enc".to_vec(), &b".enc".to_vec()), None);
    assert_eq!(strip_suffix_name(&b".enc".to_vec(), &b".enc".to_vec()), Some(Vec::new()));
}

#[test]
fn confirmation_only_for_existing_output_without_force() {
    assert!(needs_confirmation(true, false));
    assert!(!needs_confirmation(true, true));
    assert!(!needs_confirmation(false, false));
    assert!(!needs_confirmation(false, true));
}
