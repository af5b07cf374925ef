//! End-to-end tests of the engine: round trips, ordering, nonce freshness,
//! tamper and truncation detection, and the exact on-disk frame layout.

use blockcrypt::aead::{decrypt_block, encrypt_block};
use blockcrypt::engine::{decrypt_stream, encrypt_stream, run, Mode};
use blockcrypt::frame::{decode_record, encode_record, header_ciphertext_len, Record};
use blockcrypt::keys::{derive_key, Key};
use blockcrypt::CryptError;

fn key_from(pass: &[u8]) -> Key {
    derive_key(&pass.to_vec()).expect("non-empty passphrase must derive a key")
}

/// A deterministic pseudo-random byte pattern, enough to notice reordering.
fn pattern(len: usize) -> Vec<u8> {
    let mut out = Vec::with_capacity(len);
    let mut state: u32 = 0x1234_5678;
    for _ in 0..len {
        state = state.wrapping_mul(1664525).wrapping_add(1013904223);
        out.push((state >> 24) as u8);
    }
    out
}

fn round_trip(len: usize, enc_lanes: usize, dec_lanes: usize) {
    let key = key_from(b"secret");
    let data = pattern(len);
    let framed = encrypt_stream(&key, &data, enc_lanes).unwrap();
    let plain = decrypt_stream(&key, &framed, dec_lanes).unwrap();
    assert_eq!(plain, data);
}

#[test]
fn round_trip_empty() {
    let key = key_from(b"secret");
    let data: Vec<u8> = Vec::new();
    let framed = encrypt_stream(&key, &data, 4).unwrap();
    assert!(framed.is_empty(), "empty input must frame to an empty output");
    let plain = decrypt_stream(&key, &framed, 4).unwrap();
    assert!(plain.is_empty());
}

#[test]
fn round_trip_one_block() {
    round_trip(100, 4, 4);
}

#[test]
fn round_trip_exactly_one_block() {
    round_trip(4096, 4, 4);
}

#[test]
fn round_trip_exactly_lane_count_blocks() {
    // 4 lanes, exactly 4 blocks: one full round.
    round_trip(4 * 4096, 4, 4);
}

#[test]
fn round_trip_non_multiple_length() {
    round_trip(10000, 4, 4);
}

#[test]
fn round_trip_through_run() {
    let key = key_from(b"secret");
    let data = pattern(5000);
    let framed = run(&key, Mode::Encrypt, &data, 2).unwrap();
    let plain = run(&key, Mode::Decrypt, &framed, 2).unwrap();
    assert_eq!(plain, data);
}

#[test]
fn order_preserved_across_lane_counts() {
    // Encrypting and decrypting with any lane counts in {1, 2, 8} must give
    // byte-identical plaintext back: ordering may not depend on scheduling.
    let key = key_from(b"secret");
    let data = pattern(3 * 4096 + 1808);
    for &enc_lanes in &[1usize, 2, 8] {
        let framed = encrypt_stream(&key, &data, enc_lanes).unwrap();
        for &dec_lanes in &[1usize, 2, 8] {
            let plain = decrypt_stream(&key, &framed, dec_lanes).unwrap();
            assert_eq!(plain, data, "lanes {} then {}", enc_lanes, dec_lanes);
        }
    }
}

#[test]
fn nonces_are_unique_across_a_run() {
    // 10000 blocks encrypted in one run: no nonce may repeat.
    let key = key_from(b"secret");
    let mut nonces: Vec<Vec<u8>> = Vec::with_capacity(10000);
    for _ in 0..10000 {
        let rec = encrypt_block(&key, vec![0u8]).unwrap();
        assert_eq!(rec.nonce.len(), 12);
        nonces.push(rec.nonce);
    }
    nonces.sort();
    for pair in nonces.windows(2) {
        assert_ne!(pair[0], pair[1], "a nonce repeated within one run");
    }
}

#[test]
fn scenario_hello_world() {
    // Passphrase "secret", block b"hello world": the record carries a length
    // of 27 (11 bytes + 16-byte tag), a 12-byte nonce and 27 ciphertext
    // bytes; the same passphrase opens it, a wrong one fails the tag check.
    let key = key_from(b"secret");
    let rec = encrypt_block(&key, b"hello world".to_vec()).unwrap();
    assert_eq!(rec.nonce.len(), 12);
    assert_eq!(rec.ciphertext.len(), 27);
    assert_ne!(&rec.ciphertext[..11], b"hello world", "ciphertext must not echo the plaintext");

    let framed = encode_record(&rec);
    assert_eq!(framed.len(), 4 + 12 + 27);
    assert_eq!(&framed[..4], &[27, 0, 0, 0], "length field is little-endian 27");
    assert_eq!(&framed[4..16], &rec.nonce[..]);

    let plain = decrypt_stream(&key, &framed, 1).unwrap();
    assert_eq!(plain, b"hello world");

    let wrong = key_from(b"wrong");
    assert_eq!(
        decrypt_stream(&wrong, &framed, 1),
        Err(CryptError::AuthenticationFailure),
        "a wrong passphrase must fail authentication"
    );
}

#[test]
fn scenario_three_records_for_10000_bytes() {
    // A 10000-byte input cuts into blocks of 4096, 4096 and 1808 bytes and
    // frames exactly three records in that order.
    let key = key_from(b"secret");
    let data = pattern(10000);
    let framed = encrypt_stream(&key, &data, 4).unwrap();

    let mut sizes: Vec<usize> = Vec::new();
    let mut plains: Vec<u8> = Vec::new();
    let mut pos = 0;
    while let Some((rec, next)) = decode_record(&framed, pos).unwrap() {
        sizes.push(rec.ciphertext.len());
        let mut block = decrypt_block(&key, &rec).unwrap();
        plains.append(&mut block);
        pos = next;
    }
    assert_eq!(sizes, vec![4096 + 16, 4096 + 16, 1808 + 16]);
    assert_eq!(plains, data, "records must come in block order");
}

#[test]
fn tamper_detection_every_bit() {
    // Flipping any single bit of the ciphertext or tag of a framed record
    // must fail authentication, never decrypt to something else.
    let key = key_from(b"secret");
    let rec = encrypt_block(&key, b"hello world".to_vec()).unwrap();
    let framed = encode_record(&rec);
    for byte in 16..framed.len() {
        for bit in 0..8 {
            let mut tampered = framed.clone();
            tampered[byte] ^= 1 << bit;
            assert_eq!(
                decrypt_stream(&key, &tampered, 1),
                Err(CryptError::AuthenticationFailure),
                "flipping bit {} of byte {} went unnoticed",
                bit,
                byte
            );
        }
    }
}

#[test]
fn tampered_nonce_fails_authentication() {
    let key = key_from(b"secret");
    let rec = encrypt_block(&key, b"hello world".to_vec()).unwrap();
    let mut framed = encode_record(&rec);
    framed[4] ^= 0x01;
    assert_eq!(decrypt_stream(&key, &framed, 1), Err(CryptError::AuthenticationFailure));
}

#[test]
fn truncation_detection() {
    // Cutting a framed file anywhere inside a record is TruncatedInput.
    let key = key_from(b"secret");
    let data = pattern(6000);
    let framed = encrypt_stream(&key, &data, 2).unwrap();

    // ... the last 3 bytes of the final ciphertext gone:
    let cut = framed[..framed.len() - 3].to_vec();
    assert_eq!(decrypt_stream(&key, &cut, 2), Err(CryptError::TruncatedInput));

    // ... only part of a length field left:
    let first_record_end = 16 + 4096 + 16;
    let cut = framed[..first_record_end + 2].to_vec();
    assert_eq!(decrypt_stream(&key, &cut, 2), Err(CryptError::TruncatedInput));

    // ... header complete but ciphertext short:
    let cut = framed[..first_record_end + 20].to_vec();
    assert_eq!(decrypt_stream(&key, &cut, 2), Err(CryptError::TruncatedInput));
}

#[test]
fn decrypting_garbage_is_truncated_input() {
    let key = key_from(b"secret");
    // Three stray bytes cannot even hold a length field.
    assert_eq!(
        decrypt_stream(&key, &vec![1u8, 2, 3], 1),
        Err(CryptError::TruncatedInput)
    );
    // A length field promising more bytes than the file has.
    let mut framed = vec![255u8, 0, 0, 0];
    framed.extend_from_slice(&[0u8; 12]);
    framed.extend_from_slice(&[0u8; 10]);
    assert_eq!(decrypt_stream(&key, &framed, 1), Err(CryptError::TruncatedInput));
}

#[test]
fn decode_record_reads_back_what_encode_wrote() {
    let key = key_from(b"secret");
    let rec = encrypt_block(&key, b"abc".to_vec()).unwrap();
    let framed = encode_record(&rec);
    assert_eq!(header_ciphertext_len(&framed) as usize, rec.ciphertext.len());
    let (back, next) = decode_record(&framed, 0).unwrap().unwrap();
    assert_eq!(back.nonce, rec.nonce);
    assert_eq!(back.ciphertext, rec.ciphertext);
    assert_eq!(next, framed.len());
    assert!(decode_record(&framed, next).unwrap().is_none());
}

#[test]
fn decrypt_block_rejects_foreign_record() {
    let key = key_from(b"secret");
    let rec = Record { nonce: vec![0u8; 12], ciphertext: vec![0u8; 20] };
    assert_eq!(decrypt_block(&key, &rec), Err(CryptError::AuthenticationFailure));
}
