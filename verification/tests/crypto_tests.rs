use crypt_dew_world::crypto::{
    decrypt_data, derive_key, encrypt_data, is_encrypted, CryptoError, KeyDeriveError,
};

const KEY: [u8; 8] = [1, 2, 3, 4, 5, 6, 7, 8];
const ZERO: [u8; 8] = [0; 8];
const DEFAULT: [u8; 8] = *b"88329851";

#[test]
fn is_encrypted_recognises_both_magic_numbers() {
    assert!(is_encrypted(&[0x80, 0x1D, 0x30, 0x01]));
    assert!(is_encrypted(&[0x90, 0x1D, 0x30, 0x01, 0xAA]));
    assert!(!is_encrypted(&[0x80, 0x1D, 0x30]));
    assert!(!is_encrypted(&[0x70, 0x1D, 0x30, 0x01]));
    assert!(!is_encrypted(&[]));
}

#[test]
fn encrypt_with_zero_key_uses_default_key() {
    let out = encrypt_data(b"hello", &ZERO);
    assert_eq!(out, vec![0x80, 0x1D, 0x30, 0x01, 0x50, 0x5D, 0x5F, 0x5E, 0x56]);
    assert_eq!(out, encrypt_data(b"hello", &DEFAULT));
}

#[test]
fn encrypt_xors_with_repeated_key() {
    let data: Vec<u8> = (0u8..10).collect();
    let out = encrypt_data(&data, &KEY);
    assert_eq!(&out[..4], &[0x80, 0x1D, 0x30, 0x01]);
    for i in 0..10 {
        assert_eq!(out[4 + i], data[i] ^ KEY[i % 8]);
    }
}

#[test]
fn decrypt_undoes_encrypt() {
    let data = b"some world data that is longer than a key".to_vec();
    for key in [KEY, ZERO, DEFAULT] {
        let enc = encrypt_data(&data, &key);
        assert!(is_encrypted(&enc));
        assert_eq!(decrypt_data(&enc, &key).unwrap(), data);
    }
    assert_eq!(decrypt_data(&encrypt_data(&[], &KEY), &KEY).unwrap(), Vec::<u8>::new());
}

#[test]
fn encrypt_undoes_decrypt() {
    let cipher = vec![0x80, 0x1D, 0x30, 0x01, 9, 8, 7, 6, 5, 4, 3, 2, 1];
    let plain = decrypt_data(&cipher, &KEY).unwrap();
    assert_eq!(encrypt_data(&plain, &KEY), cipher);
}

#[test]
fn decrypt_accepts_second_magic() {
    let cipher = vec![0x90, 0x1D, 0x30, 0x01, 0x50];
    assert_eq!(decrypt_data(&cipher, &ZERO).unwrap(), vec![0x50 ^ 0x38]);
}

#[test]
fn decrypt_refuses_plain_data() {
    assert_eq!(decrypt_data(b"plain", &KEY), Err(CryptoError::NotEncrypted));
    assert_eq!(CryptoError::NotEncrypted.message(), "Data is not encrypted (magic mismatch)");
}

fn current_for(manifest: &str, key: &[u8; 8]) -> Vec<u8> {
    let mut line = manifest.as_bytes().to_vec();
    line.push(b'\n');
    encrypt_data(&line, key)
}

#[test]
fn derive_key_recovers_key_from_current() {
    let current = current_for("MANIFEST-000001", &KEY);
    assert_eq!(current.len(), 20);
    assert_eq!(derive_key("MANIFEST-000001", &current), Ok(KEY));
    let longer = current_for("MANIFEST-0000123456", &KEY);
    assert_eq!(derive_key("MANIFEST-0000123456", &longer), Ok(KEY));
}

#[test]
fn derive_key_gives_default_key_for_zero_key() {
    let current = current_for("MANIFEST-000042", &ZERO);
    assert_eq!(derive_key("MANIFEST-000042", &current), Ok(DEFAULT));
}

#[test]
fn derive_key_errors() {
    let current = current_for("MANIFEST-000001", &KEY);
    assert_eq!(derive_key("MANIFEST-000001", &current[..19]), Err(KeyDeriveError::CurrentTooShort));
    assert_eq!(derive_key("MANIFEST-0000012", &current), Err(KeyDeriveError::LengthMismatch));
    let mut broken = current.clone();
    broken[4 + 9] ^= 0xFF;
    assert_eq!(derive_key("MANIFEST-000001", &broken), Err(KeyDeriveError::HalvesDiffer));
    assert_eq!(KeyDeriveError::CurrentTooShort.message(), "CURRENT file too short");
}
