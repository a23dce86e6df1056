use crypt_dew_world::blocks::{blocks_in, decrypt_blocks, encrypt_blocks, Block, IoEngineConfig};
use crypt_dew_world::crypto::{encrypt_data, CryptoError};
use std::path::PathBuf;

const KEY: [u8; 8] = [8, 7, 6, 5, 4, 3, 2, 1];

#[test]
fn encryption_restarts_in_every_block() {
    let data: Vec<u8> = (0u8..10).collect();
    let mut expect = encrypt_data(&data[0..4], &KEY);
    expect.extend(encrypt_data(&data[4..8], &KEY));
    expect.extend(encrypt_data(&data[8..10], &KEY));
    assert_eq!(encrypt_blocks(&data, 4, &KEY), expect);
    assert_eq!(encrypt_blocks(&[], 4, &KEY), Vec::<u8>::new());
}

#[test]
fn small_files_round_trip() {
    let data: Vec<u8> = (0u8..10).collect();
    let enc = encrypt_blocks(&data, 16, &KEY);
    assert_eq!(enc, encrypt_data(&data, &KEY));
    assert_eq!(decrypt_blocks(&enc, 16, &KEY).unwrap(), data);
}

#[test]
fn misaligned_blocks_fail_to_decrypt() {
    let data: Vec<u8> = (0u8..10).collect();
    let enc = encrypt_blocks(&data, 8, &KEY);
    assert_eq!(enc.len(), 18);
    assert_eq!(decrypt_blocks(&enc, 8, &KEY), Err(CryptoError::NotEncrypted));
}

#[test]
fn block_wise_decryption_of_block_wise_headers() {
    let mut cipher = encrypt_data(&[1, 2, 3, 4], &KEY);
    cipher.extend(encrypt_data(&[5, 6, 7, 8], &KEY));
    assert_eq!(decrypt_blocks(&cipher, 8, &KEY).unwrap(), vec![1, 2, 3, 4, 5, 6, 7, 8]);
}

#[test]
fn block_counts() {
    assert_eq!(blocks_in(0, 4), 0);
    assert_eq!(blocks_in(8, 4), 2);
    assert_eq!(blocks_in(9, 4), 3);
    assert_eq!(blocks_in(1, 262144), 1);
}

#[test]
fn engine_defaults() {
    let c = IoEngineConfig::default();
    assert_eq!(c.block_size, 262144);
    assert_eq!(c._max_concurrent_io, 32);
    assert_eq!(c.read_concurrency, 4);
    assert_eq!(c.write_concurrency, 4);
}

#[test]
fn block_keeps_its_parts() {
    let b = Block::new(PathBuf::from("000001.ldb"), 3, vec![1, 2]);
    assert_eq!(b.source_file, PathBuf::from("000001.ldb"));
    assert_eq!(b.index, 3);
    assert_eq!(b.data, vec![1, 2]);
}
