use crypt_dew_world::crypto::encrypt_data;
use crypt_dew_world::ease_trojan::{verify_ldb_key, EaseTrojan, KeyCheckError, TrojanError};

const TAIL: [u8; 8] = [0x57, 0xFB, 0x80, 0x8B, 0x24, 0x75, 0x47, 0xDB];

fn sample_plain() -> Vec<u8> {
    let mut p = vec![0x10, 0x11, 0x12, 0x13, 0x14, 0x15, 0x16, 0x17];
    p.extend_from_slice(&TAIL);
    p
}

#[test]
fn recovers_key_of_a_sample_table() {
    let key = [1, 2, 3, 4, 5, 6, 7, 8];
    let sample = encrypt_data(&sample_plain(), &key);
    assert_eq!(EaseTrojan::new().derive_key(&sample), Ok(key));
}

#[test]
fn recovers_key_after_rejecting_earlier_candidates() {
    let key = [0x90, 2, 3, 4, 5, 6, 7, 8];
    let sample = encrypt_data(&sample_plain(), &key);
    let trojan = EaseTrojan::new();
    let frags = trojan.collect_fragments(&sample);
    assert_eq!(frags, vec![key.to_vec(), vec![0x0A ^ 0x14 ^ 5], vec![0x80]]);
    let cands = EaseTrojan::generate_candidates(&frags).unwrap();
    assert_eq!(cands.len(), 3);
    assert_eq!(cands[0][0], 0x0A ^ 0x14 ^ 5);
    assert_eq!(cands[1][0], 0x80);
    assert_eq!(cands[2], key);
    assert_eq!(trojan.derive_key(&sample), Ok(key));
}

#[test]
fn recovery_errors() {
    let trojan = EaseTrojan::new();
    assert_eq!(trojan.derive_key(&[]), Err(TrojanError::NoAnchorMatched));
    assert_eq!(trojan.derive_key(&[0x80, 0x1D, 0x30, 0x01, 0x00]), Err(TrojanError::NoVotesForByte(1)));
    assert_eq!(trojan.derive_key(&[0u8; 20]), Err(TrojanError::AllKeysFailed));
}

#[test]
fn candidates_by_vote() {
    let frags = vec![vec![1, 2, 3, 4, 5, 6, 7, 8], vec![9]];
    let keys = EaseTrojan::generate_candidates(&frags).unwrap();
    assert_eq!(keys, vec![[1, 2, 3, 4, 5, 6, 7, 8], [9, 2, 3, 4, 5, 6, 7, 8]]);
    let majority = vec![vec![1, 2, 3, 4, 5, 6, 7, 8], vec![9], vec![9]];
    assert_eq!(EaseTrojan::generate_candidates(&majority).unwrap(), vec![[9, 2, 3, 4, 5, 6, 7, 8]]);
}

#[test]
fn candidates_every_combination_in_order() {
    let frags = vec![vec![1, 1, 0, 0, 0, 0, 0, 0], vec![2, 2, 0, 0, 0, 0, 0, 0]];
    let keys = EaseTrojan::generate_candidates(&frags).unwrap();
    assert_eq!(
        keys,
        vec![
            [1, 1, 0, 0, 0, 0, 0, 0],
            [1, 2, 0, 0, 0, 0, 0, 0],
            [2, 1, 0, 0, 0, 0, 0, 0],
            [2, 2, 0, 0, 0, 0, 0, 0],
        ]
    );
}

#[test]
fn candidate_errors() {
    assert_eq!(EaseTrojan::generate_candidates(&[]), Err(TrojanError::NoVotesForByte(0)));
    assert_eq!(
        EaseTrojan::generate_candidates(&[vec![1, 2, 3]]),
        Err(TrojanError::NoVotesForByte(3))
    );
    let many: Vec<Vec<u8>> = (0u8..6).map(|k| vec![k; 8]).collect();
    assert_eq!(
        EaseTrojan::generate_candidates(&many),
        Err(TrojanError::TooManyKeyCandidates(1_679_616))
    );
    let five: Vec<Vec<u8>> = (0u8..5).map(|k| vec![k; 8]).collect();
    assert_eq!(EaseTrojan::generate_candidates(&five).unwrap().len(), 390_625);
}

#[test]
fn windows_under_anchors() {
    let data: Vec<u8> = (0u8..20).collect();
    assert_eq!(EaseTrojan::extract_bytes(&data, -8, 8), Some(&data[12..20]));
    assert_eq!(EaseTrojan::extract_bytes(&data, 8, 1), Some(&data[8..9]));
    assert_eq!(EaseTrojan::extract_bytes(&data, 0, 1), Some(&data[0..1]));
    assert_eq!(EaseTrojan::extract_bytes(&data, 20, 1), None);
    assert_eq!(EaseTrojan::extract_bytes(&data[..5], -8, 8), None);
    assert_eq!(EaseTrojan::extract_bytes(&data[..8], -8, 8), Some(&data[0..8]));
}

#[test]
fn key_check_errors() {
    let key = [1, 2, 3, 4, 5, 6, 7, 8];
    assert_eq!(verify_ldb_key(&sample_plain(), &key), Err(KeyCheckError::DecryptFailed));
    assert_eq!(verify_ldb_key(&encrypt_data(&[1, 2, 3], &key), &key), Err(KeyCheckError::TooShort));
    assert_eq!(verify_ldb_key(&encrypt_data(&[0; 16], &key), &key), Err(KeyCheckError::TailMismatch));
    assert_eq!(verify_ldb_key(&encrypt_data(&sample_plain(), &key), &key), Ok(()));
}

#[test]
fn sample_is_the_first_encrypted_table() {
    let names = vec!["MANIFEST-000001".to_string(), "CURRENT".to_string(), "000005.ldb".to_string(), "000007.ldb".to_string()];
    assert_eq!(EaseTrojan::sample_file(&names), Ok(2));
    let none = vec!["MANIFEST-000001".to_string(), "000003.log".to_string()];
    assert_eq!(EaseTrojan::sample_file(&none), Err(TrojanError::NoEncryptedSample));
    assert_eq!(EaseTrojan::sample_file(&[]), Err(TrojanError::NoEncryptedSample));
}
