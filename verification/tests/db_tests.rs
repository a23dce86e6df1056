use crypt_dew_world::crypto::encrypt_data;
use crypt_dew_world::db::{
    db_name_flags, first_ldb_name, integrity_verdict, is_entity_file, is_ldb_file,
    level_dat_payload, ldb_magic_ok, skip_when_copying, DbNameFlags, DbScan, IntegrityError,
};

fn flags(m: bool, c: bool, t: bool) -> DbNameFlags {
    DbNameFlags { is_manifest: m, is_current: c, is_table: t }
}

#[test]
fn database_file_names() {
    assert_eq!(db_name_flags("MANIFEST-000001"), Ok(flags(true, false, false)));
    assert_eq!(db_name_flags("CURRENT"), Ok(flags(false, true, false)));
    assert_eq!(db_name_flags("000123.ldb"), Ok(flags(false, false, true)));
    assert_eq!(db_name_flags("LOG"), Ok(flags(false, false, false)));
    assert_eq!(db_name_flags("MANIFEST-12345"), Ok(flags(false, false, false)));
    assert_eq!(db_name_flags("MANIFEST-0000012"), Ok(flags(false, false, false)));
    assert_eq!(db_name_flags("00123.ldb"), Ok(flags(false, false, false)));
    assert_eq!(db_name_flags("000123.log"), Ok(flags(false, false, false)));
    assert!(!flags(false, false, false).relevant());
    assert!(flags(false, true, false).relevant());
}

#[test]
fn scan_sorts_files_by_magic() {
    let key = [1, 2, 3, 4, 5, 6, 7, 8];
    let mut scan = DbScan::new();
    scan.record("MANIFEST-000007".to_string(), flags(true, false, false), encrypt_data(b"m", &key));
    scan.record("CURRENT".to_string(), flags(false, true, false), b"MANIFEST-000007\n".to_vec());
    scan.record("000010.ldb".to_string(), flags(false, false, true), encrypt_data(b"t", &key));
    scan.record("LOG".to_string(), flags(false, false, false), encrypt_data(b"l", &key));
    assert_eq!(scan.encrypted, vec!["MANIFEST-000007".to_string(), "000010.ldb".to_string()]);
    assert_eq!(scan.decrypted, vec!["CURRENT".to_string()]);
    assert_eq!(scan.manifest_name, "MANIFEST-000007");
    assert_eq!(scan.current_data, b"MANIFEST-000007\n".to_vec());
}

#[test]
fn integrity_verdicts() {
    let names = |v: &[&str]| v.iter().map(|s| s.to_string()).collect::<Vec<String>>();
    assert_eq!(integrity_verdict(false, true, &[]), Err(IntegrityError::MissingLevelDat));
    assert_eq!(integrity_verdict(true, false, &[]), Err(IntegrityError::MissingDb));
    assert_eq!(integrity_verdict(true, true, &names(&["CURRENT"])), Err(IntegrityError::MissingManifest));
    assert_eq!(
        integrity_verdict(true, true, &names(&["MANIFEST-000001", "LOG"])),
        Err(IntegrityError::MissingCurrent)
    );
    assert_eq!(
        integrity_verdict(true, true, &names(&["000005.ldb", "CURRENT", "MANIFEST-000001"])),
        Ok(())
    );
    assert_eq!(IntegrityError::MissingCurrent.missing_name(), "CURRENT");
    assert_eq!(IntegrityError::MissingDb.missing_name(), "db/");
}

#[test]
fn ldb_names() {
    assert!(is_ldb_file("000001.ldb"));
    assert!(!is_ldb_file("000001.log"));
    assert!(!is_ldb_file("ldb"));
    let names = vec!["CURRENT".to_string(), "MANIFEST-000001".to_string(), "000003.ldb".to_string(), "000004.ldb".to_string()];
    assert_eq!(first_ldb_name(&names), Some(2));
    assert_eq!(first_ldb_name(&names[..2]), None);
}

#[test]
fn table_magic() {
    let mut t = vec![1, 2, 3];
    t.extend_from_slice(&0xDB4775248B80FB57u64.to_le_bytes());
    assert!(ldb_magic_ok(&t));
    assert!(!ldb_magic_ok(&t[..10]));
    assert!(!ldb_magic_ok(&[0x57, 0xFB, 0x80, 0x8B, 0x24, 0x74, 0x47, 0xDB]));
}

#[test]
fn entity_and_copy_rules() {
    assert!(is_entity_file("BlockEntity_1"));
    assert!(is_entity_file("Entity"));
    assert!(!is_entity_file("entity"));
    assert!(skip_when_copying("netease_config", true));
    assert!(!skip_when_copying("netease_config", false));
    assert!(!skip_when_copying("db", true));
}

#[test]
fn level_dat_header() {
    assert_eq!(level_dat_payload(&[0; 8]), None);
    assert_eq!(level_dat_payload(&[0, 1, 2, 3, 4, 5, 6, 7, 8, 9]), Some(&[8u8, 9][..]));
}
