use crypt_dew_world::cli::{
    archive_name, copy_into_subfolder, culture_for_locale, default_output, is_user_id_dir_name,
    parse_hex_key, processes_single_save, quick_key, save_display_name, Cli, DefaultOutput,
    HexKeyError, MenuKey,
    MenuOutcome, Operation, SaveSelection,
};
use crypt_dew_world::crypto::encrypt_data;
use crypt_dew_world::pack_mode::PackMode;

#[test]
fn operations_by_keyword() {
    assert_eq!(Operation::from_keyword("0"), Some(Operation::Decrypt));
    assert_eq!(Operation::from_keyword("dec"), Some(Operation::Decrypt));
    assert_eq!(Operation::from_keyword("encrypt"), Some(Operation::Encrypt));
    assert_eq!(Operation::from_keyword("2"), Some(Operation::DecryptWithKey));
    assert_eq!(Operation::from_keyword("3"), Some(Operation::EncryptWithKey));
    assert_eq!(Operation::from_keyword("DEC"), None);
    assert_eq!(Operation::from_keyword("4"), None);
}

#[test]
fn operations_ignore_case_in_single_mode() {
    assert_eq!(Operation::parse("DEC"), Some(Operation::Decrypt));
    assert_eq!(Operation::parse("Encrypt"), Some(Operation::Encrypt));
    assert_eq!(Operation::parse("x"), None);
    assert_eq!(Operation::from_index(1), Some(Operation::Encrypt));
    assert_eq!(Operation::from_index(4), None);
}

#[test]
fn output_names() {
    assert_eq!(archive_name("World", Operation::Decrypt), "World_Dec");
    assert_eq!(archive_name("World", Operation::DecryptWithKey), "World_Dec");
    assert_eq!(archive_name("World", Operation::Encrypt), "World_Enc");
    assert_eq!(Operation::EncryptWithKey.suffix(), "_Enc");
    assert!(Operation::Decrypt.reads_encrypted());
    assert!(!Operation::Encrypt.reads_encrypted());
}

#[test]
fn copy_target_rule() {
    assert!(copy_into_subfolder(true, false));
    assert!(!copy_into_subfolder(true, true));
    assert!(!copy_into_subfolder(false, true));
}

#[test]
fn hex_keys() {
    assert_eq!(parse_hex_key("0102030405060708"), Ok([1, 2, 3, 4, 5, 6, 7, 8]));
    assert_eq!(parse_hex_key("0x0102030405060708"), Ok([1, 2, 3, 4, 5, 6, 7, 8]));
    assert_eq!(parse_hex_key("0x0xAaBbCcDdEeFf0011"), Ok([0xAA, 0xBB, 0xCC, 0xDD, 0xEE, 0xFF, 0x00, 0x11]));
    assert_eq!(parse_hex_key("ff0102030405060708"), Ok([1, 2, 3, 4, 5, 6, 7, 8]));
    assert_eq!(parse_hex_key("3838333239383531"), Ok(*b"88329851"));
}

#[test]
fn hex_key_errors() {
    assert_eq!(parse_hex_key("01020304050607"), Err(HexKeyError::TooShort));
    assert_eq!(parse_hex_key("010203040506070"), Err(HexKeyError::InvalidHex));
    assert_eq!(parse_hex_key("zz02030405060708"), Err(HexKeyError::InvalidHex));
    assert_eq!(parse_hex_key(""), Err(HexKeyError::TooShort));
}

#[test]
fn quick_key_from_save_files() {
    let key = [1, 2, 3, 4, 5, 6, 7, 8];
    let current = encrypt_data(b"MANIFEST-000001\n", &key);
    let table = encrypt_data(b"table", &key);
    assert_eq!(quick_key("MANIFEST-000001", &current, &table), Some(key));
    assert_eq!(quick_key("MANIFEST-000001", &current, b"plain"), None);
    assert_eq!(quick_key("MANIFEST-000002x", &current, &table), None);
}

#[test]
fn interface_language() {
    assert_eq!(culture_for_locale("zh-CN"), "zh-CN");
    assert_eq!(culture_for_locale("zh-CN.UTF-8"), "zh-CN");
    assert_eq!(culture_for_locale("zh-TW"), "en");
    assert_eq!(culture_for_locale("en-US"), "en");
}

#[test]
fn user_id_folders() {
    assert!(is_user_id_dir_name("1234567890123456789"));
    assert!(!is_user_id_dir_name("123456789012345678"));
    assert!(!is_user_id_dir_name("12345678901234567a9"));
    assert!(!is_user_id_dir_name("Shared"));
}

#[test]
fn save_menu() {
    let mut menu = SaveSelection::new(3);
    assert_eq!(menu.apply(MenuKey::Up), MenuOutcome::Continue);
    assert_eq!(menu.cursor(), 0);
    menu.apply(MenuKey::Down);
    menu.apply(MenuKey::Down);
    menu.apply(MenuKey::Down);
    assert_eq!(menu.cursor(), 2);
    menu.apply(MenuKey::Toggle);
    menu.apply(MenuKey::Up);
    menu.apply(MenuKey::Up);
    menu.apply(MenuKey::Toggle);
    assert!(menu.is_selected(0));
    assert!(!menu.is_selected(1));
    assert_eq!(menu.selected_count(), 2);
    assert_eq!(menu.chosen(), vec![0, 2]);
    menu.apply(MenuKey::Toggle);
    assert_eq!(menu.chosen(), vec![2]);
    assert_eq!(menu.apply(MenuKey::Other), MenuOutcome::Continue);
    assert_eq!(menu.apply(MenuKey::Confirm), MenuOutcome::Confirmed);
    assert_eq!(menu.apply(MenuKey::Cancel), MenuOutcome::Cancelled);
}

#[test]
fn pack_modes() {
    assert_eq!(PackMode::from_str("copy"), Some(PackMode::Copy));
    assert_eq!(PackMode::from_str("FOLDER"), Some(PackMode::Copy));
    assert_eq!(PackMode::from_str("0"), Some(PackMode::Copy));
    assert_eq!(PackMode::from_str("Tar"), Some(PackMode::Tar));
    assert_eq!(PackMode::from_str("1"), Some(PackMode::Tar));
    assert_eq!(PackMode::from_str("McWorld"), Some(PackMode::McWorld));
    assert_eq!(PackMode::from_str("zip"), Some(PackMode::McWorld));
    assert_eq!(PackMode::from_str("mcw"), Some(PackMode::McWorld));
    assert_eq!(PackMode::from_str("3"), None);
    assert_eq!(PackMode::from_keyword("TAR"), None);
    assert_eq!(PackMode::from_option("nonsense"), (PackMode::Copy, true));
    assert_eq!(PackMode::from_option("2"), (PackMode::McWorld, false));
}

#[test]
fn command_line_record() {
    let cli = Cli {
        path: Some("saves".to_string()),
        single: true,
        batch: false,
        mode: Some("2".to_string()),
        key: None,
        output: None,
        pack_mode: Some("tar".to_string()),
        details: false,
        sync: false,
        chunks: false,
    };
    assert_eq!(cli.mode.as_deref().and_then(Operation::from_keyword), Some(Operation::DecryptWithKey));
    assert!(cli.single && !cli.batch);
}

#[test]
fn save_menu_labels() {
    assert_eq!(save_display_name("abc123", ""), "abc123");
    assert_eq!(save_display_name("abc123", "My World"), "abc123 [My World]");
    assert_eq!(save_display_name("存档", "世界"), "存档 [世界]");
}

#[test]
fn default_output_folder() {
    assert_eq!(default_output(PackMode::Copy, true, true), DefaultOutput::GameWorlds);
    assert_eq!(default_output(PackMode::Copy, true, false), DefaultOutput::BesideSave);
    assert_eq!(default_output(PackMode::Copy, false, true), DefaultOutput::BesideSave);
    assert_eq!(default_output(PackMode::Tar, true, true), DefaultOutput::BesideSave);
    assert_eq!(default_output(PackMode::McWorld, true, true), DefaultOutput::BesideSave);
}

#[test]
fn single_or_batch_mode() {
    assert!(processes_single_save(true, true, false, false));
    assert!(!processes_single_save(false, true, true, true));
    assert!(processes_single_save(false, false, true, false));
    assert!(processes_single_save(false, false, false, true));
    assert!(!processes_single_save(false, false, false, false));
}

#[test]
fn printed_keys_read_back() {
    for key in [[0u8; 8], [0xFF; 8], [0x01, 0x23, 0x45, 0x67, 0x89, 0xAB, 0xCD, 0xEF], *b"88329851"] {
        assert_eq!(parse_hex_key(&hex::encode(key)), Ok(key));
    }
}
