use crypt_dew_world::update::{
    newer_release, select_release, strip_v_prefix, ReleaseAsset, ReleaseError, ReleaseInfo,
    UpdateError,
};

fn asset(name: Option<&str>, url: Option<&str>) -> ReleaseAsset {
    ReleaseAsset { name: name.map(String::from), browser_download_url: url.map(String::from) }
}

#[test]
fn chooses_first_exe_asset() {
    let info = ReleaseInfo {
        tag_name: Some("v4.4.0".to_string()),
        assets: Some(vec![
            asset(Some("notes.txt"), Some("https://example.invalid/notes")),
            asset(None, Some("https://example.invalid/none")),
            asset(Some("tool.exe"), Some("https://example.invalid/tool.exe")),
            asset(Some("other.exe"), Some("https://example.invalid/other.exe")),
        ]),
    };
    assert_eq!(
        select_release(&info),
        Ok(("v4.4.0".to_string(), "https://example.invalid/tool.exe".to_string()))
    );
}

#[test]
fn release_errors() {
    let no_tag = ReleaseInfo { tag_name: None, assets: Some(vec![]) };
    assert_eq!(select_release(&no_tag), Err(ReleaseError::NoTag));
    let no_array = ReleaseInfo { tag_name: Some("v1".to_string()), assets: None };
    assert_eq!(select_release(&no_array), Err(ReleaseError::AssetsNotArray));
    let no_exe = ReleaseInfo { tag_name: Some("v1".to_string()), assets: Some(vec![asset(Some("a.zip"), Some("u"))]) };
    assert_eq!(select_release(&no_exe), Err(ReleaseError::NoExeAsset));
    let no_link = ReleaseInfo {
        tag_name: Some("v1".to_string()),
        assets: Some(vec![asset(Some("a.exe"), None), asset(Some("b.exe"), Some("u"))]),
    };
    assert_eq!(select_release(&no_link), Err(ReleaseError::NoDownloadLink));
}

#[test]
fn version_comparison() {
    assert_eq!(newer_release("v4.4.0", "4.3.0"), Ok(Some("4.4.0".to_string())));
    assert_eq!(newer_release("4.3.1", "4.3.0"), Ok(Some("4.3.1".to_string())));
    assert_eq!(newer_release("v4.3.0", "4.3.0"), Ok(None));
    assert_eq!(newer_release("v4.2.9", "4.3.0"), Ok(None));
    assert_eq!(newer_release("v4.4.0-beta.1", "4.3.0"), Ok(Some("4.4.0-beta.1".to_string())));
    assert_eq!(newer_release("v4.3.0-beta.1", "4.3.0"), Ok(None));
    assert_eq!(newer_release("v5.0.0-rc.01a+build.007", "4.3.0"), Ok(Some("5.0.0-rc.01a+build.007".to_string())));
    assert_eq!(newer_release("v04.4.0", "4.3.0"), Err(UpdateError::RemoteNotSemver));
}

#[test]
fn version_errors() {
    assert_eq!(newer_release("release-1", "4.3.0"), Err(UpdateError::RemoteNotSemver));
    assert_eq!(newer_release("vv4.4.0", "4.3.0"), Err(UpdateError::RemoteNotSemver));
    assert_eq!(newer_release("v4.4.0", "four"), Err(UpdateError::CurrentNotSemver));
}

#[test]
fn strips_one_v() {
    assert_eq!(strip_v_prefix("v1.2.3"), "1.2.3");
    assert_eq!(strip_v_prefix("vv1"), "v1");
    assert_eq!(strip_v_prefix("1.2.3"), "1.2.3");
    assert_eq!(strip_v_prefix(""), "");
    assert_eq!(strip_v_prefix("värld"), "ärld");
    assert_eq!(strip_v_prefix("ärld"), "ärld");
}
