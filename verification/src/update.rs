//! Decisions of the update check: which release asset to download and
//! whether the published release is newer than the running program.
use crate::text::{bytes_end_with, ends_with_bytes, utf8};
use vstd::prelude::*;

verus! {

/// What the release service reports: the release tag and, when the assets
/// field is an array, its entries.
pub struct ReleaseInfo {
    pub tag_name: Option<String>,
    pub assets: Option<Vec<ReleaseAsset>>,
}

/// An entry of the assets array: its name and download link, each present
/// when the field is a string.
pub struct ReleaseAsset {
    pub name: Option<String>,
    pub browser_download_url: Option<String>,
}

/// Why no download could be chosen.
#[derive(Debug, Clone, Copy, PartialEq, Eq, Structural)]
pub enum ReleaseError {
    /// The release has no tag.
    NoTag,
    /// The assets field is not an array.
    AssetsNotArray,
    /// No asset is named `*.exe`.
    NoExeAsset,
    /// The chosen asset has no download link.
    NoDownloadLink,
}

impl ReleaseError {
    /// A human readable description of the error.
    pub fn message(&self) -> (r: &'static str)
        ensures
            r@ == match self {
                ReleaseError::NoTag => "the release has no tag"@,
                ReleaseError::AssetsNotArray => "the release assets are not an array"@,
                ReleaseError::NoExeAsset => "the release has no .exe asset"@,
                ReleaseError::NoDownloadLink => "the release asset has no download link"@,
            },
    {
        match self {
            ReleaseError::NoTag => "the release has no tag",
            ReleaseError::AssetsNotArray => "the release assets are not an array",
            ReleaseError::NoExeAsset => "the release has no .exe asset",
            ReleaseError::NoDownloadLink => "the release asset has no download link",
        }
    }
}

pub open spec fn exe_suffix() -> Seq<u8> {
    seq![0x2Eu8, 0x65u8, 0x78u8, 0x65u8]
}

/// The asset is named and its name ends with `.exe`.
pub open spec fn is_exe_asset(a: ReleaseAsset) -> bool {
    a.name matches Some(n) && ends_with_bytes(utf8(n@), exe_suffix())
}

/// The index of the first `.exe` asset below `n`.
pub open spec fn first_exe_below(assets: Seq<ReleaseAsset>, n: int) -> Option<int>
    decreases n,
{
    if n <= 0 {
        None
    } else {
        match first_exe_below(assets, n - 1) {
            Some(i) => Some(i),
            None => if is_exe_asset(assets[n - 1]) {
                Some(n - 1)
            } else {
                None
            },
        }
    }
}

/// The tag and the download link that the release offers.
pub open spec fn spec_select_release(info: ReleaseInfo) -> Result<(Seq<char>, Seq<char>), ReleaseError> {
    match info.tag_name {
        None => Err(ReleaseError::NoTag),
        Some(tag) => match info.assets {
            None => Err(ReleaseError::AssetsNotArray),
            Some(assets) => match first_exe_below(assets@, assets@.len() as int) {
                None => Err(ReleaseError::NoExeAsset),
                Some(i) => match assets@[i].browser_download_url {
                    None => Err(ReleaseError::NoDownloadLink),
                    Some(url) => Ok((tag@, url@)),
                },
            },
        },
    }
}

proof fn lemma_first_exe_stable(assets: Seq<ReleaseAsset>, n: int, m: int)
    requires
        n <= m,
        first_exe_below(assets, n) is Some,
    ensures
        first_exe_below(assets, m) == first_exe_below(assets, n),
    decreases m - n,
{
    if n < m {
        lemma_first_exe_stable(assets, n, m - 1);
    }
}

/// Chooses the release tag and the download link of the first `.exe` asset.
pub fn select_release(info: &ReleaseInfo) -> (r: Result<(String, String), ReleaseError>)
    ensures
        match spec_select_release(*info) {
            Ok((t, u)) => r matches Ok((rt, ru)) && rt@ == t && ru@ == u,
            Err(e) => r == Err::<(String, String), ReleaseError>(e),
        },
{
    let tag = match &info.tag_name {
        Some(t) => t,
        None => {
            return Err(ReleaseError::NoTag);
        },
    };
    let assets = match &info.assets {
        Some(a) => a,
        None => {
            return Err(ReleaseError::AssetsNotArray);
        },
    };
    let suffix: [u8; 4] = [0x2E, 0x65, 0x78, 0x65];
    assert(suffix@ =~= exe_suffix());
    let mut i: usize = 0;
    while i < assets.len()
        invariant
            0 <= i <= assets@.len(),
            suffix@ == exe_suffix(),
            info.tag_name == Some(*tag),
            info.assets == Some(*assets),
            first_exe_below(assets@, i as int) is None,
        decreases assets@.len() - i,
    {
        let is_exe = match &assets[i].name {
            Some(n) => bytes_end_with(n.as_str().as_bytes(), &suffix),
            None => false,
        };
        assert(is_exe == is_exe_asset(assets@[i as int]));
        if is_exe {
            assert(first_exe_below(assets@, i + 1) == Some(i as int));
            proof {
                lemma_first_exe_stable(assets@, i + 1, assets@.len() as int);
            }
            return match &assets[i].browser_download_url {
                Some(u) => Ok((tag.clone(), u.clone())),
                None => Err(ReleaseError::NoDownloadLink),
            };
        }
        i = i + 1;
    }
    Err(ReleaseError::NoExeAsset)
}

// ---------------------------------------------------------------------------
// Versions
// ---------------------------------------------------------------------------
/// Whether `semver::Version::parse` accepts the text.
pub uninterp spec fn semver_valid(text: Seq<char>) -> bool;

/// Whether the version parsed from `a` orders after the version parsed from
/// `b` under `semver::Version`'s `Ord`.
pub uninterp spec fn semver_newer(a: Seq<char>, b: Seq<char>) -> bool;

/// Parses `text` with `semver::Version::parse` and writes the version back
/// with its `Display`. The contract claims that parsing succeeds exactly when
/// `semver_valid` holds, and that the written text is the parsed text itself:
/// the parser refuses leading zeros in numbers and keeps the pre-release and
/// build identifiers as written, so nothing is normalised. The version grammar
/// is not stated.
#[verifier::external_body]
fn semver_canonical(text: &str) -> (r: Option<String>)
    ensures
        r is Some <==> semver_valid(text@),
        r matches Some(s) ==> s@ == text@,
{
    match semver::Version::parse(text) {
        Ok(v) => Some(v.to_string()),
        Err(_) => None,
    }
}

/// Parses both texts with `semver::Version::parse` and compares the versions
/// with `>`. The contract claims an answer exactly when both parse and names
/// it; the version order is not stated.
#[verifier::external_body]
fn semver_is_newer(a: &str, b: &str) -> (r: Option<bool>)
    ensures
        r is Some <==> (semver_valid(a@) && semver_valid(b@)),
        r matches Some(x) ==> x == semver_newer(a@, b@),
{
    match (semver::Version::parse(a), semver::Version::parse(b)) {
        (Ok(x), Ok(y)) => Some(x > y),
        _ => None,
    }
}

/// The tag without one leading `v`.
pub open spec fn strip_v(tag: Seq<char>) -> Seq<char> {
    if tag.len() > 0 && tag[0] == 'v' {
        tag.drop_first()
    } else {
        tag
    }
}

proof fn lemma_first_byte_v(s: Seq<char>)
    requires
        s.len() > 0,
    ensures
        (utf8(s)[0] == 0x76u8) <==> (s[0] == 'v'),
        s[0] == 'v' ==> utf8(s).drop_first() == utf8(s.drop_first()),
{
    let c = s[0] as u32;
    vstd::utf8::char_is_scalar(s[0]);
    vstd::utf8::char_u32_cast(s[0], c);
    assert(('v' as u32) == 0x76);
    vstd::utf8::char_u32_cast('v', 0x76);
    assert(s[0] == 'v' <==> c == 0x76);
    let e = vstd::utf8::encode_scalar(c);
    assert(utf8(s) == e + utf8(s.drop_first()));
    if vstd::utf8::has_width_1_encoding(c) {
        assert((c & 0x7F) as u8 == 0x76u8 <==> c == 0x76) by (bit_vector)
            requires
                c <= 0x7F,
        ;
        assert(e[0] == (c & 0x7F) as u8);
        if s[0] == 'v' {
            assert(e =~= seq![0x76u8]);
            assert((e + utf8(s.drop_first())).drop_first() =~= utf8(s.drop_first()));
        }
    } else if vstd::utf8::has_width_2_encoding(c) {
        assert(0xC0u8 | ((c >> 6) & 0x1F) as u8 >= 0xC0) by (bit_vector);
    } else if vstd::utf8::has_width_3_encoding(c) {
        assert(0xE0u8 | ((c >> 12) & 0x0F) as u8 >= 0xC0) by (bit_vector);
    } else {
        assert(0xF0u8 | ((c >> 18) & 0x7) as u8 >= 0xC0) by (bit_vector);
    }
}

/// `tag` without one leading `v`.
pub fn strip_v_prefix(tag: &str) -> (r: &str)
    ensures
        r@ == strip_v(tag@),
{
    let b = tag.as_bytes();
    proof {
        vstd::utf8::encode_utf8_valid_utf8(tag@);
    }
    if b.len() > 0 && b[0] == 0x76 {
        proof {
            lemma_first_byte_v(tag@);
            reveal_with_fuel(vstd::utf8::is_char_boundary, 2);
            assert(vstd::utf8::length_of_first_scalar(b@) == 1);
            assert(vstd::utf8::pop_first_scalar(b@) =~= b@.drop_first());
        }
        let (_, rest) = tag.split_at(1);
        proof {
            assert(utf8(rest@) =~= b@.drop_first());
            vstd::utf8::encode_utf8_decode_utf8(rest@);
            vstd::utf8::encode_utf8_decode_utf8(tag@.drop_first());
        }
        rest
    } else {
        proof {
            if tag@.len() > 0 {
                lemma_first_byte_v(tag@);
            }
        }
        tag
    }
}

/// Why the update check could not compare versions.
#[derive(Debug, Clone, Copy, PartialEq, Eq, Structural)]
pub enum UpdateError {
    /// The running program's version is no semantic version.
    CurrentNotSemver,
    /// The release tag (without its `v`) is no semantic version.
    RemoteNotSemver,
}

/// What the update check answers for a release tag and the running version.
pub open spec fn spec_newer_release(tag: Seq<char>, current: Seq<char>) -> Result<Option<Seq<char>>, UpdateError> {
    let remote = strip_v(tag);
    if !semver_valid(current) {
        Err(UpdateError::CurrentNotSemver)
    } else if !semver_valid(remote) {
        Err(UpdateError::RemoteNotSemver)
    } else if semver_newer(remote, current) {
        Ok(Some(remote))
    } else {
        Ok(None)
    }
}

/// The version to update to, if the release tag names a newer version than
/// the running one: the tag itself without its leading `v`.
pub fn newer_release(tag: &str, current: &str) -> (r: Result<Option<String>, UpdateError>)
    ensures
        match spec_newer_release(tag@, current@) {
            Ok(Some(v)) => r matches Ok(Some(s)) && s@ == v,
            Ok(None) => r matches Ok(None),
            Err(e) => r matches Err(x) && x == e,
        },
{
    if semver_canonical(current).is_none() {
        return Err(UpdateError::CurrentNotSemver);
    }
    let remote = strip_v_prefix(tag);
    let shown = match semver_canonical(remote) {
        Some(s) => s,
        None => {
            return Err(UpdateError::RemoteNotSemver);
        },
    };
    match semver_is_newer(remote, current) {
        Some(true) => Ok(Some(shown)),
        Some(false) => Ok(None),
        None => Err(UpdateError::RemoteNotSemver),
    }
}

} // verus!
