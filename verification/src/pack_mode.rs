//! How the output of a run is packaged.
use crate::text::str_eq;
use vstd::prelude::*;

verus! {

/// What `str::to_lowercase` returns: the Unicode lowercase mapping of the text.
pub uninterp spec fn unicode_lowercase(s: Seq<char>) -> Seq<char>;

/// The text holds only ASCII characters.
pub open spec fn is_ascii_text(s: Seq<char>) -> bool {
    forall|i: int| 0 <= i < s.len() ==> (#[trigger] s[i] as u32) < 0x80
}

/// `A` to `Z` become `a` to `z`; every other character stays.
pub open spec fn ascii_lower_char(c: char) -> char {
    if 0x41 <= (c as u32) && (c as u32) <= 0x5A {
        ((c as u32) + 0x20) as char
    } else {
        c
    }
}

/// The text with its ASCII capitals lowercased.
pub open spec fn ascii_lowercase(s: Seq<char>) -> Seq<char> {
    s.map_values(|c: char| ascii_lower_char(c))
}

/// Calls `str::to_lowercase`. The contract claims that the result is
/// `unicode_lowercase` of the argument and, for ASCII text, its ASCII
/// lowercase; the Unicode case tables for other characters are not stated.
#[verifier::external_body]
pub(crate) fn to_lowercase(s: &str) -> (r: String)
    ensures
        r@ == unicode_lowercase(s@),
        is_ascii_text(s@) ==> r@ == ascii_lowercase(s@),
{
    s.to_lowercase()
}

/// The packaging of the output.
#[derive(Debug, Clone, Copy, PartialEq, Eq, Structural)]
pub enum PackMode {
    /// Copy the world as a folder.
    Copy,
    /// Pack the world into a tar archive.
    Tar,
    /// Pack the world into a `.mcworld` (ZIP) archive.
    McWorld,
}

/// The mode that an already lowercased keyword names.
pub open spec fn pack_mode_of(word: Seq<char>) -> Option<PackMode> {
    if word == "0"@ || word == "copy"@ || word == "folder"@ || word == "dir"@ {
        Some(PackMode::Copy)
    } else if word == "1"@ || word == "tar"@ {
        Some(PackMode::Tar)
    } else if word == "2"@ || word == "mcworld"@ || word == "zip"@ || word == "mcw"@ {
        Some(PackMode::McWorld)
    } else {
        None
    }
}

impl PackMode {
    /// The mode named by an exact keyword: `0`, `copy`, `folder`, `dir`;
    /// `1`, `tar`; `2`, `mcworld`, `zip`, `mcw`.
    pub fn from_keyword(word: &str) -> (r: Option<PackMode>)
        ensures
            r == pack_mode_of(word@),
    {
        if str_eq(word, "0") || str_eq(word, "copy") || str_eq(word, "folder") || str_eq(
            word,
            "dir",
        ) {
            Some(PackMode::Copy)
        } else if str_eq(word, "1") || str_eq(word, "tar") {
            Some(PackMode::Tar)
        } else if str_eq(word, "2") || str_eq(word, "mcworld") || str_eq(word, "zip") || str_eq(
            word,
            "mcw",
        ) {
            Some(PackMode::McWorld)
        } else {
            None
        }
    }

    /// The mode named by `s`, compared after lowercasing it.
    pub fn from_str(s: &str) -> (r: Option<PackMode>)
        ensures
            r == pack_mode_of(unicode_lowercase(s@)),
            is_ascii_text(s@) ==> r == pack_mode_of(ascii_lowercase(s@)),
    {
        let lower = to_lowercase(s);
        PackMode::from_keyword(lower.as_str())
    }

    /// The mode a command line option asks for; an unknown name falls back to
    /// copying, and the flag tells that the name was not understood.
    pub fn from_option(s: &str) -> (r: (PackMode, bool))
        ensures
            match pack_mode_of(unicode_lowercase(s@)) {
                Some(m) => r == (m, false),
                None => r == (PackMode::Copy, true),
            },
            is_ascii_text(s@) ==> match pack_mode_of(ascii_lowercase(s@)) {
                Some(m) => r == (m, false),
                None => r == (PackMode::Copy, true),
            },
    {
        match PackMode::from_str(s) {
            Some(m) => (m, false),
            None => (PackMode::Copy, true),
        }
    }
}

} // verus!
