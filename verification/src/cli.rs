//! The decisions of the command line front end: operations, keys given in
//! hexadecimal, output names, the interface language and the save menu.
use crate::crypto::{decrypt_data, derive_key, manifest_line, spec_decrypt, spec_derive_key};
use crate::pack_mode::{
    ascii_lowercase, is_ascii_text, to_lowercase, unicode_lowercase, PackMode,
};
use crate::text::{bytes_start_with, starts_with_bytes, str_eq, utf8};
use vstd::prelude::*;

verus! {

/// The command line options.
pub struct Cli {
    /// Path to a save folder or to a directory holding several saves.
    pub path: Option<String>,
    /// Force single save mode.
    pub single: bool,
    /// Force batch mode (scan subdirectories).
    pub batch: bool,
    /// Operation: decrypt (0), encrypt (1), decrypt with a key (2), encrypt with a key (3).
    pub mode: Option<String>,
    /// Custom hexadecimal key (64 bits).
    pub key: Option<String>,
    /// Output directory.
    pub output: Option<String>,
    /// Pack mode: copy, tar, mcworld (or 0, 1, 2).
    pub pack_mode: Option<String>,
    /// Show processing details in place of progress bars.
    pub details: bool,
    /// Update the program and exit.
    pub sync: bool,
    /// Show the chunk overview and exit.
    pub chunks: bool,
}

/// What to do with a save.
#[derive(Debug, Clone, Copy, PartialEq, Eq, Structural)]
pub enum Operation {
    /// Decrypt with the default key.
    Decrypt,
    /// Encrypt with the default key.
    Encrypt,
    /// Decrypt with a given or recovered key.
    DecryptWithKey,
    /// Encrypt with a given key.
    EncryptWithKey,
}

/// The operation an exact keyword names.
pub open spec fn operation_of(word: Seq<char>) -> Option<Operation> {
    if word == "decrypt"@ || word == "dec"@ || word == "0"@ {
        Some(Operation::Decrypt)
    } else if word == "encrypt"@ || word == "enc"@ || word == "1"@ {
        Some(Operation::Encrypt)
    } else if word == "2"@ {
        Some(Operation::DecryptWithKey)
    } else if word == "3"@ {
        Some(Operation::EncryptWithKey)
    } else {
        None
    }
}

pub open spec fn operation_at(n: int) -> Option<Operation> {
    if n == 0 {
        Some(Operation::Decrypt)
    } else if n == 1 {
        Some(Operation::Encrypt)
    } else if n == 2 {
        Some(Operation::DecryptWithKey)
    } else if n == 3 {
        Some(Operation::EncryptWithKey)
    } else {
        None
    }
}

impl Operation {
    /// The operation an exact keyword names (`decrypt`, `dec`, `0`; `encrypt`,
    /// `enc`, `1`; `2`; `3`), as batch mode reads it.
    pub fn from_keyword(word: &str) -> (r: Option<Operation>)
        ensures
            r == operation_of(word@),
    {
        if str_eq(word, "decrypt") || str_eq(word, "dec") || str_eq(word, "0") {
            Some(Operation::Decrypt)
        } else if str_eq(word, "encrypt") || str_eq(word, "enc") || str_eq(word, "1") {
            Some(Operation::Encrypt)
        } else if str_eq(word, "2") {
            Some(Operation::DecryptWithKey)
        } else if str_eq(word, "3") {
            Some(Operation::EncryptWithKey)
        } else {
            None
        }
    }

    /// The operation named by `mode` compared after lowercasing, as single
    /// save mode reads it.
    pub fn parse(mode: &str) -> (r: Option<Operation>)
        ensures
            r == operation_of(unicode_lowercase(mode@)),
            is_ascii_text(mode@) ==> r == operation_of(ascii_lowercase(mode@)),
    {
        let lower = to_lowercase(mode);
        Operation::from_keyword(lower.as_str())
    }

    /// The operation of a number typed at the prompt.
    pub fn from_index(n: usize) -> (r: Option<Operation>)
        ensures
            r == operation_at(n as int),
    {
        if n == 0 {
            Some(Operation::Decrypt)
        } else if n == 1 {
            Some(Operation::Encrypt)
        } else if n == 2 {
            Some(Operation::DecryptWithKey)
        } else if n == 3 {
            Some(Operation::EncryptWithKey)
        } else {
            None
        }
    }

    pub open spec fn spec_reads_encrypted(self) -> bool {
        self == Operation::Decrypt || self == Operation::DecryptWithKey
    }

    /// The operation works on the encrypted files (it decrypts).
    pub fn reads_encrypted(&self) -> (r: bool)
        ensures
            r == self.spec_reads_encrypted(),
    {
        match self {
            Operation::Decrypt | Operation::DecryptWithKey => true,
            _ => false,
        }
    }

    /// The suffix of the output name: `_Dec` when decrypting, `_Enc` when encrypting.
    pub fn suffix(&self) -> (r: &'static str)
        ensures
            r@ == if self.spec_reads_encrypted() {
                "_Dec"@
            } else {
                "_Enc"@
            },
    {
        if self.reads_encrypted() {
            "_Dec"
        } else {
            "_Enc"
        }
    }
}

/// The name of the output of an operation on a save: the save's name and the suffix.
pub fn archive_name(save_name: &str, op: Operation) -> (r: String)
    ensures
        r@ == save_name@ + if op.spec_reads_encrypted() {
            "_Dec"@
        } else {
            "_Enc"@
        },
{
    let mut s = String::from_str(save_name);
    s.append(op.suffix());
    s
}

/// How a save is listed in the selection menu: its folder name, followed by
/// its level name in brackets when it has one.
pub fn save_display_name(folder_name: &str, level_name: &str) -> (r: String)
    ensures
        r@ == if level_name@.len() == 0 {
            folder_name@
        } else {
            folder_name@ + " ["@ + level_name@ + "]"@
        },
{
    let mut s = String::from_str(folder_name);
    if level_name.unicode_len() > 0 {
        s.append(" [");
        s.append(level_name);
        s.append("]");
    }
    s
}

// ---------------------------------------------------------------------------
// Keys written in hexadecimal
// ---------------------------------------------------------------------------
#[verifier::external_type_specification]
#[verifier::external_body]
pub struct ExFromHexError(hex::FromHexError);

/// The value of an ASCII hexadecimal digit, either case.
pub open spec fn hex_digit(c: u8) -> Option<u8> {
    if 0x30 <= c && c <= 0x39 {
        Some((c - 0x30) as u8)
    } else if 0x41 <= c && c <= 0x46 {
        Some((c - 0x41 + 10) as u8)
    } else if 0x61 <= c && c <= 0x66 {
        Some((c - 0x61 + 10) as u8)
    } else {
        None
    }
}

/// Even length and hexadecimal digits only.
pub open spec fn hex_valid(s: Seq<u8>) -> bool {
    s.len() % 2 == 0 && forall|i: int| 0 <= i < s.len() ==> #[trigger] hex_digit(s[i]) is Some
}

/// The bytes that pairs of hexadecimal digits spell, high digit first.
pub open spec fn hex_bytes(s: Seq<u8>) -> Seq<u8> {
    Seq::new(
        s.len() / 2,
        |i: int| (hex_digit(s[2 * i])->0 * 16 + hex_digit(s[2 * i + 1])->0) as u8,
    )
}

/// Calls `hex::decode`. Its source decodes pairs of digits (either case)
/// high digit first, and fails on odd length or on any other character; the
/// contract states that, and nothing about which error value comes back.
#[verifier::external_body]
fn hex_decode(data: &[u8]) -> (r: Result<Vec<u8>, hex::FromHexError>)
    ensures
        r is Ok <==> hex_valid(data@),
        r matches Ok(v) ==> v@ == hex_bytes(data@),
{
    hex::decode(data)
}

/// `s` with every leading `0x` removed.
pub open spec fn strip_hex_prefix(s: Seq<u8>) -> Seq<u8>
    decreases s.len(),
{
    if s.len() >= 2 && s[0] == 0x30 && s[1] == 0x78 {
        strip_hex_prefix(s.skip(2))
    } else {
        s
    }
}

/// Why a hexadecimal key was refused.
#[derive(Debug, Clone, Copy, PartialEq, Eq, Structural)]
pub enum HexKeyError {
    /// The text is not an even number of hexadecimal digits.
    InvalidHex,
    /// The text spells fewer than eight bytes.
    TooShort,
}

/// The key a hexadecimal text gives: the last eight bytes it spells.
pub open spec fn spec_hex_key(text: Seq<u8>) -> Result<Seq<u8>, HexKeyError> {
    let digits = strip_hex_prefix(text);
    if !hex_valid(digits) {
        Err(HexKeyError::InvalidHex)
    } else if hex_bytes(digits).len() < 8 {
        Err(HexKeyError::TooShort)
    } else {
        let b = hex_bytes(digits);
        Ok(b.subrange(b.len() - 8, b.len() as int))
    }
}

/// Reads a key written in hexadecimal, with any number of leading `0x`;
/// longer keys keep their last eight bytes.
pub fn parse_hex_key(input: &str) -> (r: Result<[u8; 8], HexKeyError>)
    ensures
        match spec_hex_key(utf8(input@)) {
            Ok(k) => r matches Ok(key) && key@ == k,
            Err(e) => r == Err::<[u8; 8], HexKeyError>(e),
        },
{
    let text = input.as_bytes();
    let n = text.len();
    let mut start: usize = 0;
    assert(text@.skip(0) =~= text@);
    while start < n && n - start >= 2 && text[start] == 0x30 && text[start + 1] == 0x78
        invariant
            n == text@.len(),
            start <= n,
            strip_hex_prefix(text@) == strip_hex_prefix(text@.skip(start as int)),
        decreases n - start,
    {
        let ghost rest = text@.skip(start as int);
        assert(rest[0] == 0x30 && rest[1] == 0x78);
        assert(rest.skip(2) =~= text@.skip(start + 2));
        start = start + 2;
    }
    let digits = &text[start..n];
    assert(digits@ =~= text@.skip(start as int));
    assert(strip_hex_prefix(digits@) == digits@);
    let bytes = match hex_decode(digits) {
        Ok(b) => b,
        Err(_) => {
            return Err(HexKeyError::InvalidHex);
        },
    };
    if bytes.len() < 8 {
        return Err(HexKeyError::TooShort);
    }
    let bl = bytes.len();
    let m = bl - 8;
    let mut key = [0u8; 8];
    let mut i: usize = 0;
    while i < 8
        invariant
            0 <= i <= 8,
            bl == bytes@.len(),
            m + 8 == bl,
            key@.len() == 8,
            forall|t: int| 0 <= t < i ==> key@[t] == bytes@[m + t],
        decreases 8 - i,
    {
        key[i] = bytes[m + i];
        i = i + 1;
    }
    assert(key@ =~= bytes@.subrange(m as int, bytes@.len() as int));
    Ok(key)
}

/// The key that the save's own files give for decryption: the key derived
/// from the manifest name and CURRENT, when it derives and when the test file
/// decrypts under it.
pub fn quick_key(manifest_name: &str, current_data: &[u8], test_data: &[u8]) -> (r: Option<[u8; 8]>)
    ensures
        match spec_derive_key(manifest_line(manifest_name@), current_data@) {
            Ok(k) => if spec_decrypt(test_data@, k) is Some {
                r matches Some(key) && key@ == k
            } else {
                r is None
            },
            Err(_) => r is None,
        },
{
    match derive_key(manifest_name, current_data) {
        Ok(k) => {
            if decrypt_data(test_data, &k).is_ok() {
                Some(k)
            } else {
                None
            }
        },
        Err(_) => None,
    }
}

// ---------------------------------------------------------------------------
// Interface language and game folders
// ---------------------------------------------------------------------------
/// The interface language for a system locale: Simplified Chinese for
/// locales that start with `zh-CN`, English otherwise.
pub fn culture_for_locale(locale: &str) -> (r: &'static str)
    ensures
        r@ == if starts_with_bytes(utf8(locale@), utf8("zh-CN"@)) {
            "zh-CN"@
        } else {
            "en"@
        },
{
    if bytes_start_with(locale.as_bytes(), "zh-CN".as_bytes()) {
        "zh-CN"
    } else {
        "en"
    }
}

/// A folder name that can be a game user id: at least nineteen bytes, all ASCII digits.
pub open spec fn is_user_id(name: Seq<char>) -> bool {
    utf8(name).len() >= 19 && forall|i: int|
        0 <= i < utf8(name).len() ==> 0x30 <= #[trigger] utf8(name)[i] <= 0x39
}

/// Whether the folder name can be a game user id.
pub fn is_user_id_dir_name(name: &str) -> (r: bool)
    ensures
        r == is_user_id(name@),
{
    let b = name.as_bytes();
    if b.len() < 19 {
        return false;
    }
    let mut i: usize = 0;
    while i < b.len()
        invariant
            0 <= i <= b@.len(),
            b@ == utf8(name@),
            forall|t: int| 0 <= t < i ==> 0x30 <= #[trigger] b@[t] <= 0x39,
        decreases b@.len() - i,
    {
        if b[i] < 0x30 || b[i] > 0x39 {
            return false;
        }
        i = i + 1;
    }
    true
}

// ---------------------------------------------------------------------------
// The save selection menu
// ---------------------------------------------------------------------------
/// A key pressed in the selection menu.
#[derive(Debug, Clone, Copy, PartialEq, Eq, Structural)]
pub enum MenuKey {
    Up,
    Down,
    Toggle,
    Confirm,
    Cancel,
    Other,
}

/// What the menu does after a key.
#[derive(Debug, Clone, Copy, PartialEq, Eq, Structural)]
pub enum MenuOutcome {
    /// Keep showing the menu.
    Continue,
    /// The selection is final.
    Confirmed,
    /// The user gave up.
    Cancelled,
}

/// The state of the menu: the highlighted line and the ticked lines.
pub struct SaveSelection {
    cursor: usize,
    selected: Vec<bool>,
}

/// The menu state and outcome after a key.
pub open spec fn menu_step(cursor: int, selected: Seq<bool>, key: MenuKey) -> (int, Seq<bool>, MenuOutcome) {
    match key {
        MenuKey::Up => (
            if cursor > 0 {
                cursor - 1
            } else {
                cursor
            },
            selected,
            MenuOutcome::Continue,
        ),
        MenuKey::Down => (
            if cursor + 1 < selected.len() {
                cursor + 1
            } else {
                cursor
            },
            selected,
            MenuOutcome::Continue,
        ),
        MenuKey::Toggle => (
            cursor,
            selected.update(cursor, !selected[cursor]),
            MenuOutcome::Continue,
        ),
        MenuKey::Confirm => (cursor, selected, MenuOutcome::Confirmed),
        MenuKey::Cancel => (cursor, selected, MenuOutcome::Cancelled),
        MenuKey::Other => (cursor, selected, MenuOutcome::Continue),
    }
}

/// The indices below `n` of ticked lines, ascending.
pub open spec fn ticked_below(selected: Seq<bool>, n: int) -> Seq<usize>
    decreases n,
{
    if n <= 0 {
        Seq::empty()
    } else if selected[n - 1] {
        ticked_below(selected, n - 1).push((n - 1) as usize)
    } else {
        ticked_below(selected, n - 1)
    }
}

impl SaveSelection {
    #[verifier::type_invariant]
    spec fn cursor_in_range(self) -> bool {
        self.cursor < self.selected@.len()
    }

    pub closed spec fn cursor_at(self) -> int {
        self.cursor as int
    }

    pub closed spec fn ticks(self) -> Seq<bool> {
        self.selected@
    }

    /// A menu of `count` lines, none ticked, the first highlighted.
    pub fn new(count: usize) -> (s: Self)
        requires
            count > 0,
        ensures
            s.cursor_at() == 0,
            s.ticks() == Seq::new(count as nat, |i: int| false),
    {
        let selected: Vec<bool> = vec![false; count];
        let s = SaveSelection { cursor: 0, selected };
        assert(s.ticks() =~= Seq::new(count as nat, |i: int| false));
        s
    }

    /// The highlighted line.
    pub fn cursor(&self) -> (r: usize)
        ensures
            r == self.cursor_at(),
            r < self.ticks().len(),
    {
        proof {
            use_type_invariant(self);
        }
        self.cursor
    }

    /// Whether line `i` is ticked.
    pub fn is_selected(&self, i: usize) -> (r: bool)
        requires
            i < self.ticks().len(),
        ensures
            r == self.ticks()[i as int],
    {
        self.selected[i]
    }

    /// Applies a key press.
    pub fn apply(&mut self, key: MenuKey) -> (r: MenuOutcome)
        ensures
            (final(self).cursor_at(), final(self).ticks(), r) == menu_step(
                old(self).cursor_at(),
                old(self).ticks(),
                key,
            ),
    {
        proof {
            use_type_invariant(&*self);
        }
        match key {
            MenuKey::Up => {
                if self.cursor > 0 {
                    self.cursor = self.cursor - 1;
                }
                MenuOutcome::Continue
            },
            MenuKey::Down => {
                if self.cursor < self.selected.len() - 1 {
                    self.cursor = self.cursor + 1;
                }
                MenuOutcome::Continue
            },
            MenuKey::Toggle => {
                let c = self.cursor;
                let n = self.selected.len();
                let mut next: Vec<bool> = Vec::new();
                let mut i: usize = 0;
                while i < n
                    invariant
                        0 <= i <= n,
                        n == self.selected@.len(),
                        c < n,
                        next@ =~= self.selected@.update(c as int, !self.selected@[c as int]).take(
                            i as int,
                        ),
                    decreases n - i,
                {
                    let v = self.selected[i];
                    next.push(if i == c { !v } else { v });
                    i = i + 1;
                }
                self.selected = next;
                MenuOutcome::Continue
            },
            MenuKey::Confirm => MenuOutcome::Confirmed,
            MenuKey::Cancel => MenuOutcome::Cancelled,
            MenuKey::Other => MenuOutcome::Continue,
        }
    }

    /// The ticked lines, ascending.
    pub fn chosen(&self) -> (r: Vec<usize>)
        ensures
            r@ == ticked_below(self.ticks(), self.ticks().len() as int),
    {
        let mut out: Vec<usize> = Vec::new();
        let mut i: usize = 0;
        while i < self.selected.len()
            invariant
                0 <= i <= self.selected@.len(),
                out@ == ticked_below(self.selected@, i as int),
            decreases self.selected@.len() - i,
        {
            if self.selected[i] {
                out.push(i);
            }
            i = i + 1;
        }
        out
    }

    /// How many lines are ticked.
    pub fn selected_count(&self) -> (r: usize)
        ensures
            r == ticked_below(self.ticks(), self.ticks().len() as int).len(),
    {
        self.chosen().len()
    }
}


/// Ticking the highlighted line twice leaves the menu as it was.
pub proof fn law_toggle_twice(cursor: int, selected: Seq<bool>)
    requires
        0 <= cursor < selected.len(),
    ensures
        ({
            let once = menu_step(cursor, selected, MenuKey::Toggle);
            menu_step(once.0, once.1, MenuKey::Toggle)
        }) == (cursor, selected, MenuOutcome::Continue),
{
    let once = menu_step(cursor, selected, MenuKey::Toggle);
    assert(menu_step(once.0, once.1, MenuKey::Toggle).1 =~= selected);
}

/// The highlighted line stays within the menu whatever key is pressed.
pub proof fn law_cursor_stays_in_menu(cursor: int, selected: Seq<bool>, key: MenuKey)
    requires
        0 <= cursor < selected.len(),
    ensures
        0 <= menu_step(cursor, selected, key).0 < menu_step(cursor, selected, key).1.len(),
{
}

/// Leading `0x` marks do not change the key a text gives.
pub proof fn law_hex_prefix_ignored(text: Seq<u8>)
    ensures
        spec_hex_key(seq![0x30u8, 0x78u8] + text) == spec_hex_key(text),
{
    let s = seq![0x30u8, 0x78u8] + text;
    assert(s.skip(2) =~= text);
}

/// The lower-case hexadecimal digit of a value below sixteen.
pub open spec fn hex_char(d: int) -> u8 {
    if d < 10 {
        (0x30 + d) as u8
    } else {
        (0x61 + d - 10) as u8
    }
}

/// Bytes spelled as lower-case hexadecimal, two digits per byte, high digit first.
pub open spec fn hex_spelling(bytes: Seq<u8>) -> Seq<u8> {
    Seq::new(
        2 * bytes.len(),
        |i: int|
            if i % 2 == 0 {
                hex_char(bytes[i / 2] as int / 16)
            } else {
                hex_char(bytes[i / 2] as int % 16)
            },
    )
}

/// A key spelled in lower-case hexadecimal (as the program prints a
/// recovered key) reads back as the same key.
pub proof fn law_hex_key_round_trip(key: Seq<u8>)
    requires
        key.len() == 8,
    ensures
        spec_hex_key(hex_spelling(key)) == Ok::<Seq<u8>, HexKeyError>(key),
{
    let s = hex_spelling(key);
    assert(s.len() == 16);
    assert forall|i: int| 0 <= i < s.len() implies #[trigger] hex_digit(s[i]) is Some
        && hex_digit(s[i])->0 == if i % 2 == 0 {
            key[i / 2] / 16
        } else {
            key[i / 2] % 16
        } by {
        let b = key[i / 2];
        assert(b / 16 < 16 && b % 16 < 16);
    }
    assert(!(s[1] == 0x78u8)) by {
        assert(hex_digit(s[1]) is Some);
    }
    assert(strip_hex_prefix(s) == s);
    let b = hex_bytes(s);
    assert forall|j: int| 0 <= j < 8 implies #[trigger] b[j] == key[j] by {
        assert(hex_digit(s[2 * j])->0 == key[j] / 16) by {
            assert((2 * j) % 2 == 0 && (2 * j) / 2 == j);
        }
        assert(hex_digit(s[2 * j + 1])->0 == key[j] % 16) by {
            assert((2 * j + 1) % 2 == 1 && (2 * j + 1) / 2 == j);
        }
    }
    assert(b.subrange(0, 8) =~= key);
}

/// Where a copied world goes inside an existing output folder: into a new
/// subfolder named after the output when the folder is not empty.
pub fn copy_into_subfolder(target_exists: bool, target_is_empty: bool) -> (r: bool)
    ensures
        r == (target_exists && !target_is_empty),
{
    target_exists && !target_is_empty
}

/// Whether the given path is processed as a single save: always when single
/// mode is forced; otherwise, unless batch mode is forced, when the path is a
/// save itself or when some folder directly under it is a save.
pub fn processes_single_save(force_single: bool, force_batch: bool, is_save: bool, holds_saves: bool) -> (r:
    bool)
    ensures
        r == (force_single || (!force_batch && (is_save || holds_saves))),
{
    if force_single {
        true
    } else if force_batch {
        false
    } else {
        is_save || holds_saves
    }
}

/// The folder proposed for the output of one save when none was given.
#[derive(Debug, Clone, Copy, PartialEq, Eq, Structural)]
pub enum DefaultOutput {
    /// A folder named after the save, inside the installed game's worlds folder.
    GameWorlds,
    /// A folder named after the output, beside the save.
    BesideSave,
}

/// A copied world goes straight into the game's worlds folder when the game
/// is installed and that folder was found; anything else goes beside the save.
pub fn default_output(pack_mode: PackMode, game_installed: bool, worlds_folder_found: bool) -> (r:
    DefaultOutput)
    ensures
        r == (if pack_mode == PackMode::Copy && game_installed && worlds_folder_found {
            DefaultOutput::GameWorlds
        } else {
            DefaultOutput::BesideSave
        }),
{
    match pack_mode {
        PackMode::Copy => {
            if game_installed && worlds_folder_found {
                DefaultOutput::GameWorlds
            } else {
                DefaultOutput::BesideSave
            }
        },
        _ => DefaultOutput::BesideSave,
    }
}

} // verus!
