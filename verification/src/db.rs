//! Rules about the files of a world: which database files matter, how a scan
//! of the database sorts them, and what an intact world holds.
use crate::crypto::{has_magic, is_encrypted};
use crate::text::{bytes_end_with, bytes_start_with, ends_with_bytes, starts_with_bytes, str_eq, utf8};
use vstd::prelude::*;

verus! {

#[verifier::external_type_specification]
#[verifier::external_body]
pub struct ExRegexError(regex::Error);

/// Whether `regex::Regex::new` accepts the pattern.
pub uninterp spec fn regex_compiles(pattern: Seq<char>) -> bool;

/// Whether `regex::Regex::is_match` finds the compiled pattern in the text.
pub uninterp spec fn regex_match(pattern: Seq<char>, text: Seq<char>) -> bool;

/// Compiles `pattern` with `regex::Regex::new` and, when that succeeds, tests
/// `text` with `regex::Regex::is_match`. The contract claims that compilation
/// succeeds exactly for the patterns that `regex_compiles` holds of and that
/// the answer is `regex_match` of the pattern and the text; what the regex
/// grammar means is left to the crate.
#[verifier::external_body]
fn regex_is_match(pattern: &str, text: &str) -> (r: Result<bool, regex::Error>)
    ensures
        r is Ok <==> regex_compiles(pattern@),
        r matches Ok(b) ==> b == regex_match(pattern@, text@),
{
    let re = regex::Regex::new(pattern)?;
    Ok(re.is_match(text))
}

/// The pattern of manifest file names: `MANIFEST-` and six digits.
pub open spec fn manifest_pattern() -> Seq<char> {
    "^MANIFEST-\\d{6}$"@
}

/// The pattern of table file names: six digits and `.ldb`.
pub open spec fn table_pattern() -> Seq<char> {
    "^\\d{6}\\.ldb$"@
}

/// The suffix of table file names.
pub open spec fn ldb_suffix() -> Seq<u8> {
    seq![0x2Eu8, 0x6Cu8, 0x64u8, 0x62u8]
}

/// One of the file name patterns does not compile.
#[derive(Debug, Clone, Copy, PartialEq, Eq, Structural)]
pub struct PatternError;

/// What a database file name is: a manifest, the CURRENT file, a table.
#[derive(Debug, Clone, Copy, PartialEq, Eq, Structural)]
pub struct DbNameFlags {
    pub is_manifest: bool,
    pub is_current: bool,
    pub is_table: bool,
}

impl DbNameFlags {
    /// The file takes part in a scan of the database.
    pub open spec fn spec_relevant(self) -> bool {
        self.is_manifest || self.is_current || self.is_table
    }

    /// The file takes part in a scan of the database.
    pub fn relevant(&self) -> (r: bool)
        ensures
            r == self.spec_relevant(),
    {
        self.is_manifest || self.is_current || self.is_table
    }
}

/// The flags of `name`, when both patterns compile.
pub open spec fn spec_name_flags(name: Seq<char>) -> Option<DbNameFlags> {
    if regex_compiles(manifest_pattern()) && regex_compiles(table_pattern()) {
        Some(
            DbNameFlags {
                is_manifest: regex_match(manifest_pattern(), name),
                is_current: name == "CURRENT"@,
                is_table: regex_match(table_pattern(), name),
            },
        )
    } else {
        None
    }
}

/// Classifies a file name of the database directory.
pub fn db_name_flags(name: &str) -> (r: Result<DbNameFlags, PatternError>)
    ensures
        match spec_name_flags(name@) {
            Some(f) => r == Ok::<DbNameFlags, PatternError>(f),
            None => r == Err::<DbNameFlags, PatternError>(PatternError),
        },
{
    let m = match regex_is_match("^MANIFEST-\\d{6}$", name) {
        Ok(b) => b,
        Err(_) => {
            return Err(PatternError);
        },
    };
    let t = match regex_is_match("^\\d{6}\\.ldb$", name) {
        Ok(b) => b,
        Err(_) => {
            return Err(PatternError);
        },
    };
    Ok(DbNameFlags { is_manifest: m, is_current: str_eq(name, "CURRENT"), is_table: t })
}

/// What a scan of the database directory found: the names of encrypted and
/// unencrypted files, the last manifest name and the content of CURRENT.
pub struct DbScan {
    pub encrypted: Vec<String>,
    pub decrypted: Vec<String>,
    pub manifest_name: String,
    pub current_data: Vec<u8>,
}

/// The scan after recording one more file.
pub open spec fn scan_step(
    before: (Seq<Seq<char>>, Seq<Seq<char>>, Seq<char>, Seq<u8>),
    name: Seq<char>,
    flags: DbNameFlags,
    data: Seq<u8>,
) -> (Seq<Seq<char>>, Seq<Seq<char>>, Seq<char>, Seq<u8>) {
    if !flags.spec_relevant() {
        before
    } else {
        let (enc, dec) = if has_magic(data) {
            (before.0.push(name), before.1)
        } else {
            (before.0, before.1.push(name))
        };
        (
            enc,
            dec,
            if flags.is_manifest {
                name
            } else {
                before.2
            },
            if flags.is_current {
                data
            } else {
                before.3
            },
        )
    }
}

impl DbScan {
    pub open spec fn model(&self) -> (Seq<Seq<char>>, Seq<Seq<char>>, Seq<char>, Seq<u8>) {
        (
            self.encrypted@.map_values(|s: String| s@),
            self.decrypted@.map_values(|s: String| s@),
            self.manifest_name@,
            self.current_data@,
        )
    }

    /// An empty scan.
    pub fn new() -> (s: Self)
        ensures
            s.model() == (
                Seq::<Seq<char>>::empty(),
                Seq::<Seq<char>>::empty(),
                Seq::<char>::empty(),
                Seq::<u8>::empty(),
            ),
    {
        let s = DbScan {
            encrypted: Vec::new(),
            decrypted: Vec::new(),
            manifest_name: String::new(),
            current_data: Vec::new(),
        };
        assert(s.model().0 =~= Seq::<Seq<char>>::empty());
        assert(s.model().1 =~= Seq::<Seq<char>>::empty());
        s
    }

    /// Records a regular file of the database with its name, flags and
    /// content: relevant files are sorted by whether they carry the
    /// encryption magic; a manifest names the manifest; CURRENT gives its data.
    pub fn record(&mut self, name: String, flags: DbNameFlags, data: Vec<u8>)
        ensures
            final(self).model() == scan_step(old(self).model(), name@, flags, data@),
            flags.is_current ==> final(self).current_data@ == data@,
            flags.is_manifest ==> final(self).manifest_name@ == name@,
    {
        if !flags.relevant() {
            return ;
        }
        let ghost before = self.model();
        if is_encrypted(&data) {
            self.encrypted.push(name.clone());
            assert(self.model().0 =~= before.0.push(name@));
        } else {
            self.decrypted.push(name.clone());
            assert(self.model().1 =~= before.1.push(name@));
        }
        if flags.is_manifest {
            self.manifest_name = name;
        }
        if flags.is_current {
            self.current_data = data;
        }
    }
}

/// Recording a file into a scan: a file that is no manifest, CURRENT or table
/// changes nothing; any other file joins exactly one of the two name lists,
/// the encrypted one exactly when it carries the magic; a manifest's name
/// becomes the manifest name; and CURRENT's bytes are kept as they are,
/// encrypted or not.
pub proof fn law_scan_record(
    before: (Seq<Seq<char>>, Seq<Seq<char>>, Seq<char>, Seq<u8>),
    name: Seq<char>,
    flags: DbNameFlags,
    data: Seq<u8>,
)
    ensures
        !flags.spec_relevant() ==> scan_step(before, name, flags, data) == before,
        flags.spec_relevant() ==> scan_step(before, name, flags, data).0.len()
            + scan_step(before, name, flags, data).1.len() == before.0.len() + before.1.len() + 1,
        flags.spec_relevant() && has_magic(data) ==> scan_step(before, name, flags, data).0
            == before.0.push(name),
        flags.spec_relevant() && !has_magic(data) ==> scan_step(before, name, flags, data).1
            == before.1.push(name),
        flags.is_manifest ==> scan_step(before, name, flags, data).2 == name,
        flags.is_current ==> scan_step(before, name, flags, data).3 == data,
        !flags.is_manifest ==> scan_step(before, name, flags, data).2 == before.2,
        !flags.is_current ==> scan_step(before, name, flags, data).3 == before.3,
{
}

/// `name` ends with `.ldb`.
pub open spec fn is_ldb_name(name: Seq<char>) -> bool {
    ends_with_bytes(utf8(name), ldb_suffix())
}

/// Whether the file name ends with `.ldb`.
pub fn is_ldb_file(name: &str) -> (r: bool)
    ensures
        r == is_ldb_name(name@),
{
    let suffix: [u8; 4] = [0x2E, 0x6C, 0x64, 0x62];
    assert(suffix@ =~= ldb_suffix());
    bytes_end_with(name.as_bytes(), &suffix)
}

/// The index of the first name that ends with `.ldb`.
pub fn first_ldb_name(names: &[String]) -> (r: Option<usize>)
    ensures
        match r {
            Some(i) => i < names@.len() && is_ldb_name(names@[i as int]@) && forall|j: int|
                0 <= j < i ==> !is_ldb_name(#[trigger] names@[j]@),
            None => forall|j: int| 0 <= j < names@.len() ==> !is_ldb_name(#[trigger] names@[j]@),
        },
{
    let mut i: usize = 0;
    while i < names.len()
        invariant
            0 <= i <= names@.len(),
            forall|j: int| 0 <= j < i ==> !is_ldb_name(#[trigger] names@[j]@),
        decreases names@.len() - i,
    {
        if is_ldb_file(names[i].as_str()) {
            return Some(i);
        }
        i = i + 1;
    }
    None
}

/// The LevelDB table magic as it ends every table: 0xDB4775248B80FB57 stored little-endian.
pub open spec fn table_magic() -> Seq<u8> {
    seq![0x57u8, 0xFBu8, 0x80u8, 0x8Bu8, 0x24u8, 0x75u8, 0x47u8, 0xDBu8]
}

/// Whether a table holds at least eight bytes and ends with the table magic.
pub fn ldb_magic_ok(data: &[u8]) -> (r: bool)
    ensures
        r == ends_with_bytes(data@, table_magic()),
{
    let magic: [u8; 8] = [0x57, 0xFB, 0x80, 0x8B, 0x24, 0x75, 0x47, 0xDB];
    assert(magic@ =~= table_magic());
    bytes_end_with(data, &magic)
}

/// Why a world failed the integrity check.
#[derive(Debug, Clone, Copy, PartialEq, Eq, Structural)]
pub enum IntegrityError {
    /// `level.dat` is missing.
    MissingLevelDat,
    /// The `db` directory is missing.
    MissingDb,
    /// The manifest name pattern does not compile.
    BadPattern,
    /// No `MANIFEST-*` file is in `db`.
    MissingManifest,
    /// No `CURRENT` file is in `db`.
    MissingCurrent,
}

impl IntegrityError {
    /// The name of the missing item.
    pub fn missing_name(&self) -> (r: &'static str)
        ensures
            r@ == match self {
                IntegrityError::MissingLevelDat => "level.dat"@,
                IntegrityError::MissingDb => "db/"@,
                IntegrityError::BadPattern => "MANIFEST-*"@,
                IntegrityError::MissingManifest => "MANIFEST-*"@,
                IntegrityError::MissingCurrent => "CURRENT"@,
            },
    {
        match self {
            IntegrityError::MissingLevelDat => "level.dat",
            IntegrityError::MissingDb => "db/",
            IntegrityError::BadPattern => "MANIFEST-*",
            IntegrityError::MissingManifest => "MANIFEST-*",
            IntegrityError::MissingCurrent => "CURRENT",
        }
    }
}

/// Some name matches the manifest pattern.
pub open spec fn lists_manifest(names: Seq<Seq<char>>) -> bool {
    exists|j: int| 0 <= j < names.len() && regex_match(manifest_pattern(), #[trigger] names[j])
}

/// Some name that is no manifest is `CURRENT`.
pub open spec fn lists_current(names: Seq<Seq<char>>) -> bool {
    exists|j: int|
        0 <= j < names.len() && !regex_match(manifest_pattern(), #[trigger] names[j]) && names[j]
            == "CURRENT"@
}

/// The verdict of the integrity check on what the world directory holds.
pub open spec fn spec_integrity(level_dat_is_file: bool, db_is_dir: bool, names: Seq<Seq<char>>) -> Result<(), IntegrityError> {
    if !level_dat_is_file {
        Err(IntegrityError::MissingLevelDat)
    } else if !db_is_dir {
        Err(IntegrityError::MissingDb)
    } else if !regex_compiles(manifest_pattern()) {
        Err(IntegrityError::BadPattern)
    } else if !lists_manifest(names) {
        Err(IntegrityError::MissingManifest)
    } else if !lists_current(names) {
        Err(IntegrityError::MissingCurrent)
    } else {
        Ok(())
    }
}

/// Checks that a world has `level.dat`, a `db` directory, and in `db` (whose
/// entries are `names`) a manifest and `CURRENT`.
pub fn integrity_verdict(level_dat_is_file: bool, db_is_dir: bool, names: &[String]) -> (r: Result<
    (),
    IntegrityError,
>)
    ensures
        r == spec_integrity(level_dat_is_file, db_is_dir, names@.map_values(|s: String| s@)),
{
    let ghost nv = names@.map_values(|s: String| s@);
    if !level_dat_is_file {
        return Err(IntegrityError::MissingLevelDat);
    }
    if !db_is_dir {
        return Err(IntegrityError::MissingDb);
    }
    if regex_is_match("^MANIFEST-\\d{6}$", "").is_err() {
        return Err(IntegrityError::BadPattern);
    }
    let mut has_manifest = false;
    let mut has_current = false;
    let mut i: usize = 0;
    while i < names.len()
        invariant
            0 <= i <= names@.len(),
            nv == names@.map_values(|s: String| s@),
            regex_compiles(manifest_pattern()),
            has_manifest == exists|j: int|
                0 <= j < i && regex_match(manifest_pattern(), #[trigger] nv[j]),
            has_current == exists|j: int|
                0 <= j < i && !regex_match(manifest_pattern(), #[trigger] nv[j]) && nv[j]
                    == "CURRENT"@,
        decreases names@.len() - i,
    {
        let name = names[i].as_str();
        assert(nv[i as int] == name@);
        let is_manifest = match regex_is_match("^MANIFEST-\\d{6}$", name) {
            Ok(b) => b,
            Err(_) => false,
        };
        if is_manifest {
            has_manifest = true;
        } else if str_eq(name, "CURRENT") {
            has_current = true;
        }
        i = i + 1;
    }
    if !has_manifest {
        return Err(IntegrityError::MissingManifest);
    }
    if !has_current {
        return Err(IntegrityError::MissingCurrent);
    }
    Ok(())
}

/// The file holds block-entity or entity NBT data: its name starts with
/// `BlockEntity` or `Entity`.
pub open spec fn is_entity_name(name: Seq<char>) -> bool {
    starts_with_bytes(utf8(name), utf8("BlockEntity"@)) || starts_with_bytes(
        utf8(name),
        utf8("Entity"@),
    )
}

/// Whether the database file holds entity NBT data that the sanity check samples.
pub fn is_entity_file(name: &str) -> (r: bool)
    ensures
        r == is_entity_name(name@),
{
    bytes_start_with(name.as_bytes(), "BlockEntity".as_bytes()) || bytes_start_with(
        name.as_bytes(),
        "Entity".as_bytes(),
    )
}

/// Whether copying a world leaves out this entry: the `netease_config` directory.
pub fn skip_when_copying(name: &str, is_dir: bool) -> (r: bool)
    ensures
        r == (name@ == "netease_config"@ && is_dir),
{
    str_eq(name, "netease_config") && is_dir
}

/// `level.dat` data is long enough to hold an NBT payload after its eight-byte header.
pub fn level_dat_payload(data: &[u8]) -> (r: Option<&[u8]>)
    ensures
        match r {
            Some(p) => data@.len() > 8 && p@ == data@.skip(8),
            None => data@.len() <= 8,
        },
{
    if data.len() <= 8 {
        None
    } else {
        let p = &data[8..data.len()];
        assert(p@ =~= data@.skip(8));
        Some(p)
    }
}

} // verus!
