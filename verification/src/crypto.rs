//! The XOR stream cipher that protects world database files.
//!
//! An encrypted file is a four-byte magic header followed by the plaintext
//! XOR-ed with an eight-byte key repeated from the first payload byte on.
//! An all-zero key stands for the built-in default key `"88329851"`.
use vstd::prelude::*;

verus! {

/// Big-endian value of the first four bytes of `buf`.
pub open spec fn be_u32(buf: Seq<u8>) -> int
    recommends
        buf.len() >= 4,
{
    buf[0] * 0x1000000 + buf[1] * 0x10000 + buf[2] * 0x100 + buf[3]
}

/// The magic header written in front of every encrypted payload.
pub open spec fn magic_header() -> Seq<u8> {
    seq![0x80u8, 0x1Du8, 0x30u8, 0x01u8]
}

/// True when `buf` starts with one of the two recognised magic numbers.
pub open spec fn has_magic(buf: Seq<u8>) -> bool {
    buf.len() >= 4 && (be_u32(buf) == 0x801D3001 || be_u32(buf) == 0x901D3001)
}

/// The key used when the caller gives the all-zero key: the ASCII text `88329851`.
pub open spec fn default_key() -> Seq<u8> {
    seq![0x38u8, 0x38u8, 0x33u8, 0x32u8, 0x39u8, 0x38u8, 0x35u8, 0x31u8]
}

pub open spec fn is_zero_key(key: Seq<u8>) -> bool {
    forall|i: int| 0 <= i < key.len() ==> key[i] == 0
}

/// The key actually applied for a caller-given key.
pub open spec fn effective_key(key: Seq<u8>) -> Seq<u8> {
    if is_zero_key(key) {
        default_key()
    } else {
        key
    }
}

/// `data` XOR-ed with `key` repeated cyclically from index 0.
pub open spec fn xor_stream(data: Seq<u8>, key: Seq<u8>) -> Seq<u8> {
    Seq::new(data.len(), |i: int| data[i] ^ key[i % key.len() as int])
}

/// What `encrypt_data` produces.
pub open spec fn spec_encrypt(data: Seq<u8>, key: Seq<u8>) -> Seq<u8> {
    magic_header() + xor_stream(data, effective_key(key))
}

/// What `decrypt_data` produces: `None` stands for the refusal of a payload without magic.
pub open spec fn spec_decrypt(data: Seq<u8>, key: Seq<u8>) -> Option<Seq<u8>> {
    if has_magic(data) {
        Some(xor_stream(data.skip(4), effective_key(key)))
    } else {
        None
    }
}

/// Why `decrypt_data` refused its input.
#[derive(Debug, Clone, Copy, PartialEq, Eq, Structural)]
pub enum CryptoError {
    /// The data does not start with a recognised magic number.
    NotEncrypted,
}

impl CryptoError {
    /// A human readable description of the error.
    pub fn message(&self) -> (r: &'static str)
        ensures
            r@ == "Data is not encrypted (magic mismatch)"@,
    {
        match self {
            CryptoError::NotEncrypted => "Data is not encrypted (magic mismatch)",
        }
    }
}

/// Why `derive_key` could not recover a key.
#[derive(Debug, Clone, Copy, PartialEq, Eq, Structural)]
pub enum KeyDeriveError {
    /// The CURRENT file holds fewer than 20 bytes.
    CurrentTooShort,
    /// The manifest line and the CURRENT payload differ in length.
    LengthMismatch,
    /// The XOR of the two holds fewer than 16 bytes.
    XorTooShort,
    /// The first and second eight bytes of the XOR differ.
    HalvesDiffer,
}

impl KeyDeriveError {
    /// A human readable description of the error.
    pub fn message(&self) -> (r: &'static str)
        ensures
            r@ == match self {
                KeyDeriveError::CurrentTooShort => "CURRENT file too short"@,
                KeyDeriveError::LengthMismatch => "Length mismatch between MANIFEST name and CURRENT content tail"@,
                KeyDeriveError::XorTooShort => "XOR result too short"@,
                KeyDeriveError::HalvesDiffer => "Key halves do not match"@,
            },
    {
        match self {
            KeyDeriveError::CurrentTooShort => "CURRENT file too short",
            KeyDeriveError::LengthMismatch => "Length mismatch between MANIFEST name and CURRENT content tail",
            KeyDeriveError::XorTooShort => "XOR result too short",
            KeyDeriveError::HalvesDiffer => "Key halves do not match",
        }
    }
}

/// The byte-wise XOR of `line` with the payload of `current` (the bytes after the header).
pub open spec fn xor_with_payload(line: Seq<u8>, current: Seq<u8>) -> Seq<u8> {
    Seq::new(line.len(), |i: int| line[i] ^ current[i + 4])
}

/// Key recovery from a known plaintext line and the encrypted CURRENT file.
pub open spec fn spec_derive_key(line: Seq<u8>, current: Seq<u8>) -> Result<Seq<u8>, KeyDeriveError> {
    if current.len() < 20 {
        Err(KeyDeriveError::CurrentTooShort)
    } else if line.len() != current.len() - 4 {
        Err(KeyDeriveError::LengthMismatch)
    } else {
        let x = xor_with_payload(line, current);
        if x.len() < 16 {
            Err(KeyDeriveError::XorTooShort)
        } else if x.subrange(0, 8) != x.subrange(8, 16) {
            Err(KeyDeriveError::HalvesDiffer)
        } else {
            Ok(x.subrange(0, 8))
        }
    }
}

/// The plaintext that CURRENT holds: the manifest file name and a newline.
pub open spec fn manifest_line(name: Seq<char>) -> Seq<u8> {
    vstd::utf8::encode_utf8(name).push(0x0Au8)
}

pub proof fn lemma_xor_cancel(a: u8, b: u8)
    ensures
        a ^ (a ^ b) == b,
{
    assert(a ^ (a ^ b) == b) by (bit_vector);
}

pub proof fn lemma_xor_twice(a: u8, b: u8)
    ensures
        (a ^ b) ^ b == a,
{
    assert((a ^ b) ^ b == a) by (bit_vector);
}

/// Checks whether `buf` carries the encryption magic number.
pub fn is_encrypted(buf: &[u8]) -> (r: bool)
    ensures
        r == has_magic(buf@),
{
    if buf.len() < 4 {
        return false;
    }
    let mag: u64 = (buf[0] as u64) * 0x1000000 + (buf[1] as u64) * 0x10000 + (buf[2] as u64)
        * 0x100 + (buf[3] as u64);
    mag == 0x801D3001 || mag == 0x901D3001
}

/// The key to apply for `key`: the default key when `key` is all zeros.
fn effective_key_of(key: &[u8; 8]) -> (r: [u8; 8])
    ensures
        r@ == effective_key(key@),
{
    let mut all_zero = true;
    let mut i: usize = 0;
    while i < 8
        invariant
            0 <= i <= 8,
            key@.len() == 8,
            all_zero == (forall|j: int| 0 <= j < i ==> key@[j] == 0),
        decreases 8 - i,
    {
        if key[i] != 0 {
            all_zero = false;
        }
        i = i + 1;
    }
    if all_zero {
        let d: [u8; 8] = [0x38, 0x38, 0x33, 0x32, 0x39, 0x38, 0x35, 0x31];
        assert(d@ =~= default_key());
        d
    } else {
        *key
    }
}

/// Appends `data` XOR-ed with the repeated `key` to `out`.
fn push_xor(out: &mut Vec<u8>, data: &[u8], key: &[u8; 8])
    ensures
        final(out)@ == old(out)@ + xor_stream(data@, key@),
{
    let ghost start = out@;
    let mut i: usize = 0;
    while i < data.len()
        invariant
            0 <= i <= data@.len(),
            key@.len() == 8,
            out@ =~= start + xor_stream(data@.take(i as int), key@),
        decreases data@.len() - i,
    {
        out.push(data[i] ^ key[i % 8]);
        i = i + 1;
        assert(xor_stream(data@.take(i as int), key@) =~= xor_stream(
            data@.take(i - 1),
            key@,
        ).push(data@[i - 1] ^ key@[(i - 1) % 8]));
    }
    assert(data@.take(i as int) =~= data@);
}

/// Encrypts `data`, returning the magic header followed by the XOR-ed payload.
///
/// The XOR offers only basic obfuscation, not cryptographic protection.
pub fn encrypt_data(data: &[u8], key: &[u8; 8]) -> (r: Vec<u8>)
    ensures
        r@ == spec_encrypt(data@, key@),
{
    let ek = effective_key_of(key);
    let mut out: Vec<u8> = Vec::new();
    out.push(0x80);
    out.push(0x1D);
    out.push(0x30);
    out.push(0x01);
    assert(out@ =~= magic_header());
    push_xor(&mut out, data, &ek);
    out
}

/// Decrypts `data`, which must start with the magic header.
pub fn decrypt_data(data: &[u8], key: &[u8; 8]) -> (r: Result<Vec<u8>, CryptoError>)
    ensures
        match spec_decrypt(data@, key@) {
            Some(plain) => r matches Ok(v) && v@ == plain,
            None => r == Err::<Vec<u8>, CryptoError>(CryptoError::NotEncrypted),
        },
{
    if !is_encrypted(data) {
        return Err(CryptoError::NotEncrypted);
    }
    let ek = effective_key_of(key);
    let payload = &data[4..data.len()];
    assert(payload@ =~= data@.skip(4));
    let mut out: Vec<u8> = Vec::new();
    push_xor(&mut out, payload, &ek);
    assert(out@ =~= xor_stream(data@.skip(4), effective_key(key@)));
    Ok(out)
}

/// Recovers the key from the manifest file name and the encrypted CURRENT file.
///
/// CURRENT holds the manifest name followed by a newline; XOR-ing that known
/// plaintext with the payload of CURRENT yields the key stream, whose first
/// eight bytes must repeat in the next eight.
pub fn derive_key(manifest_name: &str, current_data: &[u8]) -> (r: Result<[u8; 8], KeyDeriveError>)
    ensures
        match spec_derive_key(manifest_line(manifest_name@), current_data@) {
            Ok(k) => r matches Ok(key) && key@ == k,
            Err(e) => r == Err::<[u8; 8], KeyDeriveError>(e),
        },
{
    if current_data.len() < 20 {
        return Err(KeyDeriveError::CurrentTooShort);
    }
    let name = manifest_name.as_bytes();
    let ghost line = manifest_line(manifest_name@);
    assert(line.len() == name@.len() + 1);
    let data_len = current_data.len();
    let tail_len = data_len - 4;
    if name.len() >= tail_len || name.len() + 1 != tail_len {
        return Err(KeyDeriveError::LengthMismatch);
    }
    let mut xored: Vec<u8> = Vec::new();
    let mut i: usize = 0;
    while i < tail_len
        invariant
            0 <= i <= tail_len,
            current_data@.len() >= 20,
            data_len == current_data@.len(),
            tail_len == data_len - 4,
            tail_len == line.len(),
            line == name@.push(0x0Au8),
            xored@ =~= xor_with_payload(line, current_data@).take(i as int),
        decreases tail_len - i,
    {
        let b: u8 = if i < name.len() { name[i] } else { 0x0A };
        assert(i + 4 < current_data@.len());
        xored.push(b ^ current_data[i + 4]);
        i = i + 1;
    }
    assert(xored@ =~= xor_with_payload(line, current_data@));
    if xored.len() < 16 {
        return Err(KeyDeriveError::XorTooShort);
    }
    let mut same = true;
    let mut j: usize = 0;
    while j < 8
        invariant
            0 <= j <= 8,
            xored@.len() >= 16,
            same == (forall|t: int| 0 <= t < j ==> #[trigger] xored@[t] == xored@[t + 8]),
        decreases 8 - j,
    {
        if xored[j] != xored[j + 8] {
            same = false;
        }
        j = j + 1;
    }
    if !same {
        assert(xored@.subrange(0, 8) != xored@.subrange(8, 16)) by {
            let t = choose|t: int| 0 <= t < 8 && #[trigger] xored@[t] != xored@[t + 8];
            assert(xored@.subrange(0, 8)[t] != xored@.subrange(8, 16)[t]);
        }
        return Err(KeyDeriveError::HalvesDiffer);
    }
    assert(xored@.subrange(0, 8) =~= xored@.subrange(8, 16));
    let mut key = [0u8; 8];
    let mut k: usize = 0;
    while k < 8
        invariant
            0 <= k <= 8,
            xored@.len() >= 16,
            key@.len() == 8,
            forall|t: int| 0 <= t < k ==> key@[t] == xored@[t],
        decreases 8 - k,
    {
        key[k] = xored[k];
        k = k + 1;
    }
    assert(key@ =~= xored@.subrange(0, 8));
    Ok(key)
}

/// Decryption undoes encryption, for every payload and every key.
pub proof fn law_decrypt_encrypt(data: Seq<u8>, key: Seq<u8>)
    requires
        key.len() == 8,
    ensures
        has_magic(spec_encrypt(data, key)),
        spec_decrypt(spec_encrypt(data, key), key) == Some(data),
{
    let c = spec_encrypt(data, key);
    let ek = effective_key(key);
    assert(ek.len() == 8);
    assert(c[0] == 0x80 && c[1] == 0x1D && c[2] == 0x30 && c[3] == 0x01);
    assert(c.skip(4) =~= xor_stream(data, ek));
    assert forall|i: int| 0 <= i < data.len() implies #[trigger] xor_stream(
        xor_stream(data, ek),
        ek,
    )[i] == data[i] by {
        lemma_xor_twice(data[i], ek[i % 8]);
    }
    assert(xor_stream(xor_stream(data, ek), ek) =~= data);
}

/// Encryption undoes decryption for payloads that carry the header that encryption writes.
pub proof fn law_encrypt_decrypt(cipher: Seq<u8>, key: Seq<u8>)
    requires
        key.len() == 8,
        cipher.len() >= 4,
        cipher.take(4) == magic_header(),
    ensures
        spec_decrypt(cipher, key) matches Some(plain) && spec_encrypt(plain, key) == cipher,
{
    let ek = effective_key(key);
    assert(cipher[0] == 0x80 && cipher[1] == 0x1D && cipher[2] == 0x30 && cipher[3] == 0x01) by {
        assert(cipher.take(4)[0] == cipher[0]);
        assert(cipher.take(4)[1] == cipher[1]);
        assert(cipher.take(4)[2] == cipher[2]);
        assert(cipher.take(4)[3] == cipher[3]);
    }
    let plain = xor_stream(cipher.skip(4), ek);
    assert forall|i: int| 0 <= i < cipher.len() - 4 implies #[trigger] xor_stream(plain, ek)[i]
        == cipher.skip(4)[i] by {
        lemma_xor_twice(cipher.skip(4)[i], ek[i % 8]);
    }
    assert(xor_stream(plain, ek) =~= cipher.skip(4));
    assert(spec_encrypt(plain, key) =~= cipher);
}

/// The all-zero key behaves exactly as the default key `88329851`.
pub proof fn law_zero_key_is_default(data: Seq<u8>, key: Seq<u8>)
    requires
        key.len() == 8,
        is_zero_key(key),
    ensures
        spec_encrypt(data, key) == spec_encrypt(data, default_key()),
        spec_decrypt(data, key) == spec_decrypt(data, default_key()),
{
    assert(!is_zero_key(default_key())) by {
        assert(default_key()[0] != 0);
    }
}

proof fn lemma_derive_from_stream(line: Seq<u8>, ek: Seq<u8>)
    requires
        ek.len() == 8,
        line.len() >= 16,
    ensures
        spec_derive_key(line, magic_header() + xor_stream(line, ek)) == Ok::<Seq<u8>, KeyDeriveError>(ek),
{
    let s = xor_stream(line, ek);
    let c = magic_header() + s;
    assert(c.len() == line.len() + 4);
    let x = xor_with_payload(line, c);
    assert forall|i: int| 0 <= i < line.len() implies #[trigger] x[i] == ek[i % 8] by {
        assert(c[i + 4] == s[i]);
        lemma_xor_cancel(line[i], ek[i % 8]);
    }
    assert forall|i: int| 0 <= i < 8 implies #[trigger] x.subrange(0, 8)[i] == ek[i] by {
        assert(x[i] == ek[i % 8]);
    }
    assert forall|i: int| 0 <= i < 8 implies #[trigger] x.subrange(8, 16)[i] == ek[i] by {
        assert(x[i + 8] == ek[(i + 8) % 8]);
    }
    assert(x.subrange(0, 8) =~= ek);
    assert(x.subrange(8, 16) =~= ek);
}

/// A CURRENT file written by `encrypt_data` from a manifest line of at least
/// sixteen bytes gives back the key that encrypted it (the default key for
/// the all-zero key).
pub proof fn law_derive_key_recovers_key(line: Seq<u8>, key: Seq<u8>)
    requires
        key.len() == 8,
        line.len() >= 16,
    ensures
        spec_derive_key(line, spec_encrypt(line, key)) == Ok::<Seq<u8>, KeyDeriveError>(
            effective_key(key),
        ),
{
    lemma_derive_from_stream(line, effective_key(key));
}

/// What the cipher does to each byte: encryption writes the header
/// `80 1D 30 01` and then every payload byte XOR-ed with the key byte at its
/// position modulo eight, over the whole payload; decryption of a payload that
/// carries the magic drops the four header bytes and XORs every remaining byte
/// the same way, and refuses a payload without the magic.
pub proof fn law_cipher_bytes(data: Seq<u8>, key: Seq<u8>)
    requires
        key.len() == 8,
    ensures
        effective_key(key).len() == 8,
        spec_encrypt(data, key).len() == data.len() + 4,
        spec_encrypt(data, key)[0] == 0x80u8 && spec_encrypt(data, key)[1] == 0x1Du8
            && spec_encrypt(data, key)[2] == 0x30u8 && spec_encrypt(data, key)[3] == 0x01u8,
        forall|i: int|
            #![trigger data[i]]
            0 <= i < data.len() ==> spec_encrypt(data, key)[4 + i] == data[i] ^ effective_key(key)[i % 8],
        has_magic(data) ==> (spec_decrypt(data, key) matches Some(p) && p.len() == data.len() - 4
            && forall|i: int|
            #![trigger p[i]]
            0 <= i < p.len() ==> p[i] == data[4 + i] ^ effective_key(key)[i % 8]),
        !has_magic(data) ==> spec_decrypt(data, key) is None,
{
}

} // verus!
