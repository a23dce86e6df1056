//! Byte and text comparisons on UTF-8 strings.
use vstd::prelude::*;

verus! {

/// `s` begins with `p`.
pub open spec fn starts_with_bytes(s: Seq<u8>, p: Seq<u8>) -> bool {
    p.len() <= s.len() && s.subrange(0, p.len() as int) == p
}

/// `s` ends with `p`.
pub open spec fn ends_with_bytes(s: Seq<u8>, p: Seq<u8>) -> bool {
    p.len() <= s.len() && s.subrange(s.len() - p.len(), s.len() as int) == p
}

/// The UTF-8 encoding of a string's characters.
pub open spec fn utf8(s: Seq<char>) -> Seq<u8> {
    vstd::utf8::encode_utf8(s)
}

/// Whether `s` begins with `p`.
pub fn bytes_start_with(s: &[u8], p: &[u8]) -> (r: bool)
    ensures
        r == starts_with_bytes(s@, p@),
{
    if p.len() > s.len() {
        return false;
    }
    let mut i: usize = 0;
    while i < p.len()
        invariant
            0 <= i <= p@.len(),
            p@.len() <= s@.len(),
            forall|t: int| 0 <= t < i ==> #[trigger] s@[t] == p@[t],
        decreases p@.len() - i,
    {
        if s[i] != p[i] {
            assert(s@.subrange(0, p@.len() as int)[i as int] != p@[i as int]);
            return false;
        }
        i = i + 1;
    }
    assert(s@.subrange(0, p@.len() as int) =~= p@);
    true
}

/// Whether `s` ends with `p`.
pub fn bytes_end_with(s: &[u8], p: &[u8]) -> (r: bool)
    ensures
        r == ends_with_bytes(s@, p@),
{
    if p.len() > s.len() {
        return false;
    }
    let n = s.len();
    let off = n - p.len();
    let mut i: usize = 0;
    while i < p.len()
        invariant
            0 <= i <= p@.len(),
            n == s@.len(),
            off + p@.len() == n,
            forall|t: int| 0 <= t < i ==> #[trigger] s@[off + t] == p@[t],
        decreases p@.len() - i,
    {
        if s[off + i] != p[i] {
            assert(s@.subrange(off as int, s@.len() as int)[i as int] != p@[i as int]);
            return false;
        }
        i = i + 1;
    }
    assert forall|t: int| 0 <= t < p@.len() implies #[trigger] s@.subrange(
        off as int,
        s@.len() as int,
    )[t] == p@[t] by {
        assert(s@[off + t] == p@[t]);
    }
    assert(s@.subrange(off as int, s@.len() as int) =~= p@);
    true
}

/// Whether the two strings hold the same characters.
pub fn str_eq(a: &str, b: &str) -> (r: bool)
    ensures
        r == (a@ == b@),
{
    let x = a.as_bytes();
    let y = b.as_bytes();
    let same = x.len() == y.len() && bytes_start_with(x, y);
    proof {
        assert(x@ == vstd::utf8::encode_utf8(a@));
        assert(y@ == vstd::utf8::encode_utf8(b@));
        vstd::utf8::encode_utf8_decode_utf8(a@);
        vstd::utf8::encode_utf8_decode_utf8(b@);
        if same {
            assert(x@.subrange(0, y@.len() as int) == y@);
            assert(x@ =~= y@);
        }
        if a@ == b@ {
            assert(x@ == y@);
            assert(x@.subrange(0, y@.len() as int) =~= y@);
        }
    }
    same
}

/// Whether `s` ends with the text `p` (compared byte by byte).
pub fn str_ends_with(s: &str, p: &str) -> (r: bool)
    ensures
        r == ends_with_bytes(utf8(s@), utf8(p@)),
{
    bytes_end_with(s.as_bytes(), p.as_bytes())
}

/// Whether `s` starts with the text `p` (compared byte by byte).
pub fn str_starts_with(s: &str, p: &str) -> (r: bool)
    ensures
        r == starts_with_bytes(utf8(s@), utf8(p@)),
{
    bytes_start_with(s.as_bytes(), p.as_bytes())
}

} // verus!
