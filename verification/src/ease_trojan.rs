//! Known-plaintext recovery of a world key from one encrypted table.
//!
//! LevelDB tables end with a fixed eight-byte number and carry a few
//! bytes whose plaintext is predictable. XOR-ing those plaintexts with the
//! ciphertext at the same places gives key fragments; each key position is
//! decided by a vote among the fragments, ties giving several candidates, and
//! the first candidate that decrypts the table to a well-formed tail wins.
use crate::crypto::{decrypt_data, spec_decrypt};
use crate::db::{first_ldb_name, is_ldb_name, table_magic};
use crate::text::ends_with_bytes;
use vstd::prelude::*;

verus! {

/// The eight bytes that the recovery expects at the end of a decrypted table
/// and uses as its first anchor: the LevelDB table magic 0xDB4775248B80FB57,
/// stored little-endian.
pub open spec fn anchor_tail() -> Seq<u8> {
    seq![0x57u8, 0xFBu8, 0x80u8, 0x8Bu8, 0x24u8, 0x75u8, 0x47u8, 0xDBu8]
}

/// The anchors as (offset, plaintext): a negative offset counts from the end.
pub open spec fn trojan_anchors() -> Seq<(int, Seq<u8>)> {
    seq![(-8int, anchor_tail()), (8int, seq![0x0Au8]), (0int, seq![0x00u8])]
}

/// A plaintext known to stand at a given offset of an encrypted table.
struct Anchor {
    offset: isize,
    plaintext: Vec<u8>,
}

impl Anchor {
    spec fn model(self) -> (int, Seq<u8>) {
        (self.offset as int, self.plaintext@)
    }
}

/// Key recovery by known plaintext.
pub struct EaseTrojan {
    anchors: Vec<Anchor>,
}

impl View for EaseTrojan {
    type V = Seq<(int, Seq<u8>)>;

    closed spec fn view(&self) -> Seq<(int, Seq<u8>)> {
        self.anchors@.map_values(|a: Anchor| a.model())
    }
}

/// The `len` bytes of `data` at `offset` (counted from the end when negative).
pub open spec fn anchor_window(data: Seq<u8>, offset: int, len: int) -> Option<Seq<u8>> {
    if data.len() < len {
        None
    } else {
        let start = if offset < 0 {
            data.len() + offset
        } else {
            offset
        };
        if start < 0 || start + len > data.len() {
            None
        } else {
            Some(data.subrange(start, start + len))
        }
    }
}

/// The key fragment an anchor yields on `data`: its plaintext XOR the ciphertext there.
pub open spec fn fragment_of(data: Seq<u8>, anchor: (int, Seq<u8>)) -> Option<Seq<u8>> {
    match anchor_window(data, anchor.0, anchor.1.len() as int) {
        Some(m) => Some(Seq::new(anchor.1.len(), |i: int| anchor.1[i] ^ m[i])),
        None => None,
    }
}

/// The fragments of the first `n` anchors, in anchor order.
pub open spec fn fragments_upto(anchors: Seq<(int, Seq<u8>)>, data: Seq<u8>, n: int) -> Seq<
    Seq<u8>,
>
    decreases n,
{
    if n <= 0 {
        Seq::empty()
    } else {
        let earlier = fragments_upto(anchors, data, n - 1);
        match fragment_of(data, anchors[n - 1]) {
            Some(f) => earlier.push(f),
            None => earlier,
        }
    }
}

pub open spec fn spec_fragments(anchors: Seq<(int, Seq<u8>)>, data: Seq<u8>) -> Seq<Seq<u8>> {
    fragments_upto(anchors, data, anchors.len() as int)
}

// ---------------------------------------------------------------------------
// Voting
// ---------------------------------------------------------------------------
/// How many fragments hold byte `b` at position `i`.
pub open spec fn votes(frags: Seq<Seq<u8>>, i: int, b: int) -> nat
    decreases frags.len(),
{
    if frags.len() == 0 {
        0
    } else {
        votes(frags.drop_last(), i, b) + if frags.last().len() > i && frags.last()[i] == b {
            1nat
        } else {
            0nat
        }
    }
}

/// The most votes any byte below `b` has at position `i`.
pub open spec fn max_votes_below(frags: Seq<Seq<u8>>, i: int, b: int) -> nat
    decreases b,
{
    if b <= 0 {
        0
    } else {
        let m = max_votes_below(frags, i, b - 1);
        let v = votes(frags, i, b - 1);
        if v > m {
            v
        } else {
            m
        }
    }
}

pub open spec fn max_votes(frags: Seq<Seq<u8>>, i: int) -> nat {
    max_votes_below(frags, i, 256)
}

/// The bytes below `b` with the most votes at position `i`, ascending.
pub open spec fn top_below(frags: Seq<Seq<u8>>, i: int, b: int) -> Seq<u8>
    decreases b,
{
    if b <= 0 {
        Seq::empty()
    } else {
        let earlier = top_below(frags, i, b - 1);
        if votes(frags, i, b - 1) > 0 && votes(frags, i, b - 1) == max_votes(frags, i) {
            earlier.push((b - 1) as u8)
        } else {
            earlier
        }
    }
}

/// The candidate bytes of key position `i`: every byte with the most votes, ascending.
pub open spec fn top_bytes(frags: Seq<Seq<u8>>, i: int) -> Seq<u8> {
    top_below(frags, i, 256)
}

/// Some fragment reaches position `i`.
pub open spec fn covered(frags: Seq<Seq<u8>>, i: int) -> bool {
    exists|j: int| 0 <= j < frags.len() && #[trigger] frags[j].len() > i
}

/// The first key position below `n` that no fragment reaches.
pub open spec fn first_uncovered_below(frags: Seq<Seq<u8>>, n: int) -> Option<int>
    decreases n,
{
    if n <= 0 {
        None
    } else {
        match first_uncovered_below(frags, n - 1) {
            Some(i) => Some(i),
            None => if covered(frags, n - 1) {
                None
            } else {
                Some(n - 1)
            },
        }
    }
}

/// The candidate lists of all eight key positions.
pub open spec fn position_candidates(frags: Seq<Seq<u8>>) -> Seq<Seq<u8>> {
    Seq::new(8, |i: int| top_bytes(frags, i))
}

/// The product of the lengths of `lists` from index `k` on.
pub open spec fn product_from(lists: Seq<Seq<u8>>, k: int) -> nat
    decreases lists.len() - k,
{
    if k >= lists.len() {
        1
    } else {
        lists[k].len() * product_from(lists, k + 1)
    }
}

/// Every choice of one element per list, in lexicographic order of choice
/// indices, for the lists from index `k` on.
pub open spec fn combos_from(lists: Seq<Seq<u8>>, k: int) -> Seq<Seq<u8>>
    decreases lists.len() - k,
{
    if k >= lists.len() || k < 0 {
        seq![Seq::<u8>::empty()]
    } else {
        spread(lists[k], combos_from(lists, k + 1))
    }
}

/// Each head in turn prepended to every tail.
pub open spec fn spread(heads: Seq<u8>, tails: Seq<Seq<u8>>) -> Seq<Seq<u8>>
    decreases heads.len(),
{
    if heads.len() == 0 {
        Seq::empty()
    } else {
        spread(heads.drop_last(), tails) + tails.map_values(
            |t: Seq<u8>| seq![heads.last()] + t,
        )
    }
}

/// Why key recovery failed.
#[derive(Debug, Clone, Copy, PartialEq, Eq, Structural)]
pub enum TrojanError {
    /// No encrypted `.ldb` table was found to sample.
    NoEncryptedSample,
    /// No anchor fits the sample.
    NoAnchorMatched,
    /// No fragment reaches the given key position.
    NoVotesForByte(usize),
    /// The candidates number more than a million (the count, saturated at `u64::MAX`).
    TooManyKeyCandidates(u64),
    /// No candidate decrypts the sample to a well-formed table.
    AllKeysFailed,
}

impl TrojanError {
    /// A human readable description of the error.
    pub fn message(&self) -> (r: &'static str)
        ensures
            r@ == match self {
                TrojanError::NoEncryptedSample => "no encrypted .ldb file to sample"@,
                TrojanError::NoAnchorMatched => "no anchor matched the sample"@,
                TrojanError::NoVotesForByte(_) => "no votes for a key byte"@,
                TrojanError::TooManyKeyCandidates(_) => "too many key candidates"@,
                TrojanError::AllKeysFailed => "every key candidate failed verification"@,
            },
    {
        match self {
            TrojanError::NoEncryptedSample => "no encrypted .ldb file to sample",
            TrojanError::NoAnchorMatched => "no anchor matched the sample",
            TrojanError::NoVotesForByte(_) => "no votes for a key byte",
            TrojanError::TooManyKeyCandidates(_) => "too many key candidates",
            TrojanError::AllKeysFailed => "every key candidate failed verification",
        }
    }
}

pub open spec fn candidate_limit() -> nat {
    1_000_000
}

pub open spec fn saturate(n: nat) -> u64 {
    if n > u64::MAX {
        u64::MAX
    } else {
        n as u64
    }
}

/// What `generate_candidates` gives for `frags`.
pub open spec fn spec_candidates(frags: Seq<Seq<u8>>) -> Result<Seq<Seq<u8>>, TrojanError> {
    match first_uncovered_below(frags, 8) {
        Some(i) => Err(TrojanError::NoVotesForByte(i as usize)),
        None => {
            let lists = position_candidates(frags);
            if product_from(lists, 0) > candidate_limit() {
                Err(TrojanError::TooManyKeyCandidates(saturate(product_from(lists, 0))))
            } else {
                Ok(combos_from(lists, 0))
            }
        },
    }
}

pub open spec fn keys_view(keys: Seq<[u8; 8]>) -> Seq<Seq<u8>> {
    keys.map_values(|k: [u8; 8]| k@)
}


pub open spec fn frags_view(v: Seq<Vec<u8>>) -> Seq<Seq<u8>> {
    v.map_values(|f: Vec<u8>| f@)
}

proof fn lemma_votes_bound(frags: Seq<Seq<u8>>, i: int, b: int)
    ensures
        votes(frags, i, b) <= frags.len(),
    decreases frags.len(),
{
    if frags.len() > 0 {
        lemma_votes_bound(frags.drop_last(), i, b);
    }
}

proof fn lemma_top_below_len(frags: Seq<Seq<u8>>, i: int, b: int)
    ensures
        top_below(frags, i, b).len() <= if b < 0 {
            0
        } else {
            b
        },
    decreases b,
{
    if b > 0 {
        lemma_top_below_len(frags, i, b - 1);
    }
}

spec fn pow256(k: nat) -> nat
    decreases k,
{
    if k == 0 {
        1
    } else {
        256 * pow256((k - 1) as nat)
    }
}

proof fn lemma_pow256_le(k: nat)
    requires
        k <= 8,
    ensures
        pow256(k) <= 0x1_0000_0000_0000_0000,
        k < 8 ==> 256 * pow256(k) <= 0x1_0000_0000_0000_0000,
{
    reveal_with_fuel(pow256, 9);
    assert(pow256(8) == 0x1_0000_0000_0000_0000);
}

proof fn lemma_product_bound(lists: Seq<Seq<u8>>, k: int)
    requires
        0 <= k <= lists.len(),
        forall|t: int| 0 <= t < lists.len() ==> #[trigger] lists[t].len() <= 256,
    ensures
        product_from(lists, k) <= pow256((lists.len() - k) as nat),
    decreases lists.len() - k,
{
    if k < lists.len() {
        lemma_product_bound(lists, k + 1);
        let p = product_from(lists, k + 1);
        let q = pow256((lists.len() - k - 1) as nat);
        let l = lists[k].len();
        assert(l * p <= 256 * q) by (nonlinear_arith)
            requires
                l <= 256,
                p <= q,
        ;
    }
}

/// Counts, for each byte value, the fragments holding it at position `i`.
fn vote_counts(frags: &[Vec<u8>], i: usize) -> (counts: Vec<u64>)
    ensures
        counts@.len() == 256,
        forall|b: int| 0 <= b < 256 ==> #[trigger] counts@[b] == votes(frags_view(frags@), i as int, b),
{
    let ghost fv = frags_view(frags@);
    let mut counts: Vec<u64> = vec![0u64; 256];
    let mut j: usize = 0;
    while j < frags.len()
        invariant
            0 <= j <= frags@.len(),
            fv == frags_view(frags@),
            counts@.len() == 256,
            forall|b: int| 0 <= b < 256 ==> #[trigger] counts@[b] == votes(fv.take(j as int), i as int, b),
        decreases frags@.len() - j,
    {
        assert(fv.take(j + 1).drop_last() =~= fv.take(j as int));
        assert(fv.take(j + 1).last() == frags@[j as int]@);
        if frags[j].len() > i {
            let b = frags[j][i];
            proof {
                lemma_votes_bound(fv.take(j as int), i as int, b as int);
            }
            let c = counts[b as usize];
            counts.set(b as usize, c + 1);
        }
        j = j + 1;
    }
    assert(fv.take(frags@.len() as int) =~= fv);
    counts
}

/// The candidate bytes of position `i`, or `None` when no fragment reaches it.
fn top_candidates(frags: &[Vec<u8>], i: usize) -> (r: Option<Vec<u8>>)
    ensures
        match r {
            Some(v) => covered(frags_view(frags@), i as int) && v@ == top_bytes(
                frags_view(frags@),
                i as int,
            ),
            None => !covered(frags_view(frags@), i as int),
        },
{
    let ghost fv = frags_view(frags@);
    let mut any = false;
    let mut j: usize = 0;
    while j < frags.len()
        invariant
            0 <= j <= frags@.len(),
            fv == frags_view(frags@),
            any == (exists|t: int| 0 <= t < j && #[trigger] fv[t].len() > i),
        decreases frags@.len() - j,
    {
        if frags[j].len() > i {
            any = true;
            assert(fv[j as int].len() > i);
        }
        j = j + 1;
    }
    if !any {
        return None;
    }
    let counts = vote_counts(frags, i);
    let mut m: u64 = 0;
    let mut b: usize = 0;
    while b < 256
        invariant
            0 <= b <= 256,
            counts@.len() == 256,
            forall|c: int| 0 <= c < 256 ==> #[trigger] counts@[c] == votes(fv, i as int, c),
            m == max_votes_below(fv, i as int, b as int),
        decreases 256 - b,
    {
        if counts[b] > m {
            m = counts[b];
        }
        b = b + 1;
    }
    let mut top: Vec<u8> = Vec::new();
    let mut c: usize = 0;
    while c < 256
        invariant
            0 <= c <= 256,
            counts@.len() == 256,
            forall|d: int| 0 <= d < 256 ==> #[trigger] counts@[d] == votes(fv, i as int, d),
            m == max_votes(fv, i as int),
            top@ == top_below(fv, i as int, c as int),
        decreases 256 - c,
    {
        if counts[c] > 0 && counts[c] == m {
            top.push(c as u8);
        }
        c = c + 1;
    }
    Some(top)
}

proof fn lemma_map_concat(a: Seq<Seq<u8>>, b: Seq<Seq<u8>>, prefix: Seq<u8>)
    ensures
        (a + b).map_values(|t: Seq<u8>| prefix + t) == a.map_values(|t: Seq<u8>| prefix + t)
            + b.map_values(|t: Seq<u8>| prefix + t),
{
    assert((a + b).map_values(|t: Seq<u8>| prefix + t) =~= a.map_values(|t: Seq<u8>| prefix + t)
        + b.map_values(|t: Seq<u8>| prefix + t));
}

proof fn lemma_map_prepend(tails: Seq<Seq<u8>>, prefix: Seq<u8>, h: u8)
    ensures
        tails.map_values(|t: Seq<u8>| seq![h] + t).map_values(|t: Seq<u8>| prefix + t)
            == tails.map_values(|t: Seq<u8>| prefix.push(h) + t),
{
    assert forall|j: int| 0 <= j < tails.len() implies (prefix + (seq![h] + tails[j])) =~= (
    prefix.push(h) + tails[j]) by {}
    assert(tails.map_values(|t: Seq<u8>| seq![h] + t).map_values(|t: Seq<u8>| prefix + t)
        =~= tails.map_values(|t: Seq<u8>| prefix.push(h) + t));
}

/// Appends every key that extends `current[..idx]` by one choice per list from `idx` on.
fn generate_keys(
    idx: usize,
    lists: &Vec<Vec<u8>>,
    current: &mut [u8; 8],
    result: &mut Vec<[u8; 8]>,
)
    requires
        idx <= 8,
        lists@.len() == 8,
    ensures
        final(current)@.take(idx as int) == old(current)@.take(idx as int),
        keys_view(final(result)@) == keys_view(old(result)@) + combos_from(
            frags_view(lists@),
            idx as int,
        ).map_values(|t: Seq<u8>| old(current)@.take(idx as int) + t),
    decreases 8 - idx,
{
    let ghost lv = frags_view(lists@);
    let ghost prefix = current@.take(idx as int);
    if idx == 8 {
        let ghost r0 = result@;
        result.push(*current);
        assert(keys_view(result@) =~= keys_view(r0).push(current@));
        assert(combos_from(lv, 8) == seq![Seq::<u8>::empty()]);
        assert(current@.take(8) =~= current@);
        assert(combos_from(lv, 8).map_values(|t: Seq<u8>| prefix + t) =~= seq![current@]);
        return ;
    }
    let ghost r0 = keys_view(result@);
    let ghost tails = combos_from(lv, idx + 1);
    let n = lists[idx].len();
    let mut j: usize = 0;
    assert(spread(lv[idx as int].take(0), tails) =~= Seq::<Seq<u8>>::empty());
    assert(keys_view(result@) =~= r0 + Seq::<Seq<u8>>::empty().map_values(
        |t: Seq<u8>| prefix + t,
    ));
    while j < n
        invariant
            idx < 8,
            lists@.len() == 8,
            lv == frags_view(lists@),
            n == lv[idx as int].len(),
            0 <= j <= n,
            current@.take(idx as int) == prefix,
            tails == combos_from(lv, idx + 1),
            keys_view(result@) == r0 + spread(lv[idx as int].take(j as int), tails).map_values(
                |t: Seq<u8>| prefix + t,
            ),
        decreases n - j,
    {
        let h = lists[idx][j];
        current[idx] = h;
        assert(current@.take(idx + 1) =~= prefix.push(h));
        let ghost before = keys_view(result@);
        generate_keys(idx + 1, lists, current, result);
        proof {
            let heads = lv[idx as int].take(j + 1);
            assert(heads.drop_last() =~= lv[idx as int].take(j as int));
            assert(heads.last() == h);
            let part = tails.map_values(|t: Seq<u8>| seq![h] + t);
            assert(spread(heads, tails) == spread(lv[idx as int].take(j as int), tails) + part);
            lemma_map_concat(spread(lv[idx as int].take(j as int), tails), part, prefix);
            lemma_map_prepend(tails, prefix, h);
            assert(current@.take(idx as int) =~= current@.take(idx + 1).take(idx as int));
        }
        j = j + 1;
    }
    assert(lv[idx as int].take(n as int) =~= lv[idx as int]);
}

proof fn lemma_first_uncovered_stable(frags: Seq<Seq<u8>>, n: int, m: int)
    requires
        n <= m,
        first_uncovered_below(frags, n) is Some,
    ensures
        first_uncovered_below(frags, m) == first_uncovered_below(frags, n),
    decreases m - n,
{
    if n < m {
        lemma_first_uncovered_stable(frags, n, m - 1);
    }
}


// ---------------------------------------------------------------------------
// Recovering a key from a sample table
// ---------------------------------------------------------------------------
/// `key` decrypts `data` to a payload of at least eight bytes that ends with the anchor tail.
pub open spec fn key_fits_ldb(data: Seq<u8>, key: Seq<u8>) -> bool {
    match spec_decrypt(data, key) {
        Some(p) => p.len() >= 8 && p.subrange(p.len() - 8, p.len() as int) == anchor_tail(),
        None => false,
    }
}

/// The first of `keys` that fits `data`.
pub open spec fn first_fitting(keys: Seq<Seq<u8>>, data: Seq<u8>) -> Option<Seq<u8>>
    decreases keys.len(),
{
    if keys.len() == 0 {
        None
    } else if key_fits_ldb(data, keys[0]) {
        Some(keys[0])
    } else {
        first_fitting(keys.drop_first(), data)
    }
}

/// What `EaseTrojan::derive_key` gives for a sample table.
pub open spec fn spec_trojan_key(anchors: Seq<(int, Seq<u8>)>, data: Seq<u8>) -> Result<
    Seq<u8>,
    TrojanError,
> {
    let frags = spec_fragments(anchors, data);
    if frags.len() == 0 {
        Err(TrojanError::NoAnchorMatched)
    } else {
        match spec_candidates(frags) {
            Err(e) => Err(e),
            Ok(keys) => match first_fitting(keys, data) {
                Some(k) => Ok(k),
                None => Err(TrojanError::AllKeysFailed),
            },
        }
    }
}

/// Why a key did not fit a sample table.
#[derive(Debug, Clone, Copy, PartialEq, Eq, Structural)]
pub enum KeyCheckError {
    /// The sample does not carry the encryption magic.
    DecryptFailed,
    /// The decrypted payload is shorter than eight bytes.
    TooShort,
    /// The decrypted payload does not end with the anchor tail.
    TailMismatch,
}

/// Checks that `key` decrypts the encrypted table `data` to a payload ending
/// with the anchor tail.
pub fn verify_ldb_key(data: &[u8], key: &[u8; 8]) -> (r: Result<(), KeyCheckError>)
    ensures
        r is Ok <==> key_fits_ldb(data@, key@),
        r == Err::<(), KeyCheckError>(KeyCheckError::DecryptFailed) <==> spec_decrypt(
            data@,
            key@,
        ) is None,
        r == Err::<(), KeyCheckError>(KeyCheckError::TooShort) <==> (spec_decrypt(
            data@,
            key@,
        ) matches Some(p) && p.len() < 8),
{
    let dec = match decrypt_data(data, key) {
        Ok(d) => d,
        Err(_) => {
            return Err(KeyCheckError::DecryptFailed);
        },
    };
    if dec.len() < 8 {
        return Err(KeyCheckError::TooShort);
    }
    if ends_with_anchor_tail(&dec) {
        Ok(())
    } else {
        Err(KeyCheckError::TailMismatch)
    }
}

/// Whether `data` holds at least eight bytes and ends with the anchor tail.
pub fn ends_with_anchor_tail(data: &[u8]) -> (r: bool)
    ensures
        r == (data@.len() >= 8 && data@.subrange(data@.len() - 8, data@.len() as int)
            == anchor_tail()),
{
    let n = data.len();
    if n < 8 {
        return false;
    }
    let magic: [u8; 8] = [0x57, 0xFB, 0x80, 0x8B, 0x24, 0x75, 0x47, 0xDB];
    assert(magic@ =~= anchor_tail());
    let mut i: usize = 0;
    while i < 8
        invariant
            0 <= i <= 8,
            n == data@.len(),
            n >= 8,
            magic@ == anchor_tail(),
            forall|t: int| 0 <= t < i ==> #[trigger] data@[n - 8 + t] == magic@[t],
        decreases 8 - i,
    {
        if data[n - 8 + i] != magic[i] {
            assert(data@.subrange(n - 8, n as int)[i as int] != anchor_tail()[i as int]);
            return false;
        }
        i = i + 1;
    }
    assert forall|t: int| 0 <= t < 8 implies #[trigger] data@.subrange(n - 8, n as int)[t]
        == anchor_tail()[t] by {
        assert(data@[n - 8 + t] == magic@[t]);
    }
    assert(data@.subrange(n - 8, n as int) =~= anchor_tail());
    true
}

impl EaseTrojan {
    /// The bytes of `data` under an anchor at `offset` of length `len`.
    pub fn extract_bytes(data: &[u8], offset: isize, len: usize) -> (r: Option<&[u8]>)
        ensures
            match anchor_window(data@, offset as int, len as int) {
                Some(m) => r matches Some(s) && s@ == m,
                None => r is None,
            },
    {
        if data.len() < len {
            return None;
        }
        let start: i128 = if offset < 0 {
            data.len() as i128 + offset as i128
        } else {
            offset as i128
        };
        if start < 0 || start + len as i128 > data.len() as i128 {
            return None;
        }
        let s = start as usize;
        Some(&data[s..s + len])
    }

    /// Builds every key that the fragments' votes allow, in lexicographic order of
    /// the candidate bytes; refuses when some key position has no vote or when
    /// there are more than a million keys.
    pub fn generate_candidates(fragments: &[Vec<u8>]) -> (r: Result<Vec<[u8; 8]>, TrojanError>)
        ensures
            match spec_candidates(frags_view(fragments@)) {
                Ok(ks) => r matches Ok(v) && keys_view(v@) == ks,
                Err(e) => r == Err::<Vec<[u8; 8]>, TrojanError>(e),
            },
    {
        let ghost fv = frags_view(fragments@);
        let mut lists: Vec<Vec<u8>> = Vec::new();
        let mut i: usize = 0;
        while i < 8
            invariant
                0 <= i <= 8,
                fv == frags_view(fragments@),
                lists@.len() == i,
                first_uncovered_below(fv, i as int) is None,
                forall|t: int| 0 <= t < i ==> #[trigger] lists@[t]@ == top_bytes(fv, t),
            decreases 8 - i,
        {
            match top_candidates(fragments, i) {
                Some(top) => {
                    lists.push(top);
                },
                None => {
                    assert(first_uncovered_below(fv, i + 1) == Some(i as int));
                    proof {
                        lemma_first_uncovered_stable(fv, i + 1, 8);
                    }
                    return Err(TrojanError::NoVotesForByte(i));
                },
            }
            i = i + 1;
        }
        let ghost lv = frags_view(lists@);
        assert(lv =~= position_candidates(fv));
        proof {
            assert forall|t: int| 0 <= t < lv.len() implies #[trigger] lv[t].len() <= 256 by {
                lemma_top_below_len(fv, t, 256);
            }
        }
        let mut total: u128 = 1;
        let mut k: usize = 8;
        while k > 0
            invariant
                0 <= k <= 8,
                lists@.len() == 8,
                lv == frags_view(lists@),
                forall|t: int| 0 <= t < lv.len() ==> #[trigger] lv[t].len() <= 256,
                total == product_from(lv, k as int),
            decreases k,
        {
            proof {
                lemma_product_bound(lv, k as int);
                lemma_pow256_le((8 - k) as nat);
            }
            let l = lists[k - 1].len() as u128;
            assert(lv[k - 1] == lists@[k - 1]@);
            assert(lv[k - 1].len() <= 256);
            assert(l * total <= 256 * pow256((8 - k) as nat)) by (nonlinear_arith)
                requires
                    l <= 256,
                    total <= pow256((8 - k) as nat),
            ;
            total = l * total;
            k = k - 1;
        }
        if total > 1_000_000 {
            let count: u64 = if total > 0xFFFF_FFFF_FFFF_FFFF {
                0xFFFF_FFFF_FFFF_FFFF
            } else {
                total as u64
            };
            return Err(TrojanError::TooManyKeyCandidates(count));
        }
        let mut keys: Vec<[u8; 8]> = Vec::new();
        let mut current = [0u8; 8];
        generate_keys(0, &lists, &mut current, &mut keys);
        assert(keys_view(keys@) =~= combos_from(lv, 0)) by {
            assert(Seq::<[u8; 8]>::empty().map_values(|k: [u8; 8]| k@) =~= Seq::<Seq<u8>>::empty());
            assert forall|t: int| 0 <= t < combos_from(lv, 0).len() implies #[trigger] (
            current@.take(0) + combos_from(lv, 0)[t]) == combos_from(lv, 0)[t] by {
                assert(current@.take(0) + combos_from(lv, 0)[t] =~= combos_from(lv, 0)[t]);
            }
        }
        Ok(keys)
    }

    /// The recovery engine with its three anchors: the anchor tail eight bytes
    /// from the end, a 0x0A at offset 8 and a 0x00 at offset 0.
    pub fn new() -> (t: Self)
        ensures
            t@ == trojan_anchors(),
    {
        let tail: Vec<u8> = vec![0x57, 0xFB, 0x80, 0x8B, 0x24, 0x75, 0x47, 0xDB];
        assert(tail@ =~= anchor_tail());
        let nl: Vec<u8> = vec![0x0A];
        let zero: Vec<u8> = vec![0x00];
        assert(nl@ =~= seq![0x0Au8]);
        assert(zero@ =~= seq![0x00u8]);
        let anchors = vec![
            Anchor { offset: -8, plaintext: tail },
            Anchor { offset: 8, plaintext: nl },
            Anchor { offset: 0, plaintext: zero },
        ];
        let t = EaseTrojan { anchors };
        assert(t.anchors@.len() == 3);
        assert(t@[0] == trojan_anchors()[0]);
        assert(t@[1] == trojan_anchors()[1]);
        assert(t@[2] == trojan_anchors()[2]);
        assert(t@ =~= trojan_anchors());
        t
    }

    /// The index of the encrypted file to sample: the first one named `*.ldb`.
    pub fn sample_file(encrypted: &[String]) -> (r: Result<usize, TrojanError>)
        ensures
            match r {
                Ok(i) => i < encrypted@.len() && is_ldb_name(encrypted@[i as int]@) && forall|j: int|
                    0 <= j < i ==> !is_ldb_name(#[trigger] encrypted@[j]@),
                Err(e) => e == TrojanError::NoEncryptedSample && forall|j: int|
                    0 <= j < encrypted@.len() ==> !is_ldb_name(#[trigger] encrypted@[j]@),
            },
    {
        match first_ldb_name(encrypted) {
            Some(i) => Ok(i),
            None => Err(TrojanError::NoEncryptedSample),
        }
    }

    /// The key fragments that the anchors yield on `data`, in anchor order.
    pub fn collect_fragments(&self, data: &[u8]) -> (r: Vec<Vec<u8>>)
        ensures
            frags_view(r@) == spec_fragments(self@, data@),
    {
        let mut frags: Vec<Vec<u8>> = Vec::new();
        let mut a: usize = 0;
        while a < self.anchors.len()
            invariant
                0 <= a <= self.anchors@.len(),
                frags_view(frags@) == fragments_upto(self@, data@, a as int),
            decreases self.anchors@.len() - a,
        {
            let anchor = &self.anchors[a];
            assert(self@[a as int] == anchor.model());
            let ghost before = frags@;
            match EaseTrojan::extract_bytes(data, anchor.offset, anchor.plaintext.len()) {
                Some(matched) => {
                    let mut part: Vec<u8> = Vec::new();
                    let mut i: usize = 0;
                    while i < anchor.plaintext.len()
                        invariant
                            0 <= i <= anchor.plaintext@.len(),
                            matched@.len() == anchor.plaintext@.len(),
                            part@ =~= Seq::new(
                                i as nat,
                                |t: int| anchor.plaintext@[t] ^ matched@[t],
                            ),
                        decreases anchor.plaintext@.len() - i,
                    {
                        part.push(anchor.plaintext[i] ^ matched[i]);
                        i = i + 1;
                    }
                    frags.push(part);
                    assert(frags_view(frags@) =~= frags_view(before).push(part@));
                },
                None => {},
            }
            a = a + 1;
        }
        frags
    }

    /// Recovers the key of an encrypted `.ldb` table from its bytes: collects
    /// the anchors' fragments, builds the voted candidate keys and returns the
    /// first one under which the table decrypts to a well-formed tail.
    pub fn derive_key(&self, sample: &[u8]) -> (r: Result<[u8; 8], TrojanError>)
        ensures
            match spec_trojan_key(self@, sample@) {
                Ok(k) => r matches Ok(key) && key@ == k,
                Err(e) => r == Err::<[u8; 8], TrojanError>(e),
            },
    {
        let fragments = self.collect_fragments(sample);
        if fragments.len() == 0 {
            return Err(TrojanError::NoAnchorMatched);
        }
        let candidates = match EaseTrojan::generate_candidates(fragments.as_slice()) {
            Ok(c) => c,
            Err(e) => {
                return Err(e);
            },
        };
        let ghost keys = keys_view(candidates@);
        let mut j: usize = 0;
        assert(keys.skip(0) =~= keys);
        while j < candidates.len()
            invariant
                0 <= j <= candidates@.len(),
                keys == keys_view(candidates@),
                frags_view(fragments@) == spec_fragments(self@, sample@),
                fragments@.len() > 0,
                spec_candidates(frags_view(fragments@)) == Ok::<Seq<Seq<u8>>, TrojanError>(keys),
                first_fitting(keys, sample@) == first_fitting(keys.skip(j as int), sample@),
            decreases candidates@.len() - j,
        {
            let key = candidates[j];
            assert(keys.skip(j as int)[0] == key@);
            assert(keys.skip(j as int).drop_first() =~= keys.skip(j + 1));
            if verify_ldb_key(sample, &key).is_ok() {
                assert(key_fits_ldb(sample@, keys.skip(j as int)[0]));
                assert(first_fitting(keys.skip(j as int), sample@) == Some(key@));
                return Ok(key);
            }
            j = j + 1;
        }
        Err(TrojanError::AllKeysFailed)
    }
}

/// The key that `derive_key` returns decrypts the sample to a table that ends
/// with the LevelDB table magic (the one the table sanity check expects), and
/// it is one of the voted candidates.
pub proof fn law_trojan_key_fits(anchors: Seq<(int, Seq<u8>)>, data: Seq<u8>)
    ensures
        spec_trojan_key(anchors, data) matches Ok(k) ==> (key_fits_ldb(data, k) && (spec_candidates(
            spec_fragments(anchors, data),
        ) matches Ok(keys) && keys.contains(k))),
        spec_trojan_key(anchors, data) matches Ok(k) ==> (spec_decrypt(data, k) matches Some(p)
            && ends_with_bytes(p, table_magic())),
{
    assert(anchor_tail() =~= table_magic());
    let frags = spec_fragments(anchors, data);
    if frags.len() > 0 {
        if let Ok(keys) = spec_candidates(frags) {
            lemma_first_fitting(keys, data);
        }
    }
}

/// Every candidate is tried, in order: when the anchors yield fragments and
/// the votes give a candidate list, the recovered key is the first candidate
/// that decrypts the sample to a table ending with the table magic, and
/// recovery fails with `AllKeysFailed` exactly when no candidate does.
pub proof fn law_trojan_first_fitting_candidate(anchors: Seq<(int, Seq<u8>)>, data: Seq<u8>, keys: Seq<Seq<u8>>)
    requires
        spec_fragments(anchors, data).len() > 0,
        spec_candidates(spec_fragments(anchors, data)) == Ok::<Seq<Seq<u8>>, TrojanError>(keys),
    ensures
        (forall|j: int| 0 <= j < keys.len() ==> !key_fits_ldb(data, #[trigger] keys[j]))
            <==> spec_trojan_key(anchors, data) == Err::<Seq<u8>, TrojanError>(TrojanError::AllKeysFailed),
        forall|j: int|
            0 <= j < keys.len() && key_fits_ldb(data, #[trigger] keys[j]) && (forall|i: int|
                0 <= i < j ==> !key_fits_ldb(data, #[trigger] keys[i])) ==> spec_trojan_key(anchors, data)
                == Ok::<Seq<u8>, TrojanError>(keys[j]),
{
    lemma_first_fitting_least(keys, data);
    assert forall|j: int|
        0 <= j < keys.len() && key_fits_ldb(data, #[trigger] keys[j]) && (forall|i: int|
            0 <= i < j ==> !key_fits_ldb(data, #[trigger] keys[i])) implies spec_trojan_key(anchors, data)
            == Ok::<Seq<u8>, TrojanError>(keys[j]) by {
        lemma_first_fitting_at(keys, data, j);
    }
}

/// When no key before `j` fits and `keys[j]` fits, the first fitting key is `keys[j]`.
proof fn lemma_first_fitting_at(keys: Seq<Seq<u8>>, data: Seq<u8>, j: int)
    requires
        0 <= j < keys.len(),
        key_fits_ldb(data, keys[j]),
        forall|i: int| 0 <= i < j ==> !key_fits_ldb(data, #[trigger] keys[i]),
    ensures
        first_fitting(keys, data) == Some(keys[j]),
    decreases j,
{
    if j > 0 {
        let rest = keys.drop_first();
        assert(!key_fits_ldb(data, keys[0]));
        assert forall|i: int| 0 <= i < j - 1 implies !key_fits_ldb(data, #[trigger] rest[i]) by {
            assert(rest[i] == keys[i + 1]);
        }
        lemma_first_fitting_at(rest, data, j - 1);
    }
}

/// No key fits exactly when there is no first fitting key.
proof fn lemma_first_fitting_least(keys: Seq<Seq<u8>>, data: Seq<u8>)
    ensures
        first_fitting(keys, data) is None <==> (forall|j: int|
            0 <= j < keys.len() ==> !key_fits_ldb(data, #[trigger] keys[j])),
    decreases keys.len(),
{
    if keys.len() > 0 {
        let rest = keys.drop_first();
        lemma_first_fitting_least(rest, data);
        if !key_fits_ldb(data, keys[0]) {
            if first_fitting(rest, data) is None {
                assert forall|j: int| 0 <= j < keys.len() implies !key_fits_ldb(data, #[trigger] keys[j]) by {
                    if j > 0 {
                        assert(keys[j] == rest[j - 1]);
                    }
                }
            } else {
                let j = choose|j: int| 0 <= j < rest.len() && key_fits_ldb(data, #[trigger] rest[j]);
                assert(keys[j + 1] == rest[j]);
            }
        }
    }
}

proof fn lemma_first_fitting(keys: Seq<Seq<u8>>, data: Seq<u8>)
    ensures
        first_fitting(keys, data) matches Some(k) ==> key_fits_ldb(data, k) && keys.contains(k),
    decreases keys.len(),
{
    if keys.len() > 0 {
        lemma_first_fitting(keys.drop_first(), data);
        if !key_fits_ldb(data, keys[0]) {
            if let Some(k) = first_fitting(keys.drop_first(), data) {
                let t = choose|t: int| 0 <= t < keys.drop_first().len() && keys.drop_first()[t] == k;
                assert(keys[t + 1] == k);
            }
        } else {
            assert(keys[0] == keys[0]);
        }
    }
}

} // verus!
