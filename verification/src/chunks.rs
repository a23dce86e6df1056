//! Chunk discovery in the unencrypted LevelDB tables of a world.
//!
//! Plain `.ldb` tables are scanned record by record for keys that name a
//! chunk; chunks next to known plain chunks that are not plain themselves are
//! reported as the chunks that encryption hides.
use std::collections::HashSet;
use vstd::arithmetic::div_mod::lemma_fundamental_div_mod_converse;
use vstd::seq_lib::seq_to_set_distributes_over_add;
use vstd::prelude::*;

verus! {

broadcast use vstd::std_specs::hash::group_hash_axioms;

/// Position of a chunk: its coordinates and its dimension
/// (0 the overworld, 1 the nether, 2 the end).
#[derive(Debug, Clone, Copy, PartialEq, Eq, Hash, Structural)]
pub struct ChunkPos {
    pub x: i32,
    pub z: i32,
    pub dim: i32,
}

// ---------------------------------------------------------------------------
// Base-128 varints
// ---------------------------------------------------------------------------
pub open spec fn pow128(k: nat) -> nat
    decreases k,
{
    if k == 0 {
        1
    } else {
        128 * pow128((k - 1) as nat)
    }
}

/// Length of the varint at the start of `data`, looking at most at five bytes;
/// `None` when no terminating byte (below 0x80) comes within them.
pub open spec fn varint_end(data: Seq<u8>, i: int) -> Option<int>
    decreases 5 - i,
{
    if i < 0 || i >= 5 || i >= data.len() {
        None
    } else if data[i] < 0x80 {
        Some(i + 1)
    } else {
        varint_end(data, i + 1)
    }
}

/// The little-endian base-128 number held by the low seven bits of the first `n` bytes.
pub open spec fn varint_sum(data: Seq<u8>, n: nat) -> nat
    decreases n,
{
    if n == 0 {
        0
    } else {
        varint_sum(data, (n - 1) as nat) + (data[n - 1] % 128) as nat * pow128((n - 1) as nat)
    }
}

/// The decoded varint at the start of `data`: its value truncated to 32 bits
/// and the number of bytes it takes.
pub open spec fn spec_decode_varint32(data: Seq<u8>) -> Option<(u32, int)> {
    match varint_end(data, 0) {
        Some(n) => Some(((varint_sum(data, n as nat) % 0x1_0000_0000) as u32, n)),
        None => None,
    }
}

pub proof fn lemma_varint_end_bounds(data: Seq<u8>, i: int)
    requires
        0 <= i,
    ensures
        varint_end(data, i) matches Some(n) ==> i < n <= data.len() && n <= 5,
    decreases 5 - i,
{
    if 0 <= i < 5 && i < data.len() && data[i] >= 0x80 {
        lemma_varint_end_bounds(data, i + 1);
    }
}

proof fn lemma_varint_sum_bound(data: Seq<u8>, n: nat)
    ensures
        varint_sum(data, n) < pow128(n),
    decreases n,
{
    if n > 0 {
        lemma_varint_sum_bound(data, (n - 1) as nat);
        let d = (data[n - 1] % 128) as nat;
        let p = pow128((n - 1) as nat);
        assert(d * p <= 127 * p) by (nonlinear_arith)
            requires
                d <= 127,
        ;
    }
}

proof fn lemma_pow128_small()
    ensures
        pow128(0) == 1,
        pow128(1) == 128,
        pow128(2) == 0x4000,
        pow128(3) == 0x20_0000,
        pow128(4) == 0x1000_0000,
{
    reveal_with_fuel(pow128, 5);
}

/// Decodes a little-endian base-128 integer of at most five bytes, returning
/// its value (truncated to 32 bits) and its length.
pub fn decode_varint32(data: &[u8]) -> (r: Option<(u32, usize)>)
    ensures
        match spec_decode_varint32(data@) {
            Some((v, n)) => r == Some((v, n as usize)),
            None => r is None,
        },
{
    let mut value: u64 = 0;
    let mut mult: u64 = 1;
    let mut i: usize = 0;
    while i < data.len() && i < 5
        invariant
            0 <= i <= 5,
            i <= data@.len(),
            value == varint_sum(data@, i as nat),
            i < 5 ==> mult == pow128(i as nat),
            mult <= 0x1000_0000,
            varint_end(data@, 0) == varint_end(data@, i as int),
        decreases 5 - i,
    {
        proof {
            lemma_varint_sum_bound(data@, i as nat);
            lemma_pow128_small();
        }
        let byte = data[i];
        let digit = (byte % 128) as u64;
        assert(digit * mult <= 127 * 0x1000_0000) by (nonlinear_arith)
            requires
                digit <= 127,
                mult <= 0x1000_0000,
        ;
        value = value + digit * mult;
        if byte < 0x80 {
            proof {
                assert(varint_end(data@, i as int) == Some(i + 1));
            }
            let v32 = (value % 0x1_0000_0000) as u32;
            return Some((v32, i + 1));
        }
        if i < 4 {
            mult = mult * 128;
        }
        i = i + 1;
    }
    None
}

// ---------------------------------------------------------------------------
// Chunk keys
// ---------------------------------------------------------------------------
/// The little-endian signed 32-bit integer held by `b[at..at + 4]`.
pub open spec fn le_i32(b: Seq<u8>, at: int) -> int {
    let u = b[at] + b[at + 1] * 0x100 + b[at + 2] * 0x10000 + b[at + 3] * 0x1000000;
    if u >= 0x8000_0000 {
        u - 0x1_0000_0000
    } else {
        u
    }
}

/// Tags of the records that belong to a chunk.
pub open spec fn is_chunk_tag(tag: u8) -> bool {
    (0x2D <= tag && tag <= 0x41) || tag == 0x76 || tag == 0x77
}

/// The chunk that a database key names, if it names one: x and z come first,
/// then, for keys of at least 13 bytes, the dimension (0, 1 or 2), then the tag.
pub open spec fn spec_chunk_key(key: Seq<u8>) -> Option<ChunkPos> {
    if key.len() < 9 {
        None
    } else if key.len() >= 13 {
        let d = le_i32(key, 8);
        if d < 0 || d > 2 || !is_chunk_tag(key[12]) {
            None
        } else {
            Some(ChunkPos { x: le_i32(key, 0) as i32, z: le_i32(key, 4) as i32, dim: d as i32 })
        }
    } else if !is_chunk_tag(key[8]) {
        None
    } else {
        Some(ChunkPos { x: le_i32(key, 0) as i32, z: le_i32(key, 4) as i32, dim: 0 })
    }
}

/// Which keys name a chunk: a key of at least 13 bytes names (x, z, d) when
/// bytes 8..12 hold a dimension d of 0, 1 or 2 and byte 12 is a chunk tag,
/// whatever bytes follow; a key of 9 to 12 bytes names (x, z, 0) when byte 8 is
/// a chunk tag; no other key names a chunk. x and z are the little-endian
/// integers of bytes 0..4 and 4..8.
pub proof fn law_chunk_keys(key: Seq<u8>)
    ensures
        key.len() >= 13 && 0 <= le_i32(key, 8) <= 2 && is_chunk_tag(key[12]) ==> spec_chunk_key(key)
            == Some(ChunkPos { x: le_i32(key, 0) as i32, z: le_i32(key, 4) as i32, dim: le_i32(key, 8) as i32 }),
        9 <= key.len() < 13 && is_chunk_tag(key[8]) ==> spec_chunk_key(key) == Some(
            ChunkPos { x: le_i32(key, 0) as i32, z: le_i32(key, 4) as i32, dim: 0 },
        ),
        spec_chunk_key(key) is Some ==> (key.len() >= 13 && 0 <= le_i32(key, 8) <= 2 && is_chunk_tag(key[12]))
            || (9 <= key.len() < 13 && is_chunk_tag(key[8])),
        spec_chunk_key(key) matches Some(p) ==> p.x == le_i32(key, 0) && p.z == le_i32(key, 4)
            && 0 <= p.dim <= 2,
{
}

fn read_le_i32(b: &[u8], at: usize) -> (r: i32)
    requires
        at + 4 <= b@.len(),
    ensures
        r as int == le_i32(b@, at as int),
{
    let u: i64 = (b[at] as i64) + (b[at + 1] as i64) * 0x100 + (b[at + 2] as i64) * 0x10000 + (
    b[at + 3] as i64) * 0x1000000;
    if u >= 0x8000_0000 {
        (u - 0x1_0000_0000) as i32
    } else {
        u as i32
    }
}

/// Returns the chunk position named by a database key, or `None` when the key
/// names no chunk.
pub fn is_chunk_key(key: &[u8]) -> (r: Option<ChunkPos>)
    ensures
        r == spec_chunk_key(key@),
{
    if key.len() < 9 {
        return None;
    }
    let x = read_le_i32(key, 0);
    let z = read_le_i32(key, 4);
    let dim = if key.len() >= 13 {
        let d = read_le_i32(key, 8);
        if d < 0 || d > 2 {
            return None;
        }
        d
    } else {
        0
    };
    let tag_offset: usize = if key.len() >= 13 { 12 } else { 8 };
    let tag = key[tag_offset];
    if !((0x2D <= tag && tag <= 0x41) || tag == 0x76 || tag == 0x77) {
        return None;
    }
    Some(ChunkPos { x, z, dim })
}


// ---------------------------------------------------------------------------
// Sets of chunk positions
// ---------------------------------------------------------------------------
/// `v` shifted onto the range `0 .. 2^32`.
pub open spec fn biased(v: i32) -> int {
    v + 0x8000_0000
}

/// The integer under which a position is stored in a hash set: the shifted
/// dimension, x and z as three base-2^32 digits.
pub open spec fn pos_key(p: ChunkPos) -> u128 {
    (biased(p.dim) * 0x1_0000_0000_0000_0000 + biased(p.x) * 0x1_0000_0000 + biased(p.z)) as u128
}

/// Distinct positions have distinct keys.
pub proof fn lemma_pos_key_injective(a: ChunkPos, b: ChunkPos)
    requires
        pos_key(a) == pos_key(b),
    ensures
        a == b,
{
    let lo_a = biased(a.x) * 0x1_0000_0000 + biased(a.z);
    let lo_b = biased(b.x) * 0x1_0000_0000 + biased(b.z);
    let ka = biased(a.dim) * 0x1_0000_0000_0000_0000 + lo_a;
    let kb = biased(b.dim) * 0x1_0000_0000_0000_0000 + lo_b;
    assert(ka == kb);
    lemma_fundamental_div_mod_converse(ka, 0x1_0000_0000_0000_0000, biased(a.dim), lo_a);
    lemma_fundamental_div_mod_converse(kb, 0x1_0000_0000_0000_0000, biased(b.dim), lo_b);
    lemma_fundamental_div_mod_converse(lo_a, 0x1_0000_0000, biased(a.x), biased(a.z));
    lemma_fundamental_div_mod_converse(lo_b, 0x1_0000_0000, biased(b.x), biased(b.z));
}

fn key_of(p: &ChunkPos) -> (r: u128)
    ensures
        r == pos_key(*p),
{
    let d = (p.dim as i64 + 0x8000_0000) as u128;
    let x = (p.x as i64 + 0x8000_0000) as u128;
    let z = (p.z as i64 + 0x8000_0000) as u128;
    d * 0x1_0000_0000_0000_0000 + x * 0x1_0000_0000 + z
}

/// A set of chunk positions: a hash set of their keys for lookups, and the
/// positions themselves in the order of their first insertion.
pub struct ChunkSet {
    keys: HashSet<u128>,
    elems: Vec<ChunkPos>,
}

impl View for ChunkSet {
    type V = Set<ChunkPos>;

    closed spec fn view(&self) -> Set<ChunkPos> {
        self.elems@.to_set()
    }
}

impl ChunkSet {
    #[verifier::type_invariant]
    spec fn well_formed(self) -> bool {
        &&& self.elems@.no_duplicates()
        &&& forall|p: ChunkPos| #[trigger]
            self.keys@.contains(pos_key(p)) <==> self.elems@.contains(p)
    }

    /// The positions in the order in which they were first inserted.
    pub closed spec fn members(self) -> Seq<ChunkPos> {
        self.elems@
    }

    /// An empty set.
    pub fn new() -> (s: Self)
        ensures
            s@ == Set::<ChunkPos>::empty(),
            s.members() == Seq::<ChunkPos>::empty(),
    {
        let s = ChunkSet { keys: HashSet::new(), elems: Vec::new() };
        assert(s@ =~= Set::<ChunkPos>::empty());
        s
    }

    /// Whether `p` belongs to the set.
    pub fn contains(&self, p: &ChunkPos) -> (r: bool)
        ensures
            r == self@.contains(*p),
    {
        proof {
            use_type_invariant(self);
        }
        let k = key_of(p);
        self.keys.contains(&k)
    }

    /// Adds `p`; returns whether it was new.
    pub fn insert(&mut self, p: ChunkPos) -> (r: bool)
        ensures
            final(self)@ == old(self)@.insert(p),
            r == !old(self)@.contains(p),
            final(self).members() == (if r {
                old(self).members().push(p)
            } else {
                old(self).members()
            }),
    {
        if self.contains(&p) {
            assert(self@ =~= self@.insert(p));
            return false;
        }
        let mut whole = ChunkSet::new();
        std::mem::swap(&mut whole, self);
        proof {
            use_type_invariant(&whole);
        }
        let ChunkSet { mut keys, mut elems } = whole;
        let ghost before = elems@;
        let ghost old_keys = keys@;
        let k = key_of(&p);
        keys.insert(k);
        elems.push(p);
        proof {
            before.lemma_push_to_set_commute(p);
            assert forall|q: ChunkPos| #[trigger] keys@.contains(pos_key(q)) <==> elems@.contains(q) by {
                if keys@.contains(pos_key(q)) && !old_keys.contains(pos_key(q)) {
                    lemma_pos_key_injective(p, q);
                }
                assert(elems@.contains(q) <==> before.push(p).to_set().contains(q));
            }
        }
        *self = ChunkSet { keys, elems };
        true
    }

    /// The number of positions in the set.
    pub fn len(&self) -> (r: usize)
        ensures
            r == self@.len(),
            r == self.members().len(),
    {
        proof {
            use_type_invariant(self);
            self.elems@.unique_seq_to_set();
        }
        self.elems.len()
    }

    /// The position at index `i` of `members()`.
    pub fn get(&self, i: usize) -> (r: ChunkPos)
        requires
            i < self.members().len(),
        ensures
            r == self.members()[i as int],
    {
        self.elems[i]
    }
}

/// The outcome of scanning a world: the chunks found in plain tables and the
/// number of encrypted database files.
pub struct ChunkScanResult {
    pub plain: ChunkSet,
    pub encrypted_file_count: usize,
}

// ---------------------------------------------------------------------------
// LevelDB table records
// ---------------------------------------------------------------------------
/// The varint at `off`: its value and the offset just past it.
pub open spec fn varint_at(data: Seq<u8>, off: int) -> Option<(int, int)> {
    match spec_decode_varint32(data.skip(off)) {
        Some((v, n)) => Some((v as int, off + n)),
        None => None,
    }
}

pub proof fn lemma_varint_at(data: Seq<u8>, off: int)
    requires
        0 <= off <= data.len(),
    ensures
        varint_at(data, off) matches Some((v, n)) ==> off < n <= data.len(),
{
    lemma_varint_end_bounds(data.skip(off), 0);
}

/// The chunk a key names, as a sequence of zero or one positions.
pub open spec fn key_chunk(key: Seq<u8>) -> Seq<ChunkPos> {
    match spec_chunk_key(key) {
        Some(p) => seq![p],
        None => Seq::empty(),
    }
}

/// The chunk positions met while scanning a table from `offset` on.
///
/// While more than four bytes remain, a record is three varints (shared key
/// length, unshared key length, value length) followed by the key and the
/// value. A record with no shared part, a non-empty key and a non-empty value
/// contributes its key when the key names a chunk, and the scan resumes after
/// the value; any other record makes the scan resume one byte after its
/// varints. A missing varint or a value running past the end stops the scan.
pub open spec fn ldb_chunks(data: Seq<u8>, offset: int) -> Seq<ChunkPos>
    decreases data.len() - offset,
{
    if offset < 0 || offset + 4 >= data.len() {
        Seq::empty()
    } else {
        match varint_at(data, offset) {
            None => Seq::empty(),
            Some((shared, o1)) => {
                match varint_at(data, o1) {
                    None => Seq::empty(),
                    Some((non_shared, o2)) => {
                        match varint_at(data, o2) {
                            None => Seq::empty(),
                            Some((value_len, o3)) => {
                                if shared == 0 && non_shared > 0 && value_len > 0 {
                                    let key_end = o3 + non_shared;
                                    let val_end = key_end + value_len;
                                    if val_end > data.len() {
                                        Seq::empty()
                                    } else {
                                        proof {
                                            lemma_varint_at(data, offset);
                                            lemma_varint_at(data, o1);
                                            lemma_varint_at(data, o2);
                                        }
                                        key_chunk(data.subrange(o3, key_end)) + ldb_chunks(
                                            data,
                                            val_end,
                                        )
                                    }
                                } else {
                                    proof {
                                        lemma_varint_at(data, offset);
                                        lemma_varint_at(data, o1);
                                        lemma_varint_at(data, o2);
                                    }
                                    if o3 >= data.len() {
                                        Seq::empty()
                                    } else {
                                        ldb_chunks(data, o3 + 1)
                                    }
                                }
                            },
                        }
                    },
                }
            },
        }
    }
}

/// One step of the table scan: at an offset with more than four bytes left,
/// three varints give the shared key length, the key length and the value
/// length. A complete record (no shared part, non-empty key and value, value
/// ending within the data) contributes the chunk its key names, if any, and
/// the scan goes on after the value, whether or not the key named a chunk.
/// Any other record whose varints end before the data does lets the scan go on
/// one byte after its varints.
pub proof fn law_ldb_scan_step(
    data: Seq<u8>,
    offset: int,
    shared: int,
    o1: int,
    ns: int,
    o2: int,
    vl: int,
    o3: int,
)
    requires
        0 <= offset,
        offset + 4 < data.len(),
        varint_at(data, offset) == Some((shared, o1)),
        varint_at(data, o1) == Some((ns, o2)),
        varint_at(data, o2) == Some((vl, o3)),
    ensures
        shared == 0 && ns > 0 && vl > 0 && o3 + ns + vl <= data.len() ==> ldb_chunks(data, offset)
            == match spec_chunk_key(data.subrange(o3, o3 + ns)) {
            Some(p) => seq![p] + ldb_chunks(data, o3 + ns + vl),
            None => ldb_chunks(data, o3 + ns + vl),
        },
        !(shared == 0 && ns > 0 && vl > 0) && o3 < data.len() ==> ldb_chunks(data, offset)
            == ldb_chunks(data, o3 + 1),
{
    lemma_varint_at(data, offset);
    lemma_varint_at(data, o1);
    lemma_varint_at(data, o2);
    if shared == 0 && ns > 0 && vl > 0 && o3 + ns + vl <= data.len() {
        let rest = ldb_chunks(data, o3 + ns + vl);
        if spec_chunk_key(data.subrange(o3, o3 + ns)) is None {
            assert(Seq::<ChunkPos>::empty() + rest =~= rest);
        }
    }
}

/// The scan ends where no varint can be read.
pub proof fn law_ldb_scan_stops(data: Seq<u8>, offset: int)
    requires
        varint_at(data, offset) is None,
    ensures
        ldb_chunks(data, offset) == Seq::<ChunkPos>::empty(),
{
}

fn decode_varint_at(data: &[u8], off: usize) -> (r: Option<(u32, usize)>)
    requires
        off <= data@.len(),
    ensures
        match varint_at(data@, off as int) {
            Some((v, n)) => r matches Some((rv, rn)) && rv == v && rn == n && off < rn
                <= data@.len(),
            None => r is None,
        },
{
    let rest = &data[off..data.len()];
    assert(rest@ =~= data@.skip(off as int));
    proof {
        lemma_varint_at(data@, off as int);
    }
    match decode_varint32(rest) {
        Some((v, n)) => Some((v, off + n)),
        None => None,
    }
}

/// Collects into `chunks` every chunk position whose key appears in a
/// complete record of the unencrypted table `data`.
pub fn parse_unencrypted_ldb(data: &[u8], chunks: &mut ChunkSet)
    ensures
        final(chunks)@ == old(chunks)@ + ldb_chunks(data@, 0).to_set(),
{
    let len = data.len();
    let mut offset: usize = 0;
    while offset < len && len - offset > 4
        invariant
            len == data@.len(),
            offset <= len,
            chunks@ + ldb_chunks(data@, offset as int).to_set() == old(chunks)@ + ldb_chunks(
                data@,
                0,
            ).to_set(),
        ensures
            chunks@ == old(chunks)@ + ldb_chunks(data@, 0).to_set(),
        decreases len - offset,
    {
        let ghost at = offset as int;
        let (shared, o1) = match decode_varint_at(data, offset) {
            Some(v) => v,
            None => {
                assert(ldb_chunks(data@, at) =~= Seq::empty());
                assert(chunks@ =~= chunks@ + Seq::<ChunkPos>::empty().to_set());
                break ;
            },
        };
        let (non_shared, o2) = match decode_varint_at(data, o1) {
            Some(v) => v,
            None => {
                assert(ldb_chunks(data@, at) =~= Seq::empty());
                assert(chunks@ =~= chunks@ + Seq::<ChunkPos>::empty().to_set());
                break ;
            },
        };
        let (value_len, o3) = match decode_varint_at(data, o2) {
            Some(v) => v,
            None => {
                assert(ldb_chunks(data@, at) =~= Seq::empty());
                assert(chunks@ =~= chunks@ + Seq::<ChunkPos>::empty().to_set());
                break ;
            },
        };
        if shared == 0 && non_shared > 0 && value_len > 0 {
            let ns = non_shared as usize;
            let vl = value_len as usize;
            if ns > len - o3 || vl > len - o3 - ns {
                assert(ldb_chunks(data@, at) =~= Seq::empty());
                assert(chunks@ =~= chunks@ + Seq::<ChunkPos>::empty().to_set());
                break ;
            }
            let key_end = o3 + ns;
            let val_end = key_end + vl;
            let key = &data[o3..key_end];
            let ghost before = chunks@;
            let ghost kc = key_chunk(data@.subrange(o3 as int, key_end as int));
            assert(key@ =~= data@.subrange(o3 as int, key_end as int));
            assert(ldb_chunks(data@, at) == key_chunk(data@.subrange(o3 as int, key_end as int))
                + ldb_chunks(data@, val_end as int));
            match is_chunk_key(key) {
                Some(pos) => {
                    chunks.insert(pos);
                    assert(kc =~= seq![pos]);
                    assert(kc.to_set() =~= Set::empty().insert(pos)) by {
                        assert(kc[0] == pos);
                    }
                },
                None => {
                    assert(kc.to_set() =~= Set::empty());
                },
            }
            proof {
                let rest = ldb_chunks(data@, val_end as int);
                seq_to_set_distributes_over_add(kc, rest);
                assert(chunks@ =~= before + kc.to_set());
                assert(chunks@ + rest.to_set() =~= before + (kc + rest).to_set());
            }
            offset = val_end;
        } else {
            if o3 >= len {
                assert(ldb_chunks(data@, at) =~= Seq::empty());
                assert(chunks@ =~= chunks@ + Seq::<ChunkPos>::empty().to_set());
                break ;
            }
            assert(ldb_chunks(data@, at) == ldb_chunks(data@, o3 + 1));
            offset = o3 + 1;
        }
    }
}


// ---------------------------------------------------------------------------
// Neighbours of plain chunks
// ---------------------------------------------------------------------------
/// `c` lies in the same dimension as `p`, at most one step away along each
/// axis, and is not `p` itself.
pub open spec fn is_neighbor(p: ChunkPos, c: ChunkPos) -> bool {
    &&& c.dim == p.dim
    &&& -1 <= c.x - p.x <= 1
    &&& -1 <= c.z - p.z <= 1
    &&& !(c.x == p.x && c.z == p.z)
}

/// The chunks that are not plain but border a plain chunk.
pub open spec fn hidden_chunks(plain: Set<ChunkPos>) -> Set<ChunkPos> {
    Set::new(
        |c: ChunkPos|
            !plain.contains(c) && exists|p: ChunkPos| #[trigger]
                plain.contains(p) && is_neighbor(p, c),
    )
}

/// The order by dimension, then x, then z.
pub open spec fn pos_lt(a: ChunkPos, b: ChunkPos) -> bool {
    a.dim < b.dim || (a.dim == b.dim && (a.x < b.x || (a.x == b.x && a.z < b.z)))
}

pub open spec fn strictly_sorted(s: Seq<ChunkPos>) -> bool {
    forall|i: int, j: int| 0 <= i < j < s.len() ==> pos_lt(#[trigger] s[i], #[trigger] s[j])
}

/// Coordinates of every member leave room for a step in each direction.
pub open spec fn coords_in_range(plain: Set<ChunkPos>) -> bool {
    forall|p: ChunkPos|
        #[trigger] plain.contains(p) ==> i32::MIN < p.x < i32::MAX && i32::MIN < p.z < i32::MAX
}

fn pos_less(a: &ChunkPos, b: &ChunkPos) -> (r: bool)
    ensures
        r == pos_lt(*a, *b),
{
    a.dim < b.dim || (a.dim == b.dim && (a.x < b.x || (a.x == b.x && a.z < b.z)))
}

/// Merges two strictly sorted lists into one, keeping a position found in
/// both once.
fn merge_sorted(a: &Vec<ChunkPos>, b: &Vec<ChunkPos>) -> (r: Vec<ChunkPos>)
    requires
        strictly_sorted(a@),
        strictly_sorted(b@),
    ensures
        strictly_sorted(r@),
        r@.to_set() == a@.to_set() + b@.to_set(),
{
    let mut out: Vec<ChunkPos> = Vec::new();
    let mut i: usize = 0;
    let mut j: usize = 0;
    assert(out@.to_set() =~= a@.take(0).to_set() + b@.take(0).to_set());
    while i < a.len() || j < b.len()
        invariant
            i <= a@.len(),
            j <= b@.len(),
            strictly_sorted(a@),
            strictly_sorted(b@),
            strictly_sorted(out@),
            out@.to_set() == a@.take(i as int).to_set() + b@.take(j as int).to_set(),
            out@.len() > 0 && i < a@.len() ==> pos_lt(out@.last(), a@[i as int]),
            out@.len() > 0 && j < b@.len() ==> pos_lt(out@.last(), b@[j as int]),
        decreases a@.len() - i + b@.len() - j,
    {
        let ghost prev = out@;
        let x: ChunkPos;
        if j >= b.len() || (i < a.len() && pos_less(&a[i], &b[j])) {
            x = a[i];
            proof {
                a@.lemma_take_succ_push(i as int);
                a@.take(i as int).lemma_push_to_set_commute(x);
            }
            i = i + 1;
        } else if i >= a.len() || pos_less(&b[j], &a[i]) {
            x = b[j];
            proof {
                b@.lemma_take_succ_push(j as int);
                b@.take(j as int).lemma_push_to_set_commute(x);
            }
            j = j + 1;
        } else {
            x = a[i];
            assert(a@[i as int] == b@[j as int]);
            proof {
                a@.lemma_take_succ_push(i as int);
                a@.take(i as int).lemma_push_to_set_commute(x);
                b@.lemma_take_succ_push(j as int);
                b@.take(j as int).lemma_push_to_set_commute(x);
            }
            i = i + 1;
            j = j + 1;
        }
        assert forall|k: int| 0 <= k < prev.len() implies pos_lt(#[trigger] prev[k], x) by {
            if k < prev.len() - 1 {
                assert(pos_lt(prev[k], prev.last()));
            }
        }
        out.push(x);
        proof {
            prev.lemma_push_to_set_commute(x);
            assert(out@.to_set() =~= a@.take(i as int).to_set() + b@.take(j as int).to_set());
        }
    }
    assert(a@.take(a@.len() as int) =~= a@);
    assert(b@.take(b@.len() as int) =~= b@);
    out
}

/// The positions of `v` in strictly increasing order (by dimension, x, z),
/// each once.
fn sort_positions(v: &[ChunkPos]) -> (r: Vec<ChunkPos>)
    ensures
        strictly_sorted(r@),
        r@.to_set() == v@.to_set(),
    decreases v@.len(),
{
    let n = v.len();
    if n == 0 {
        let r: Vec<ChunkPos> = Vec::new();
        assert(r@.to_set() =~= v@.to_set());
        return r;
    }
    if n == 1 {
        let mut r: Vec<ChunkPos> = Vec::new();
        r.push(v[0]);
        assert(r@ =~= v@);
        return r;
    }
    let mid = n / 2;
    let left = sort_positions(&v[0..mid]);
    let right = sort_positions(&v[mid..n]);
    proof {
        assert(v@.subrange(0, mid as int) + v@.subrange(mid as int, n as int) =~= v@);
        seq_to_set_distributes_over_add(v@.subrange(0, mid as int), v@.subrange(mid as int, n as int));
    }
    merge_sorted(&left, &right)
}

/// Adds `c` to `found` when `c` is not plain.
fn consider(found: &mut ChunkSet, plain: &ChunkSet, c: ChunkPos)
    ensures
        final(found)@ == if plain@.contains(c) {
            old(found)@
        } else {
            old(found)@.insert(c)
        },
{
    if !plain.contains(&c) {
        found.insert(c);
    }
}

/// The hidden chunks found from the first `i` members.
pub open spec fn hidden_from(plain: Set<ChunkPos>, members: Seq<ChunkPos>, i: int) -> Set<
    ChunkPos,
> {
    Set::new(
        |c: ChunkPos|
            !plain.contains(c) && exists|j: int| 0 <= j < i && #[trigger] is_neighbor(members[j], c),
    )
}

/// The positions next to plain chunks that are not plain themselves, sorted by
/// dimension, x and z: the chunks whose data the encrypted files must hold.
pub fn infer_encrypted_chunks(plain: &ChunkSet) -> (r: Vec<ChunkPos>)
    requires
        coords_in_range(plain@),
    ensures
        strictly_sorted(r@),
        r@.to_set() == hidden_chunks(plain@),
{
    let ghost members = plain.members();
    let ghost pset = plain@;
    let mut found = ChunkSet::new();
    let n = plain.len();
    let mut i: usize = 0;
    assert(found@ =~= hidden_from(pset, members, 0));
    while i < n
        invariant
            n == members.len(),
            members == plain.members(),
            pset == plain@,
            pset == members.to_set(),
            coords_in_range(pset),
            0 <= i <= n,
            found@ == hidden_from(pset, members, i as int),
        decreases n - i,
    {
        let p = plain.get(i);
        assert(pset.contains(p)) by {
            assert(members[i as int] == p);
        }
        let ghost start = found@;
        consider(&mut found, plain, ChunkPos { x: p.x - 1, z: p.z - 1, dim: p.dim });
        consider(&mut found, plain, ChunkPos { x: p.x - 1, z: p.z, dim: p.dim });
        consider(&mut found, plain, ChunkPos { x: p.x - 1, z: p.z + 1, dim: p.dim });
        consider(&mut found, plain, ChunkPos { x: p.x, z: p.z - 1, dim: p.dim });
        consider(&mut found, plain, ChunkPos { x: p.x, z: p.z + 1, dim: p.dim });
        consider(&mut found, plain, ChunkPos { x: p.x + 1, z: p.z - 1, dim: p.dim });
        consider(&mut found, plain, ChunkPos { x: p.x + 1, z: p.z, dim: p.dim });
        consider(&mut found, plain, ChunkPos { x: p.x + 1, z: p.z + 1, dim: p.dim });
        proof {
            let next = hidden_from(pset, members, i + 1);
            assert forall|c: ChunkPos| #[trigger] found@.contains(c) <==> next.contains(c) by {
                if next.contains(c) {
                    let j = choose|j: int| 0 <= j < i + 1 && #[trigger] is_neighbor(members[j], c);
                    if j < i {
                        assert(hidden_from(pset, members, i as int).contains(c));
                    }
                }
                if start.contains(c) {
                    let j = choose|j: int| 0 <= j < i && #[trigger] is_neighbor(members[j], c);
                    assert(is_neighbor(members[j], c));
                }
                if found@.contains(c) && !start.contains(c) {
                    assert(is_neighbor(members[i as int], c));
                }
            }
            assert(found@ =~= next);
        }
        i = i + 1;
    }
    proof {
        assert forall|c: ChunkPos| #[trigger] found@.contains(c) <==> hidden_chunks(
            pset,
        ).contains(c) by {
            if hidden_chunks(pset).contains(c) {
                let p = choose|p: ChunkPos| #[trigger] pset.contains(p) && is_neighbor(p, c);
                assert(members.contains(p));
                let j = choose|j: int| 0 <= j < members.len() && members[j] == p;
                assert(is_neighbor(members[j], c));
            }
            if found@.contains(c) {
                let j = choose|j: int| 0 <= j < n && #[trigger] is_neighbor(members[j], c);
                assert(members.to_set().contains(members[j]));
            }
        }
        assert(found@ =~= hidden_chunks(pset));
    }
    sort_positions(found.elems.as_slice())
}


/// The display name of a dimension: 0 the overworld, 1 the nether, 2 the end.
pub fn dimension_name(dim: i32) -> (r: &'static str)
    ensures
        r@ == if dim == 0 {
            "Overworld"@
        } else if dim == 1 {
            "Nether"@
        } else if dim == 2 {
            "End"@
        } else {
            "Unknown"@
        },
{
    match dim {
        0 => "Overworld",
        1 => "Nether",
        2 => "End",
        _ => "Unknown",
    }
}

} // verus!
