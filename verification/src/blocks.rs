//! Block-wise processing of database files.
//!
//! A file is cut into blocks of a fixed size (the last one possibly shorter)
//! and each block is encrypted or decrypted on its own, so that every block
//! of an encrypted file carries its own header and restarts the key stream.
use crate::crypto::{
    decrypt_data, encrypt_data, law_decrypt_encrypt, spec_decrypt, spec_encrypt, CryptoError,
};
use std::path::PathBuf;
use vstd::prelude::*;

verus! {

#[verifier::external_type_specification]
#[verifier::external_body]
pub struct ExPathBuf(std::path::PathBuf);

/// A block of a file: the file it comes from, its index and its bytes.
pub struct Block {
    pub source_file: PathBuf,
    pub index: u64,
    pub data: Vec<u8>,
}

impl Block {
    /// A block with the given source, index and bytes.
    pub fn new(source_file: PathBuf, index: u64, data: Vec<u8>) -> (b: Self)
        ensures
            b.source_file == source_file,
            b.index == index,
            b.data@ == data@,
    {
        Block { source_file, index, data }
    }
}

/// The settings of the block engine.
pub struct IoEngineConfig {
    pub block_size: usize,
    pub _max_concurrent_io: usize,
    pub read_concurrency: usize,
    pub write_concurrency: usize,
}

impl Default for IoEngineConfig {
    /// Blocks of 256 KiB, four concurrent reads and four concurrent writes.
    fn default() -> (r: Self)
        ensures
            r.block_size == 256 * 1024,
            r._max_concurrent_io == 32,
            r.read_concurrency == 4,
            r.write_concurrency == 4,
    {
        IoEngineConfig {
            block_size: 256 * 1024,
            _max_concurrent_io: 32,
            read_concurrency: 4,
            write_concurrency: 4,
        }
    }
}

/// The number of blocks of a file of `size` bytes.
pub open spec fn block_count(size: nat, block_size: nat) -> nat {
    if block_size == 0 {
        0
    } else {
        ((size + block_size - 1) / block_size as int) as nat
    }
}

/// The file encrypted block by block.
pub open spec fn spec_encrypt_blocks(d: Seq<u8>, bs: nat, key: Seq<u8>) -> Seq<u8>
    decreases d.len(),
{
    if bs == 0 || d.len() == 0 {
        Seq::empty()
    } else if d.len() <= bs {
        spec_encrypt(d, key)
    } else {
        spec_encrypt(d.take(bs as int), key) + spec_encrypt_blocks(d.skip(bs as int), bs, key)
    }
}

/// The file decrypted block by block; `None` when some block lacks the header.
pub open spec fn spec_decrypt_blocks(d: Seq<u8>, bs: nat, key: Seq<u8>) -> Option<Seq<u8>>
    decreases d.len(),
{
    if bs == 0 || d.len() == 0 {
        Some(Seq::empty())
    } else if d.len() <= bs {
        spec_decrypt(d, key)
    } else {
        match (spec_decrypt(d.take(bs as int), key), spec_decrypt_blocks(d.skip(bs as int), bs, key)) {
            (Some(a), Some(b)) => Some(a + b),
            _ => None,
        }
    }
}

/// Computes the number of blocks of a file: its size divided by the block
/// size, rounded up.
pub fn blocks_in(size: u64, block_size: usize) -> (r: u64)
    requires
        block_size > 0,
    ensures
        r == block_count(size as nat, block_size as nat),
{
    let bs = block_size as u64;
    let q = size / bs;
    if size % bs == 0 {
        proof {
            assert((size + bs - 1) / bs as int == q) by (nonlinear_arith)
                requires
                    bs > 0,
                    size % bs == 0,
                    q == size / bs,
            ;
        }
        q
    } else {
        proof {
            assert((size + bs - 1) / bs as int == q + 1) by (nonlinear_arith)
                requires
                    bs > 0,
                    size % bs != 0,
                    q == size / bs,
            ;
            assert(q * bs <= size) by (nonlinear_arith)
                requires
                    bs > 0,
                    q == size / bs,
            ;
            assert(q + 1 <= u64::MAX) by (nonlinear_arith)
                requires
                    bs > 0,
                    q == size / bs,
                    size % bs != 0,
                    size <= u64::MAX,
            ;
        }
        q + 1
    }
}

/// Encrypts a file block by block, every block getting its own header.
pub fn encrypt_blocks(data: &[u8], block_size: usize, key: &[u8; 8]) -> (r: Vec<u8>)
    requires
        block_size > 0,
    ensures
        r@ == spec_encrypt_blocks(data@, block_size as nat, key@),
{
    let n = data.len();
    let mut out: Vec<u8> = Vec::new();
    let mut off: usize = 0;
    assert(data@.skip(0) =~= data@);
    while off < n
        invariant
            n == data@.len(),
            off <= n,
            block_size > 0,
            out@ + spec_encrypt_blocks(data@.skip(off as int), block_size as nat, key@)
                == spec_encrypt_blocks(data@, block_size as nat, key@),
        decreases n - off,
    {
        let ghost rest = data@.skip(off as int);
        let end = if n - off <= block_size { n } else { off + block_size };
        let block = &data[off..end];
        let enc = encrypt_data(block, key);
        let ghost before = out@;
        let mut i: usize = 0;
        while i < enc.len()
            invariant
                0 <= i <= enc@.len(),
                out@ == before + enc@.take(i as int),
            decreases enc@.len() - i,
        {
            out.push(enc[i]);
            i = i + 1;
            assert(enc@.take(i as int) =~= enc@.take(i - 1).push(enc@[i - 1]));
        }
        assert(enc@.take(enc@.len() as int) =~= enc@);
        if n - off <= block_size {
            assert(block@ =~= rest);
            assert(data@.skip(end as int) =~= Seq::<u8>::empty());
        } else {
            assert(block@ =~= rest.take(block_size as int));
            assert(rest.skip(block_size as int) =~= data@.skip(end as int));
        }
        assert(out@ + spec_encrypt_blocks(data@.skip(end as int), block_size as nat, key@)
            =~= before + spec_encrypt_blocks(rest, block_size as nat, key@));
        off = end;
    }
    assert(out@ + Seq::<u8>::empty() =~= out@);
    out
}

/// Decrypts a file block by block; fails when some block lacks the header.
pub fn decrypt_blocks(data: &[u8], block_size: usize, key: &[u8; 8]) -> (r: Result<Vec<u8>, CryptoError>)
    requires
        block_size > 0,
    ensures
        match spec_decrypt_blocks(data@, block_size as nat, key@) {
            Some(p) => r matches Ok(v) && v@ == p,
            None => r == Err::<Vec<u8>, CryptoError>(CryptoError::NotEncrypted),
        },
{
    let n = data.len();
    let mut out: Vec<u8> = Vec::new();
    let mut off: usize = 0;
    assert(data@.skip(0) =~= data@);
    while off < n
        invariant
            n == data@.len(),
            off <= n,
            block_size > 0,
            spec_decrypt_blocks(data@, block_size as nat, key@) == match spec_decrypt_blocks(
                data@.skip(off as int),
                block_size as nat,
                key@,
            ) {
                Some(p) => Some(out@ + p),
                None => None,
            },
        decreases n - off,
    {
        let ghost rest = data@.skip(off as int);
        let end = if n - off <= block_size { n } else { off + block_size };
        let block = &data[off..end];
        if n - off <= block_size {
            assert(block@ =~= rest);
            assert(data@.skip(end as int) =~= Seq::<u8>::empty());
        } else {
            assert(block@ =~= rest.take(block_size as int));
            assert(rest.skip(block_size as int) =~= data@.skip(end as int));
        }
        let dec = match decrypt_data(block, key) {
            Ok(d) => d,
            Err(e) => {
                return Err(e);
            },
        };
        let ghost before = out@;
        let mut i: usize = 0;
        while i < dec.len()
            invariant
                0 <= i <= dec@.len(),
                out@ == before + dec@.take(i as int),
            decreases dec@.len() - i,
        {
            out.push(dec[i]);
            i = i + 1;
            assert(dec@.take(i as int) =~= dec@.take(i - 1).push(dec@[i - 1]));
        }
        assert(dec@.take(dec@.len() as int) =~= dec@);
        proof {
            let tail = spec_decrypt_blocks(data@.skip(end as int), block_size as nat, key@);
            if let Some(p) = tail {
                assert(before + (dec@ + p) =~= out@ + p);
            }
        }
        off = end;
    }
    assert(out@ + Seq::<u8>::empty() =~= out@);
    Ok(out)
}

/// A file whose encrypted form fits in one block comes back unchanged from
/// block-wise encryption followed by block-wise decryption.
pub proof fn law_blocks_round_trip(data: Seq<u8>, bs: nat, key: Seq<u8>)
    requires
        key.len() == 8,
        data.len() + 4 <= bs,
    ensures
        spec_decrypt_blocks(spec_encrypt_blocks(data, bs, key), bs, key) == Some(data),
{
    law_decrypt_encrypt(data, key);
    if data.len() == 0 {
        assert(spec_encrypt_blocks(data, bs, key) =~= Seq::<u8>::empty());
        assert(data =~= Seq::<u8>::empty());
    }
}

} // verus!
