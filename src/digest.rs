//! Content fingerprints of blocks.
use vstd::prelude::*;

use sha1::{Digest, Sha1};

verus! {

/// Length in bytes of a block digest.
pub const DIGEST_LEN: usize = 20;

/// The SHA-1 digest of `data`.
pub uninterp spec fn sha1_of(data: Seq<u8>) -> Seq<u8>;

/// Relies on sha1's `Sha1::digest` (through the `Digest` trait): the
/// SHA-1 digest of `data`, which depends on the bytes alone.
#[verifier::external_body]
fn sha1_digest(data: &[u8]) -> (r: [u8; 20])
    ensures
        r@ == sha1_of(data@),
{
    Sha1::digest(data).into()
}

/// The bytes of the block of `block_size` bytes at `offset`; a block that
/// runs past the end of `data` is cut short there.
pub open spec fn block_bytes(data: Seq<u8>, offset: int, block_size: int) -> Seq<u8> {
    if offset + block_size <= data.len() {
        data.subrange(offset, offset + block_size)
    } else {
        data.subrange(offset, data.len() as int)
    }
}

/// The digest of the block of `block_size` bytes at `offset` of `data`.
pub fn hash_block(data: &[u8], offset: usize, block_size: usize) -> (r: [u8; 20])
    requires
        offset <= data@.len(),
    ensures
        r@ == sha1_of(block_bytes(data@, offset as int, block_size as int)),
{
    let end = if block_size <= data.len() - offset { offset + block_size } else { data.len() };
    sha1_digest(&data[offset..end])
}

} // verus!
