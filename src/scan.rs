//! Producers of index entries, and the building of a whole index from them.
use vstd::prelude::*;
use vstd::bytes::spec_u64_from_le_bytes;

use bincode::Options;

use crate::digest::{block_bytes, hash_block, sha1_of};
use crate::error::IndexError;
use crate::index::{entries_view, insert_all, IndexBuilder, IndexEntry};
use crate::layout::{capacity_for, committed, fresh_image, item_count_fits, layout_fits, Layout};

verus! {

/// Size of one record of the legacy log: a digest and an eight-byte offset.
pub const RECORD_SIZE: usize = 28;

/// Number of blocks of `block_size` bytes that cover `len` bytes.
pub open spec fn block_count(len: nat, block_size: nat) -> nat {
    ((len + block_size - 1) as nat) / block_size
}

/// The entry of origin block `i`: its digest and its offset.
pub open spec fn origin_entry(origin: Seq<u8>, block_size: nat, i: int) -> (Seq<u8>, u64) {
    (sha1_of(block_bytes(origin, i * block_size, block_size as int)), (i * block_size) as u64)
}

/// The entries of all blocks of the origin, in order.
pub open spec fn origin_entries(origin: Seq<u8>, block_size: nat) -> Seq<(Seq<u8>, u64)> {
    Seq::new(block_count(origin.len(), block_size), |i: int| origin_entry(origin, block_size, i))
}

/// Entries for each block of the origin, in order: the digest of block `i`
/// and its offset `i * fs_block_size`. A last block that is cut short by the
/// end of the origin is digested as it is.
pub fn read_origin_blocks(origin: &[u8], fs_block_size: usize) -> (r: Vec<IndexEntry>)
    requires
        fs_block_size > 0,
    ensures
        entries_view(r@) == origin_entries(origin@, fs_block_size as nat),
{
    let mut r: Vec<IndexEntry> = Vec::new();
    let len = origin.len();
    let mut offset: usize = 0;
    assert(0 * fs_block_size == 0);
    while offset < len
        invariant
            fs_block_size > 0,
            len == origin@.len(),
            offset <= len,
            offset == r@.len() * fs_block_size,
            forall|i: int| 0 <= i < r@.len() ==> #[trigger] r@[i]@ == origin_entry(origin@, fs_block_size as nat, i),
        decreases len - offset,
    {
        let digest = hash_block(origin, offset, fs_block_size);
        r.push(IndexEntry { digest, offset: offset as u64 });
        proof {
            assert(r@.len() * fs_block_size == (r@.len() - 1) * fs_block_size + fs_block_size) by (nonlinear_arith)
                requires r@.len() >= 1;
        }
        if fs_block_size >= len - offset {
            proof {
                lemma_block_count(len as nat, fs_block_size as nat, r@.len());
                assert(entries_view(r@) =~= origin_entries(origin@, fs_block_size as nat));
            }
            return r;
        }
        offset = offset + fs_block_size;
    }
    proof {
        if r@.len() > 0 {
            assert((r@.len() - 1) * fs_block_size + fs_block_size == r@.len() * fs_block_size) by (nonlinear_arith)
                requires r@.len() >= 1;
        }
        lemma_block_count(len as nat, fs_block_size as nat, r@.len());
        assert(entries_view(r@) =~= origin_entries(origin@, fs_block_size as nat));
    }
    r
}

proof fn lemma_block_count(len: nat, bs: nat, n: nat)
    requires
        bs > 0,
        n * bs >= len,
        n == 0 || (n - 1) * bs < len,
    ensures
        n == block_count(len, bs),
{
    if n == 0 {
        assert(len == 0);
        vstd::arithmetic::div_mod::lemma_fundamental_div_mod_converse(
            (bs - 1) as int, bs as int, 0, (bs - 1) as int);
    } else {
        assert((n - 1) * bs + bs == n * bs) by (nonlinear_arith);
        vstd::arithmetic::div_mod::lemma_fundamental_div_mod_converse(
            (len + bs - 1) as int, bs as int, n as int, (len + bs - 1 - n * bs) as int);
    }
}

/// Relies on bincode's deserialisation with `options().with_fixint_encoding()`:
/// a `([u8; 20], u64)` is read as its twenty bytes, then the eight bytes of the
/// integer in little-endian order; the twenty-eight bytes given are read whole,
/// so neither a short input nor trailing bytes can make it fail.
#[verifier::external_body]
fn decode_record(bytes: &[u8]) -> (r: Option<([u8; 20], u64)>)
    requires
        bytes@.len() == RECORD_SIZE,
    ensures
        r is Some,
        r->Some_0.0@ == bytes@.subrange(0, 20),
        r->Some_0.1 == spec_u64_from_le_bytes(bytes@.subrange(20, 28)),
{
    bincode::options().with_fixint_encoding().deserialize::<([u8; 20], u64)>(bytes).ok()
}

/// Where record `i` of a legacy log with blocks of `block_size` bytes starts.
pub open spec fn record_offset(block_size: nat, i: nat) -> nat {
    let per = block_size / RECORD_SIZE as nat;
    (i / per) * block_size + (i % per) * RECORD_SIZE as nat
}

/// Number of records of a legacy log of `len` bytes.
pub open spec fn record_count(len: nat, block_size: nat) -> nat {
    (len / block_size) * (block_size / RECORD_SIZE as nat)
}

/// The entry held by the record at `at` of `log`.
pub open spec fn record_at(log: Seq<u8>, at: int) -> (Seq<u8>, u64) {
    (log.subrange(at, at + 20), spec_u64_from_le_bytes(log.subrange(at + 20, at + 28)))
}

/// The entries of all records of a legacy log, in order.
pub open spec fn legacy_entries(log: Seq<u8>, block_size: nat) -> Seq<(Seq<u8>, u64)> {
    Seq::new(record_count(log.len(), block_size), |i: int| record_at(log, record_offset(block_size, i as nat) as int))
}

/// The entries of a legacy log: blocks of `index_block_size` bytes, each
/// packed with as many records as fit, the rest of the block unused.
pub fn read_old_index(log: &[u8], index_block_size: usize) -> (r: Vec<IndexEntry>)
    requires
        index_block_size > 0,
        log@.len() % index_block_size as nat == 0,
    ensures
        entries_view(r@) == legacy_entries(log@, index_block_size as nat),
{
    let ibs = index_block_size;
    let len = log.len();
    let per = ibs / RECORD_SIZE;
    let blocks = len / ibs;
    let mut r: Vec<IndexEntry> = Vec::new();
    if per == 0 {
        assert(record_count(log@.len(), ibs as nat) == 0) by {
            assert((log@.len() / ibs as nat) * 0 == 0);
        }
        assert(entries_view(r@) =~= legacy_entries(log@, ibs as nat));
        return r;
    }
    let mut b: usize = 0;
    while b < blocks
        invariant
            per == ibs / RECORD_SIZE,
            per > 0,
            len == log@.len(),
            blocks == log@.len() / ibs as nat,
            b <= blocks,
            r@.len() == b * per,
            forall|i: int| 0 <= i < r@.len() ==>
                #[trigger] r@[i]@ == record_at(log@, record_offset(ibs as nat, i as nat) as int),
        decreases blocks - b,
    {
        assert(b * ibs + ibs <= len) by (nonlinear_arith)
            requires b < blocks, blocks == len as nat / ibs as nat, ibs > 0;
        assert(per * RECORD_SIZE <= ibs) by (nonlinear_arith)
            requires per == ibs / RECORD_SIZE;
        let start = b * ibs;
        let mut e: usize = 0;
        while e < per
            invariant
                per == ibs / RECORD_SIZE,
                per > 0,
                per * RECORD_SIZE <= ibs,
                len == log@.len(),
                b < blocks,
                start == b * ibs,
                start + ibs <= log@.len(),
                e <= per,
                r@.len() == b * per + e,
                forall|i: int| 0 <= i < r@.len() ==>
                    #[trigger] r@[i]@ == record_at(log@, record_offset(ibs as nat, i as nat) as int),
            decreases per - e,
        {
            assert(e * RECORD_SIZE + RECORD_SIZE <= per * RECORD_SIZE) by (nonlinear_arith)
                requires e < per;
            let at = start + e * RECORD_SIZE;
            let record = decode_record(&log[at..at + RECORD_SIZE]);
            let (digest, offset) = match record {
                Some(p) => p,
                None => { return r; },
            };
            proof {
                let i = (b * per + e) as nat;
                vstd::arithmetic::div_mod::lemma_fundamental_div_mod_converse(
                    i as int, per as int, b as int, e as int);
                assert(record_offset(ibs as nat, i) == at);
                assert(log@.subrange(at as int, at + RECORD_SIZE).subrange(0, 20)
                    =~= log@.subrange(at as int, at + 20));
                assert(log@.subrange(at as int, at + RECORD_SIZE).subrange(20, 28)
                    =~= log@.subrange(at + 20, at + 28));
            }
            r.push(IndexEntry { digest, offset });
            e = e + 1;
        }
        assert(b * per + per == (b + 1) * per) by (nonlinear_arith);
        b = b + 1;
    }
    assert(entries_view(r@) =~= legacy_entries(log@, ibs as nat));
    r
}

/// Once an insertion finds no free slot, so does the whole sequence.
proof fn lemma_insert_all_none(l: Layout, img: Seq<u8>, es: Seq<(Seq<u8>, u64)>, n: nat)
    requires
        n <= es.len(),
        insert_all(l, img, es.subrange(0, n as int)) is None,
    ensures
        insert_all(l, img, es) is None,
    decreases es.len() - n,
{
    if n < es.len() {
        assert(es.subrange(0, n + 1 as int).drop_last() =~= es.subrange(0, n as int));
        lemma_insert_all_none(l, img, es, n + 1);
    } else {
        assert(es.subrange(0, n as int) =~= es);
    }
}

/// The committed index of `es`, inserted in order into a new index of
/// `es.len()` items for blocks of `block_size` bytes, or why there is none.
pub open spec fn built_image(block_size: u64, es: Seq<(Seq<u8>, u64)>) -> Result<Seq<u8>, IndexError> {
    let cap = capacity_for(es.len());
    if !layout_fits(cap) {
        Err(IndexError::TooLarge)
    } else {
        match insert_all(Layout::spec_from_capacity(cap), fresh_image(cap, block_size), es) {
            Some(img) => Ok(committed(img)),
            None => Err(IndexError::NoFreeSlot),
        }
    }
}

/// Builds and commits an index of `entries`, inserted in order, for blocks
/// of `fs_block_size` bytes.
pub fn write_index_file(fs_block_size: u64, entries: &Vec<IndexEntry>) -> (r: Result<Vec<u8>, IndexError>)
    ensures
        match built_image(fs_block_size, entries_view(entries@)) {
            Ok(img) => r is Ok && r->Ok_0@ == img,
            Err(e) => r == Err::<Vec<u8>, IndexError>(e),
        },
{
    if !item_count_fits(entries.len()) {
        return Err(IndexError::TooLarge);
    }
    let mut builder = IndexBuilder::new(entries.len(), fs_block_size);
    let ghost l = builder.layout();
    let ghost f = builder.image();
    let mut i: usize = 0;
    while i < entries.len()
        invariant
            builder.wf(),
            !builder.is_closed(),
            builder.layout() == l,
            layout_fits(capacity_for(entries@.len())),
            entries_view(entries@).len() == entries@.len(),
            l == Layout::spec_from_capacity(capacity_for(entries@.len())),
            f == fresh_image(capacity_for(entries@.len()), fs_block_size),
            i <= entries@.len(),
            insert_all(l, f, entries_view(entries@.subrange(0, i as int))) == Some(builder.image()),
        decreases entries@.len() - i,
    {
        let e = &entries[i];
        assert(entries_view(entries@.subrange(0, i + 1)).drop_last() =~= entries_view(entries@.subrange(0, i as int)));
        assert(entries_view(entries@.subrange(0, i + 1)).last() == entries@[i as int]@);
        let added = builder.add(&e.digest, e.offset);
        if added.is_err() {
            assert(insert_all(l, f, entries_view(entries@.subrange(0, i + 1))) is None);
            assert(entries_view(entries@.subrange(0, i + 1)) =~= entries_view(entries@).subrange(0, i + 1));
            proof {
                lemma_insert_all_none(l, f, entries_view(entries@), (i + 1) as nat);
            }
            return Err(IndexError::NoFreeSlot);
        }
        i = i + 1;
    }
    assert(entries@.subrange(0, i as int) =~= entries@);
    builder.finish();
    Ok(builder.into_image())
}

/// Builds the index of an origin device: of its blocks of `fs_block_size`
/// bytes, or, with `convert`, of the records of a legacy log held in
/// `origin` with blocks of `index_block_size` bytes.
pub fn index(origin: &[u8], fs_block_size: usize, convert: bool, index_block_size: usize) -> (r: Result<Vec<u8>, IndexError>)
    requires
        fs_block_size > 0,
        convert ==> index_block_size > 0 && origin@.len() % index_block_size as nat == 0,
    ensures
        match built_image(
            fs_block_size as u64,
            if convert {
                legacy_entries(origin@, index_block_size as nat)
            } else {
                origin_entries(origin@, fs_block_size as nat)
            },
        ) {
            Ok(img) => r is Ok && r->Ok_0@ == img,
            Err(e) => r == Err::<Vec<u8>, IndexError>(e),
        },
{
    let entries = if convert {
        read_old_index(origin, index_block_size)
    } else {
        read_origin_blocks(origin, fs_block_size)
    };
    write_index_file(fs_block_size as u64, &entries)
}

} // verus!
