//! Properties of the index format that hold across its operations.
use vstd::prelude::*;

use crate::error::IndexError;
use crate::index::{probe_limit, insert_all, insert_spec, lemma_walk_same_slots, lookup, same_slots, walk, first_free};
use crate::layout::{
    capacity_for, committed, fresh_image, has_preamble, layout_fits, lemma_committed,
    lemma_fresh_free, lemma_with_entry, padded, preamble, slot_used, spec_from_file, Layout,
    BITSET_OFFSET,
};
use crate::probe::{prefix_of, probe_slot};

verus! {

/// The capacity for `n` items is `n + n / 2`: at least one and a half slots
/// per item, so that at most two thirds of the slots are ever used.
pub proof fn capacity_law(n: nat)
    requires
        layout_fits(capacity_for(n)),
    ensures
        Layout::spec_from_capacity(capacity_for(n)).capacity == n + n / 2,
        2 * capacity_for(n) + 1 >= 3 * n,
{
}

/// For any positive capacity the regions follow each other in order, each
/// starting on an eight-byte boundary.
pub proof fn layout_order(cap: nat)
    requires
        layout_fits(cap),
        cap >= 1,
    ensures
        ({
            let l = Layout::spec_from_capacity(cap);
            &&& BITSET_OFFSET < l.hash1_offset
            &&& l.hash1_offset < l.hash2_offset
            &&& l.hash2_offset < l.hash3_offset
            &&& l.hash3_offset < l.value_offset
            &&& l.value_offset < l.min_file_size
            &&& BITSET_OFFSET % 8 == 0
            &&& l.hash1_offset % 8 == 0
            &&& l.hash2_offset % 8 == 0
            &&& l.hash3_offset % 8 == 0
            &&& l.value_offset % 8 == 0
            &&& l.min_file_size % 8 == 0
        }),
{
    assert((((cap + 7) / 8 + 7) / 8) * 8 >= 8);
    assert(((((cap + 7) / 8 + 7) / 8) * 8) % 8 == 0) by (nonlinear_arith);
}

/// Inserting entries into a new file never writes its header.
proof fn lemma_header_kept(cap: nat, block_size: u64, es: Seq<(Seq<u8>, u64)>)
    requires
        layout_fits(cap),
    ensures
        insert_all(Layout::spec_from_capacity(cap), fresh_image(cap, block_size), es) matches Some(img)
            ==> img.len() == fresh_image(cap, block_size).len()
            && img.subrange(0, BITSET_OFFSET as int)
                == fresh_image(cap, block_size).subrange(0, BITSET_OFFSET as int),
    decreases es.len(),
{
    let l = Layout::spec_from_capacity(cap);
    let f = fresh_image(cap, block_size);
    if cap > 0 {
        lemma_fresh_free(cap, block_size, 0);
    }
    if es.len() > 0 {
        lemma_header_kept(cap, block_size, es.drop_last());
        if let Some(prev) = insert_all(l, f, es.drop_last()) {
            let d = es.last().0;
            if let Some(j) = first_free(l, prev, d, 0) {
                lemma_first_free_bound(l, prev, d, 0);
                let s = probe_slot(prefix_of(d), cap, j);
                lemma_with_entry(l, prev, s, d, es.last().1);
                assert(prev.subrange(0, BITSET_OFFSET as int) =~= f.subrange(0, BITSET_OFFSET as int));
            }
        }
    }
}

proof fn lemma_first_free_bound(l: Layout, img: Seq<u8>, d: Seq<u8>, from: nat)
    ensures
        first_free(l, img, d, from) matches Some(j) ==> from <= j && l.capacity > 0,
    decreases probe_limit(l.capacity as nat) - from,
{
    if l.capacity > 0 && from < probe_limit(l.capacity as nat) {
        lemma_first_free_bound(l, img, d, from + 1);
    }
}

/// A file to which entries were added but whose build was never finished
/// does not open: it has no commit marker.
pub proof fn uncommitted_is_rejected(n: nat, block_size: u64, es: Seq<(Seq<u8>, u64)>)
    requires
        layout_fits(capacity_for(n)),
    ensures
        insert_all(Layout::spec_from_capacity(capacity_for(n)), fresh_image(capacity_for(n), block_size), es)
            matches Some(img) ==> spec_from_file(img) == Err::<Layout, IndexError>(IndexError::CorruptIndex),
{
    let cap = capacity_for(n);
    let f = fresh_image(cap, block_size);
    lemma_header_kept(cap, block_size, es);
    if let Some(img) = insert_all(Layout::spec_from_capacity(cap), f, es) {
        assert(img.subrange(0, BITSET_OFFSET as int)[0] == f[0]);
        assert(f[0] == 0u8) by {
            vstd::bytes::lemma_auto_spec_u64_to_from_le_bytes();
            assert(vstd::bytes::spec_u64_to_le_bytes(block_size).len() == 8);
            assert(vstd::bytes::spec_u64_to_le_bytes(cap as u64).len() == 8);
        }
        if has_preamble(img) {
            assert(img.subrange(0, 48)[0] == preamble()[0]);
        }
    }
}

/// Inserting one entry into a new index, committing it and looking up its
/// digest yields its value and nothing else, unless the probe walk of the
/// digest comes back to its first slot at once.
pub proof fn round_trip(n: nat, block_size: u64, d: Seq<u8>, v: u64)
    requires
        layout_fits(capacity_for(n)),
        n >= 1,
        d.len() == 20,
        probe_slot(prefix_of(d), capacity_for(n), 1) != probe_slot(prefix_of(d), capacity_for(n), 0),
    ensures
        ({
            let l = Layout::spec_from_capacity(capacity_for(n));
            let f = fresh_image(capacity_for(n), block_size);
            &&& insert_spec(l, f, d, v) is Some
            &&& spec_from_file(committed(insert_spec(l, f, d, v)->Some_0)) == Ok::<Layout, IndexError>(l)
            &&& lookup(l, committed(insert_spec(l, f, d, v)->Some_0), d) == seq![v]
        }),
{
    let cap = capacity_for(n);
    let l = Layout::spec_from_capacity(cap);
    let f = fresh_image(cap, block_size);
    let p0 = prefix_of(d);
    let s0 = probe_slot(p0, cap, 0);
    let s1 = probe_slot(p0, cap, 1);
    lemma_fresh_free(cap, block_size, s0);
    lemma_fresh_free(cap, block_size, s1);
    assert(first_free(l, f, d, 0) == Some(0nat));
    let img = l.with_entry(f, s0, d, v);
    lemma_with_entry(l, f, s0, d, v);
    lemma_commit_same(l, img);
    lemma_opens(cap, block_size, img);
    lemma_walk_same_slots(l, committed(img), img, d, 0);
    assert(walk(l, img, d, 1) == Seq::<u64>::empty());
    assert(lookup(l, img, d) =~= seq![v]);
}

proof fn lemma_commit_same(l: Layout, img: Seq<u8>)
    requires
        l.holds(img),
    ensures
        same_slots(l, committed(img), img),
{
    lemma_committed(l, img);
}

/// A committed image whose header is that of a new file opens with its layout.
proof fn lemma_opens(cap: nat, block_size: u64, img: Seq<u8>)
    requires
        layout_fits(cap),
        img.len() == fresh_image(cap, block_size).len(),
        img.subrange(0, BITSET_OFFSET as int) == fresh_image(cap, block_size).subrange(0, BITSET_OFFSET as int),
    ensures
        spec_from_file(committed(img)) == Ok::<Layout, IndexError>(Layout::spec_from_capacity(cap)),
{
    let c = committed(img);
    let f = fresh_image(cap, block_size);
    vstd::bytes::lemma_auto_spec_u64_to_from_le_bytes();
    assert(vstd::bytes::spec_u64_to_le_bytes(block_size).len() == 8);
    assert(vstd::bytes::spec_u64_to_le_bytes(cap as u64).len() == 8);
    assert(c.subrange(0, 48) =~= preamble());
    assert forall|x: int| 56 <= x < 64 implies c[x] == f[x] by {
        assert(img.subrange(0, BITSET_OFFSET as int)[x] == img[x]);
        assert(f.subrange(0, BITSET_OFFSET as int)[x] == f[x]);
    }
    assert(c.subrange(56, 64) =~= f.subrange(56, 64));
    assert(img.subrange(0, BITSET_OFFSET as int).subrange(56, 64) == img.subrange(56, 64));
    assert(f.subrange(56, 64) =~= vstd::bytes::spec_u64_to_le_bytes(cap as u64));
}

/// Inserting one digest twice, with two values, into a new index for at least
/// two items, and looking it up after the commit yields both values in insertion order, each once, unless the first
/// three steps of its probe walk do not reach three distinct slots.
pub proof fn duplicate_content(n: nat, block_size: u64, d: Seq<u8>, v1: u64, v2: u64)
    requires
        layout_fits(capacity_for(n)),
        n >= 2,
        d.len() == 20,
        probe_slot(prefix_of(d), capacity_for(n), 1) != probe_slot(prefix_of(d), capacity_for(n), 0),
        probe_slot(prefix_of(d), capacity_for(n), 2) != probe_slot(prefix_of(d), capacity_for(n), 0),
        probe_slot(prefix_of(d), capacity_for(n), 2) != probe_slot(prefix_of(d), capacity_for(n), 1),
    ensures
        ({
            let l = Layout::spec_from_capacity(capacity_for(n));
            let f = fresh_image(capacity_for(n), block_size);
            &&& insert_spec(l, f, d, v1) is Some
            &&& insert_spec(l, insert_spec(l, f, d, v1)->Some_0, d, v2) is Some
            &&& lookup(l, committed(insert_spec(l, insert_spec(l, f, d, v1)->Some_0, d, v2)->Some_0), d)
                == seq![v1, v2]
        }),
{
    let cap = capacity_for(n);
    let l = Layout::spec_from_capacity(cap);
    let f = fresh_image(cap, block_size);
    let p0 = prefix_of(d);
    let s0 = probe_slot(p0, cap, 0);
    let s1 = probe_slot(p0, cap, 1);
    let s2 = probe_slot(p0, cap, 2);
    lemma_fresh_free(cap, block_size, s0);
    lemma_fresh_free(cap, block_size, s1);
    lemma_fresh_free(cap, block_size, s2);
    assert(first_free(l, f, d, 0) == Some(0nat));
    let img1 = l.with_entry(f, s0, d, v1);
    lemma_with_entry(l, f, s0, d, v1);
    assert(first_free(l, img1, d, 1) == Some(1nat));
    assert(first_free(l, img1, d, 0) == Some(1nat));
    let img2 = l.with_entry(img1, s1, d, v2);
    lemma_with_entry(l, img1, s1, d, v2);
    lemma_commit_same(l, img2);
    lemma_walk_same_slots(l, committed(img2), img2, d, 0);
    assert(walk(l, img2, d, 2) == Seq::<u64>::empty());
    assert(walk(l, img2, d, 1) =~= seq![v2]);
    assert(lookup(l, img2, d) =~= seq![v1, v2]);
}

} // verus!
