//! The on-disk layout of an index file and the views of its slots.
use vstd::prelude::*;
use vstd::bytes::*;

use crate::error::IndexError;

verus! {

/// Byte offset of the filesystem block size in the header.
pub const BLOCK_SIZE_OFFSET: usize = 48;

/// Byte offset of the slot capacity in the header.
pub const CAPACITY_OFFSET: usize = 56;

/// Byte offset of the presence bitset, right after the header.
pub const BITSET_OFFSET: usize = 64;

/// Length of the format marker at the start of the file.
pub const PREAMBLE_SIZE: usize = 48;

/// Width of every word stored in the file.
pub const U64_SIZE: usize = 8;

/// The format marker: "INDEX / dmcache-recovery\n" padded with zero bytes.
pub open spec fn preamble() -> Seq<u8> {
    seq![73u8, 78, 68, 69, 88, 32, 47, 32, 100, 109, 99, 97, 99, 104, 101, 45,
        114, 101, 99, 111, 118, 101, 114, 121, 10].add(Seq::new(23, |i: int| 0u8))
}

/// Slot capacity of an index meant to hold `n` items.
pub open spec fn capacity_for(n: nat) -> nat {
    n + n / 2
}

/// Bytes taken by the presence bitset: one bit per slot, padded to 8 bytes.
pub open spec fn bitset_len(cap: nat) -> nat {
    (((cap + 7) / 8 + 7) / 8) * 8
}

pub open spec fn hash1_of(cap: nat) -> nat {
    BITSET_OFFSET as nat + bitset_len(cap)
}

pub open spec fn hash2_of(cap: nat) -> nat {
    hash1_of(cap) + 8 * cap
}

pub open spec fn hash3_of(cap: nat) -> nat {
    hash2_of(cap) + 8 * cap
}

pub open spec fn value_of(cap: nat) -> nat {
    hash3_of(cap) + 8 * cap
}

pub open spec fn min_size_of(cap: nat) -> nat {
    value_of(cap) + 8 * cap
}

/// Whether the layout of `cap` slots can be addressed on this machine.
pub open spec fn layout_fits(cap: nat) -> bool {
    min_size_of(cap) <= usize::MAX
}


/// The bit of slot `i` within its byte of the bitset (most significant first).
pub open spec fn bit_mask(i: nat) -> u8 {
    0x80u8 >> ((i % 8) as u8)
}

/// Whether slot `i` holds an entry.
pub open spec fn slot_used(img: Seq<u8>, i: nat) -> bool {
    img[BITSET_OFFSET + i / 8] & bit_mask(i) != 0
}

/// The eight bytes of `s` from `start` on, zero past its end.
pub open spec fn word_of(s: Seq<u8>, start: int) -> Seq<u8> {
    Seq::new(8, |j: int| if 0 <= start + j < s.len() { s[start + j] } else { 0u8 })
}

/// A digest as stored in the three hash words of a slot.
pub open spec fn padded(d: Seq<u8>) -> Seq<u8> {
    word_of(d, 0) + word_of(d, 8) + word_of(d, 16)
}

/// `img` with the bytes from `at` on replaced by `w`.
pub open spec fn overwrite(img: Seq<u8>, at: int, w: Seq<u8>) -> Seq<u8> {
    Seq::new(img.len(), |x: int| if at <= x < at + w.len() { w[x - at] } else { img[x] })
}

/// The little-endian word at `at`.
pub open spec fn header_word(img: Seq<u8>, at: int) -> u64 {
    spec_u64_from_le_bytes(img.subrange(at, at + 8))
}

/// `img` with the format marker written.
pub open spec fn committed(img: Seq<u8>) -> Seq<u8> {
    overwrite(img, 0, preamble())
}

/// A new index file of `cap` slots, all free, for blocks of `block_size` bytes.
pub open spec fn fresh_image(cap: nat, block_size: u64) -> Seq<u8> {
    let zeros = Seq::new(min_size_of(cap), |i: int| 0u8);
    let sized = overwrite(zeros, BLOCK_SIZE_OFFSET as int, spec_u64_to_le_bytes(block_size));
    overwrite(sized, CAPACITY_OFFSET as int, spec_u64_to_le_bytes(cap as u64))
}

/// Whether the marker at the start of `img` is the format marker.
pub open spec fn has_preamble(img: Seq<u8>) -> bool {
    img.len() >= PREAMBLE_SIZE && img.subrange(0, PREAMBLE_SIZE as int) == preamble()
}

/// What opening `img` gives: the layout its header declares, or why it is refused.
pub open spec fn spec_from_file(img: Seq<u8>) -> Result<Layout, IndexError> {
    if !has_preamble(img) {
        Err(IndexError::CorruptIndex)
    } else if img.len() < BITSET_OFFSET {
        Err(IndexError::TruncatedIndex)
    } else {
        let cap = header_word(img, CAPACITY_OFFSET as int) as nat;
        if min_size_of(cap) <= img.len() {
            Ok(Layout::spec_from_capacity(cap))
        } else {
            Err(IndexError::TruncatedIndex)
        }
    }
}

/// Where each region of an index file starts, for a given capacity.
pub struct Layout {
    pub capacity: usize,
    pub hash1_offset: usize,
    pub hash2_offset: usize,
    pub hash3_offset: usize,
    pub value_offset: usize,
    pub min_file_size: usize,
}

impl Layout {
    /// The layout of `cap` slots.
    pub open spec fn spec_from_capacity(cap: nat) -> Layout {
        Layout {
            capacity: cap as usize,
            hash1_offset: hash1_of(cap) as usize,
            hash2_offset: hash2_of(cap) as usize,
            hash3_offset: hash3_of(cap) as usize,
            value_offset: value_of(cap) as usize,
            min_file_size: min_size_of(cap) as usize,
        }
    }

    pub open spec fn wf(&self) -> bool {
        &&& layout_fits(self.capacity as nat)
        &&& *self == Layout::spec_from_capacity(self.capacity as nat)
    }

    /// Creates a layout for the given amount of items.
    pub fn from_item_count(item_count: usize) -> (r: Layout)
        requires
            layout_fits(capacity_for(item_count as nat)),
        ensures
            r == Layout::spec_from_capacity(capacity_for(item_count as nat)),
            r.wf(),
    {
        Layout::from_capacity(item_count + item_count / 2)
    }

    /// Creates the layout with the given capacity.
    pub fn from_capacity(capacity: usize) -> (r: Layout)
        requires
            layout_fits(capacity as nat),
        ensures
            r == Layout::spec_from_capacity(capacity as nat),
            r.wf(),
    {
        let bitset = ((capacity + 7) / 8 + 7) / 8 * 8;
        let hash1_offset = BITSET_OFFSET + bitset;
        let hash2_offset = hash1_offset + U64_SIZE * capacity;
        let hash3_offset = hash2_offset + U64_SIZE * capacity;
        let value_offset = hash3_offset + U64_SIZE * capacity;
        let min_file_size = value_offset + U64_SIZE * capacity;
        Layout { capacity, hash1_offset, hash2_offset, hash3_offset, value_offset, min_file_size }
    }

    /// The three hash words of slot `i`.
    pub open spec fn slot_hash(&self, img: Seq<u8>, i: nat) -> Seq<u8> {
        img.subrange(self.hash1_offset + 8 * i, self.hash1_offset + 8 * i + 8)
            + img.subrange(self.hash2_offset + 8 * i, self.hash2_offset + 8 * i + 8)
            + img.subrange(self.hash3_offset + 8 * i, self.hash3_offset + 8 * i + 8)
    }

    /// The value word of slot `i`.
    pub open spec fn slot_value(&self, img: Seq<u8>, i: nat) -> u64 {
        header_word(img, self.value_offset + 8 * i)
    }

    /// `img` with the entry `(d, v)` stored in slot `i` and the slot marked used.
    pub open spec fn with_entry(&self, img: Seq<u8>, i: nat, d: Seq<u8>, v: u64) -> Seq<u8> {
        let at = BITSET_OFFSET + i / 8;
        let marked = img.update(at, img[at] | bit_mask(i));
        let w1 = overwrite(marked, self.hash1_offset + 8 * i, word_of(d, 0));
        let w2 = overwrite(w1, self.hash2_offset + 8 * i, word_of(d, 8));
        let w3 = overwrite(w2, self.hash3_offset + 8 * i, word_of(d, 16));
        overwrite(w3, self.value_offset + 8 * i, spec_u64_to_le_bytes(v))
    }

    /// The image of a file laid out by `self`.
    pub open spec fn holds(&self, img: Seq<u8>) -> bool {
        &&& self.wf()
        &&& img.len() >= self.min_file_size
    }

    pub fn is_used(&self, mmap: &[u8], index: usize) -> (r: bool)
        requires
            self.holds(mmap@),
            index < self.capacity,
        ensures
            r == slot_used(mmap@, index as nat),
    {
        proof { lemma_slot_bounds(*self, index as nat); }
        let byte_offset = BITSET_OFFSET + index / 8;
        let bitmask: u8 = 0x80u8 >> ((index % 8) as u8);
        (mmap[byte_offset] & bitmask) != 0
    }

    pub fn set_used(&self, mmap: &mut Vec<u8>, index: usize)
        requires
            self.holds(old(mmap)@),
            index < self.capacity,
        ensures
            final(mmap)@ == old(mmap)@.update(
                BITSET_OFFSET + index / 8,
                old(mmap)@[BITSET_OFFSET + index / 8] | bit_mask(index as nat),
            ),
    {
        proof { lemma_slot_bounds(*self, index as nat); }
        let byte_offset = BITSET_OFFSET + index / 8;
        let bitmask: u8 = 0x80u8 >> ((index % 8) as u8);
        let byte = mmap[byte_offset] | bitmask;
        mmap[byte_offset] = byte;
    }

    /// Stores the entry `(hash, value)` in the free slot `index`.
    pub fn set_entry(&self, mmap: &mut Vec<u8>, index: usize, hash: &[u8], value: u64)
        requires
            self.holds(old(mmap)@),
            index < self.capacity,
            !slot_used(old(mmap)@, index as nat),
        ensures
            final(mmap)@ == self.with_entry(old(mmap)@, index as nat, hash@, value),
    {
        proof { lemma_slot_bounds(*self, index as nat); }
        let inner_offset = U64_SIZE * index;
        self.set_used(mmap, index);
        write_bytes(hash, 0, mmap, self.hash1_offset + inner_offset);
        write_bytes(hash, 8, mmap, self.hash2_offset + inner_offset);
        write_bytes(hash, 16, mmap, self.hash3_offset + inner_offset);
        let bytes = u64_to_le_bytes(value);
        put_bytes(mmap, self.value_offset + inner_offset, bytes.as_slice());
    }

    /// The first hash word of slot `index`. Hash words hold digest bytes
    /// verbatim; they are read little-endian here and only ever compared.
    pub fn get_hash1(&self, mmap: &[u8], index: usize) -> (r: u64)
        requires
            self.holds(mmap@),
            index < self.capacity,
        ensures
            r == header_word(mmap@, self.hash1_offset + 8 * index),
    {
        proof { lemma_slot_bounds(*self, index as nat); }
        let offset = self.hash1_offset + U64_SIZE * index;
        u64_from_le_bytes(&mmap[offset..offset + U64_SIZE])
    }

    /// The second hash word of slot `index`.
    pub fn get_hash2(&self, mmap: &[u8], index: usize) -> (r: u64)
        requires
            self.holds(mmap@),
            index < self.capacity,
        ensures
            r == header_word(mmap@, self.hash2_offset + 8 * index),
    {
        proof { lemma_slot_bounds(*self, index as nat); }
        let offset = self.hash2_offset + U64_SIZE * index;
        u64_from_le_bytes(&mmap[offset..offset + U64_SIZE])
    }

    /// The third hash word of slot `index`: digest bytes past the twentieth are zero.
    pub fn get_hash3(&self, mmap: &[u8], index: usize) -> (r: u64)
        requires
            self.holds(mmap@),
            index < self.capacity,
        ensures
            r == header_word(mmap@, self.hash3_offset + 8 * index),
    {
        proof { lemma_slot_bounds(*self, index as nat); }
        let offset = self.hash3_offset + U64_SIZE * index;
        u64_from_le_bytes(&mmap[offset..offset + U64_SIZE])
    }

    /// The value word of slot `index`, little-endian.
    pub fn get_value(&self, mmap: &[u8], index: usize) -> (r: u64)
        requires
            self.holds(mmap@),
            index < self.capacity,
        ensures
            r == self.slot_value(mmap@, index as nat),
    {
        proof { lemma_slot_bounds(*self, index as nat); }
        let offset = self.value_offset + U64_SIZE * index;
        u64_from_le_bytes(&mmap[offset..offset + U64_SIZE])
    }

    /// Creates a layout from the given content of a file.
    pub fn from_file(mmap: &[u8]) -> (r: Result<Layout, IndexError>)
        ensures
            r == spec_from_file(mmap@),
            r is Ok ==> r->Ok_0.wf(),
    {
        Layout::check_preamble(mmap)?;
        if mmap.len() < BITSET_OFFSET {
            return Err(IndexError::TruncatedIndex);
        }
        let capacity = Layout::get_capacity(mmap);
        if required_size(capacity) > mmap.len() as u128 {
            return Err(IndexError::TruncatedIndex);
        }
        let layout = Layout::from_capacity(capacity as usize);
        if mmap.len() < layout.min_file_size {
            Err(IndexError::TruncatedIndex)
        } else {
            Ok(layout)
        }
    }

    pub fn check_preamble(mmap: &[u8]) -> (r: Result<(), IndexError>)
        ensures
            r is Ok <==> has_preamble(mmap@),
            r is Err ==> r == Err::<(), IndexError>(IndexError::CorruptIndex),
    {
        if mmap.len() < PREAMBLE_SIZE {
            return Err(IndexError::CorruptIndex);
        }
        let marker = preamble_bytes();
        let mut i: usize = 0;
        while i < PREAMBLE_SIZE
            invariant
                mmap@.len() >= PREAMBLE_SIZE,
                marker@ == preamble(),
                i <= PREAMBLE_SIZE,
                forall|j: int| 0 <= j < i ==> mmap@[j] == preamble()[j],
            decreases PREAMBLE_SIZE - i,
        {
            if mmap[i] != marker[i] {
                return Err(IndexError::CorruptIndex);
            }
            i = i + 1;
        }
        assert(mmap@.subrange(0, PREAMBLE_SIZE as int) =~= preamble());
        Ok(())
    }

    pub fn set_preamble(mmap: &mut Vec<u8>)
        requires
            old(mmap)@.len() >= PREAMBLE_SIZE,
        ensures
            final(mmap)@ == committed(old(mmap)@),
    {
        let marker = preamble_bytes();
        put_bytes(mmap, 0, marker.as_slice());
    }

    pub fn get_block_size(mmap: &[u8]) -> (r: u64)
        requires
            mmap@.len() >= BITSET_OFFSET,
        ensures
            r == header_word(mmap@, BLOCK_SIZE_OFFSET as int),
    {
        u64_from_le_bytes(&mmap[BLOCK_SIZE_OFFSET..CAPACITY_OFFSET])
    }

    pub fn set_block_size(mmap: &mut Vec<u8>, block_size: u64)
        requires
            old(mmap)@.len() >= BITSET_OFFSET,
        ensures
            final(mmap)@ == overwrite(old(mmap)@, BLOCK_SIZE_OFFSET as int, spec_u64_to_le_bytes(block_size)),
    {
        let bytes = u64_to_le_bytes(block_size);
        put_bytes(mmap, BLOCK_SIZE_OFFSET, bytes.as_slice());
    }

    pub fn get_capacity(mmap: &[u8]) -> (r: u64)
        requires
            mmap@.len() >= BITSET_OFFSET,
        ensures
            r == header_word(mmap@, CAPACITY_OFFSET as int),
    {
        u64_from_le_bytes(&mmap[CAPACITY_OFFSET..BITSET_OFFSET])
    }

    pub fn set_capacity(&self, mmap: &mut Vec<u8>)
        requires
            old(mmap)@.len() >= BITSET_OFFSET,
        ensures
            final(mmap)@ == overwrite(old(mmap)@, CAPACITY_OFFSET as int, spec_u64_to_le_bytes(self.capacity as u64)),
    {
        let bytes = u64_to_le_bytes(self.capacity as u64);
        put_bytes(mmap, CAPACITY_OFFSET, bytes.as_slice());
    }
}

/// Where the bit and the words of slot `i` lie: each inside its own region.
pub proof fn lemma_slot_bounds(l: Layout, i: nat)
    requires
        l.wf(),
        i < l.capacity,
    ensures
        BITSET_OFFSET + i / 8 < l.hash1_offset,
        l.hash1_offset + 8 * i + 8 <= l.hash2_offset,
        l.hash2_offset + 8 * i + 8 <= l.hash3_offset,
        l.hash3_offset + 8 * i + 8 <= l.value_offset,
        l.value_offset + 8 * i + 8 <= l.min_file_size,
{
    let cap = l.capacity as nat;
    assert((cap + 7) / 8 >= i / 8 + 1);
    assert((((cap + 7) / 8 + 7) / 8) * 8 >= (cap + 7) / 8);
}

proof fn lemma_mask_bits(b: u8, a: u8, c: u8)
    by (bit_vector)
    requires
        a < 8,
        c < 8,
    ensures
        (b | (0x80u8 >> a)) & (0x80u8 >> a) != 0,
        a != c ==> (b | (0x80u8 >> a)) & (0x80u8 >> c) == b & (0x80u8 >> c),
        0u8 & (0x80u8 >> c) == 0,
{
}

/// What storing an entry in slot `i` changes: that slot, and nothing else.
pub proof fn lemma_with_entry(l: Layout, img: Seq<u8>, i: nat, d: Seq<u8>, v: u64)
    requires
        l.holds(img),
        i < l.capacity,
    ensures
        l.with_entry(img, i, d, v).len() == img.len(),
        l.with_entry(img, i, d, v).subrange(0, BITSET_OFFSET as int) == img.subrange(0, BITSET_OFFSET as int),
        slot_used(l.with_entry(img, i, d, v), i),
        l.slot_hash(l.with_entry(img, i, d, v), i) == padded(d),
        l.slot_value(l.with_entry(img, i, d, v), i) == v,
        forall|k: nat| k < l.capacity && k != i ==>
            slot_used(#[trigger] l.with_entry(img, i, d, v), k) == slot_used(img, k),
        forall|k: nat| k < l.capacity && k != i ==>
            #[trigger] l.slot_hash(l.with_entry(img, i, d, v), k) == l.slot_hash(img, k),
        forall|k: nat| k < l.capacity && k != i ==>
            #[trigger] l.slot_value(l.with_entry(img, i, d, v), k) == l.slot_value(img, k),
{
    let n = l.with_entry(img, i, d, v);
    lemma_slot_bounds(l, i);
    assert(n.subrange(0, BITSET_OFFSET as int) =~= img.subrange(0, BITSET_OFFSET as int));
    let at = BITSET_OFFSET + i / 8;
    lemma_mask_bits(img[at], (i % 8) as u8, (i % 8) as u8);
    assert(l.slot_hash(n, i) =~= padded(d));
    lemma_auto_spec_u64_to_from_le_bytes();
    assert(spec_u64_to_le_bytes(v).len() == 8);
    assert(n.subrange(l.value_offset + 8 * i, l.value_offset + 8 * i + 8) =~= spec_u64_to_le_bytes(v));
    assert forall|k: nat| k < l.capacity && k != i implies
        slot_used(#[trigger] l.with_entry(img, i, d, v), k) == slot_used(img, k) by {
        lemma_slot_bounds(l, k);
        let bk = BITSET_OFFSET + k / 8;
        if k / 8 == i / 8 {
            lemma_mask_bits(img[at], (i % 8) as u8, (k % 8) as u8);
        }
    }
    assert forall|k: nat| k < l.capacity && k != i implies
        #[trigger] l.slot_hash(l.with_entry(img, i, d, v), k) == l.slot_hash(img, k) by {
        lemma_slot_bounds(l, k);
        assert(l.slot_hash(n, k) =~= l.slot_hash(img, k));
    }
    assert forall|k: nat| k < l.capacity && k != i implies
        #[trigger] l.slot_value(l.with_entry(img, i, d, v), k) == l.slot_value(img, k) by {
        lemma_slot_bounds(l, k);
        assert(n.subrange(l.value_offset + 8 * k, l.value_offset + 8 * k + 8)
            =~= img.subrange(l.value_offset + 8 * k, l.value_offset + 8 * k + 8));
    }
}

/// Writing the format marker leaves every slot as it was.
pub proof fn lemma_committed(l: Layout, img: Seq<u8>)
    requires
        l.holds(img),
    ensures
        committed(img).len() == img.len(),
        forall|k: nat| k < l.capacity ==> slot_used(#[trigger] committed(img), k) == slot_used(img, k),
        forall|k: nat| k < l.capacity ==> #[trigger] l.slot_hash(committed(img), k) == l.slot_hash(img, k),
        forall|k: nat| k < l.capacity ==> #[trigger] l.slot_value(committed(img), k) == l.slot_value(img, k),
{
    let n = committed(img);
    assert forall|k: nat| k < l.capacity implies #[trigger] l.slot_hash(committed(img), k) == l.slot_hash(img, k) by {
        lemma_slot_bounds(l, k);
        assert(l.slot_hash(n, k) =~= l.slot_hash(img, k));
    }
    assert forall|k: nat| k < l.capacity implies #[trigger] l.slot_value(committed(img), k) == l.slot_value(img, k) by {
        lemma_slot_bounds(l, k);
        assert(n.subrange(l.value_offset + 8 * k, l.value_offset + 8 * k + 8)
            =~= img.subrange(l.value_offset + 8 * k, l.value_offset + 8 * k + 8));
    }
    assert forall|k: nat| k < l.capacity implies slot_used(#[trigger] committed(img), k) == slot_used(img, k) by {
        lemma_slot_bounds(l, k);
    }
}

/// In a new index file every slot is free.
pub proof fn lemma_fresh_free(cap: nat, block_size: u64, k: nat)
    requires
        layout_fits(cap),
        k < cap,
    ensures
        Layout::spec_from_capacity(cap).holds(fresh_image(cap, block_size)),
        !slot_used(fresh_image(cap, block_size), k),
{
    let l = Layout::spec_from_capacity(cap);
    lemma_slot_bounds(l, k);
    lemma_auto_spec_u64_to_from_le_bytes();
    assert(spec_u64_to_le_bytes(block_size).len() == 8);
    assert(spec_u64_to_le_bytes(cap as u64).len() == 8);
    assert(fresh_image(cap, block_size)[BITSET_OFFSET + k / 8] == 0u8);
    lemma_mask_bits(0u8, 0u8, (k % 8) as u8);
}

/// Whether an index for `item_count` entries can be addressed on this machine.
pub fn item_count_fits(item_count: usize) -> (r: bool)
    ensures
        r == layout_fits(capacity_for(item_count as nat)),
{
    let n = item_count as u128;
    let cap = n + n / 2;
    let bitset = ((cap + 7) / 8 + 7) / 8 * 8;
    64 + bitset + 32 * cap <= usize::MAX as u128
}

/// The file size that a layout of `capacity` slots needs.
fn required_size(capacity: u64) -> (r: u128)
    ensures
        r == min_size_of(capacity as nat),
{
    let cap = capacity as u128;
    let bitset = ((cap + 7) / 8 + 7) / 8 * 8;
    64 + bitset + 32 * cap
}

/// The format marker, as bytes.
fn preamble_bytes() -> (r: Vec<u8>)
    ensures
        r@ == preamble(),
{
    let mut r: Vec<u8> = vec![73u8, 78, 68, 69, 88, 32, 47, 32, 100, 109, 99, 97, 99, 104, 101, 45,
        114, 101, 99, 111, 118, 101, 114, 121, 10];
    let mut i: usize = 0;
    while i < 23
        invariant
            i <= 23,
            r@ =~= seq![73u8, 78, 68, 69, 88, 32, 47, 32, 100, 109, 99, 97, 99, 104, 101, 45,
                114, 101, 99, 111, 118, 101, 114, 121, 10].add(Seq::new(i as nat, |k: int| 0u8)),
        decreases 23 - i,
    {
        r.push(0);
        i = i + 1;
    }
    assert(r@ =~= preamble());
    r
}

/// Copies `src` into `dest` from `at` on.
fn put_bytes(dest: &mut Vec<u8>, at: usize, src: &[u8])
    requires
        at + src@.len() <= old(dest)@.len(),
    ensures
        final(dest)@ == overwrite(old(dest)@, at as int, src@),
{
    let n = dest.len();
    let mut j: usize = 0;
    while j < src.len()
        invariant
            dest@.len() == n,
            at + src@.len() <= dest@.len(),
            j <= src@.len(),
            dest@ =~= overwrite(old(dest)@, at as int, src@.subrange(0, j as int)),
        decreases src@.len() - j,
    {
        dest[at + j] = src[j];
        j = j + 1;
        assert(dest@ =~= overwrite(old(dest)@, at as int, src@.subrange(0, j as int)));
    }
    assert(src@.subrange(0, j as int) =~= src@);
}

/// Writes the eight bytes of `src` from `start` on into `dest` at `at`,
/// zero past the end of `src`.
pub fn write_bytes(src: &[u8], start: usize, dest: &mut Vec<u8>, at: usize)
    requires
        at + 8 <= old(dest)@.len(),
    ensures
        final(dest)@ == overwrite(old(dest)@, at as int, word_of(src@, start as int)),
{
    let n = dest.len();
    let mut j: usize = 0;
    while j < 8
        invariant
            dest@.len() == n,
            at + 8 <= dest@.len(),
            j <= 8,
            dest@ =~= overwrite(old(dest)@, at as int, word_of(src@, start as int).subrange(0, j as int)),
        decreases 8 - j,
    {
        let b: u8 = if start < src.len() && j < src.len() - start { src[start + j] } else { 0 };
        dest[at + j] = b;
        j = j + 1;
        assert(dest@ =~= overwrite(old(dest)@, at as int, word_of(src@, start as int).subrange(0, j as int)));
    }
    assert(word_of(src@, start as int).subrange(0, 8) =~= word_of(src@, start as int));
}

} // verus!
