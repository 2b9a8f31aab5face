//! The persistent hash index: building it and querying it.
use vstd::prelude::*;
use vstd::bytes::*;

use crate::digest::DIGEST_LEN;
use crate::error::IndexError;
use crate::layout::{
    committed, fresh_image, header_word, layout_fits, padded, slot_used,
    spec_from_file, word_of, write_bytes, Layout, BLOCK_SIZE_OFFSET,
};
use crate::layout::{capacity_for, lemma_slot_bounds, lemma_with_entry};
use crate::probe::{prefix_of, probe_slot, read_hash_indices};

verus! {

/// Steps that a probe walk takes beyond the capacity before it gives up: with
/// them the 128-bit multiplier wraps around, which varies the walk even where
/// 31 is one modulo the capacity.
pub const PROBE_SLACK: usize = 64;

/// How many steps a probe walk over `cap` slots takes at most.
pub open spec fn probe_limit(cap: nat) -> nat {
    cap + PROBE_SLACK as nat
}

/// The values stored for digest `d`, walking its probe sequence from step
/// `from` until the first free slot or until `probe_limit` steps are taken.
pub open spec fn walk(l: Layout, img: Seq<u8>, d: Seq<u8>, from: nat) -> Seq<u64>
    decreases probe_limit(l.capacity as nat) - from,
{
    if l.capacity == 0 || from >= probe_limit(l.capacity as nat) {
        seq![]
    } else {
        let s = probe_slot(prefix_of(d), l.capacity as nat, from);
        if !slot_used(img, s) {
            seq![]
        } else if l.slot_hash(img, s) == padded(d) {
            seq![l.slot_value(img, s)] + walk(l, img, d, from + 1)
        } else {
            walk(l, img, d, from + 1)
        }
    }
}

/// What a lookup of `d` yields, in order.
pub open spec fn lookup(l: Layout, img: Seq<u8>, d: Seq<u8>) -> Seq<u64> {
    walk(l, img, d, 0)
}

/// The first step, from `from` on and within `probe_limit` steps, whose slot is free.
pub open spec fn first_free(l: Layout, img: Seq<u8>, d: Seq<u8>, from: nat) -> Option<nat>
    decreases probe_limit(l.capacity as nat) - from,
{
    if l.capacity == 0 || from >= probe_limit(l.capacity as nat) {
        None
    } else if !slot_used(img, probe_slot(prefix_of(d), l.capacity as nat, from)) {
        Some(from)
    } else {
        first_free(l, img, d, from + 1)
    }
}

/// The image after inserting `(d, v)`, or `None` where no free slot is reached.
pub open spec fn insert_spec(l: Layout, img: Seq<u8>, d: Seq<u8>, v: u64) -> Option<Seq<u8>> {
    match first_free(l, img, d, 0) {
        Some(j) => Some(l.with_entry(img, probe_slot(prefix_of(d), l.capacity as nat, j), d, v)),
        None => None,
    }
}

/// One entry of an index: the digest of a block and its byte offset on the origin.
pub struct IndexEntry {
    pub digest: [u8; 20],
    pub offset: u64,
}

impl View for IndexEntry {
    type V = (Seq<u8>, u64);

    open spec fn view(&self) -> (Seq<u8>, u64) {
        (self.digest@, self.offset)
    }
}

/// The views of a sequence of entries.
pub open spec fn entries_view(es: Seq<IndexEntry>) -> Seq<(Seq<u8>, u64)> {
    es.map_values(|e: IndexEntry| e@)
}

/// The image after inserting `es` in order, or `None` where one found no free slot.
pub open spec fn insert_all(l: Layout, img: Seq<u8>, es: Seq<(Seq<u8>, u64)>) -> Option<Seq<u8>>
    decreases es.len(),
{
    if es.len() == 0 {
        Some(img)
    } else {
        match insert_all(l, img, es.drop_last()) {
            Some(prev) => insert_spec(l, prev, es.last().0, es.last().1),
            None => None,
        }
    }
}

/// Two images whose slots all agree.
pub open spec fn same_slots(l: Layout, a: Seq<u8>, b: Seq<u8>) -> bool {
    forall|k: nat| k < l.capacity ==> {
        &&& slot_used(a, k) == slot_used(b, k)
        &&& l.slot_hash(a, k) == l.slot_hash(b, k)
        &&& l.slot_value(a, k) == l.slot_value(b, k)
    }
}

/// A lookup sees the slots only.
pub proof fn lemma_walk_same_slots(l: Layout, a: Seq<u8>, b: Seq<u8>, d: Seq<u8>, from: nat)
    requires
        l.wf(),
        same_slots(l, a, b),
    ensures
        walk(l, a, d, from) == walk(l, b, d, from),
        first_free(l, a, d, from) == first_free(l, b, d, from),
    decreases probe_limit(l.capacity as nat) - from,
{
    if l.capacity > 0 && from < probe_limit(l.capacity as nat) {
        let s = probe_slot(prefix_of(d), l.capacity as nat, from);
        assert(s < l.capacity);
        lemma_walk_same_slots(l, a, b, d, from + 1);
    }
}

/// An index file opened for reading.
pub struct Index<'a> {
    mmap: &'a [u8],
    layout: Layout,
    block_size: u64,
}

impl<'a> Index<'a> {
    pub closed spec fn wf(&self) -> bool {
        self.layout.holds(self.mmap@)
    }

    /// The bytes of the file.
    pub closed spec fn file(&self) -> Seq<u8> {
        self.mmap@
    }

    pub closed spec fn layout(&self) -> Layout {
        self.layout
    }

    pub closed spec fn block_size(&self) -> u64 {
        self.block_size
    }

    /// Opens the index held in `mmap`; fails where the marker is wrong or
    /// the file is shorter than its capacity needs.
    pub fn open(mmap: &'a [u8]) -> (r: Result<Index<'a>, IndexError>)
        ensures
            match spec_from_file(mmap@) {
                Ok(l) => {
                    &&& r is Ok
                    &&& r->Ok_0.wf()
                    &&& r->Ok_0.layout() == l
                    &&& r->Ok_0.file() == mmap@
                    &&& r->Ok_0.block_size() == header_word(mmap@, BLOCK_SIZE_OFFSET as int)
                },
                Err(e) => r == Err::<Index<'a>, IndexError>(e),
            },
    {
        let layout = Layout::from_file(mmap)?;
        let block_size = Layout::get_block_size(mmap);
        Ok(Index { mmap, layout, block_size })
    }

    pub fn get_block_size(&self) -> (r: u64)
        ensures
            r == self.block_size(),
    {
        self.block_size
    }

    /// The values stored for `hash`, in probe order.
    pub fn get(&self, hash: &[u8]) -> (r: Vec<u64>)
        requires
            self.wf(),
            hash@.len() == DIGEST_LEN,
        ensures
            r@ == lookup(self.layout(), self.file(), hash@),
            r@.len() <= probe_limit(self.layout().capacity as nat),
    {
        let mut r: Vec<u64> = Vec::new();
        if self.layout.capacity == 0 {
            return r;
        }
        let mut indices = read_hash_indices(&self.layout, hash);
        let limit = self.layout.capacity + PROBE_SLACK;
        let mut step: usize = 0;
        while step < limit
            invariant
                limit == probe_limit(self.layout.capacity as nat),
                self.wf(),
                hash@.len() == DIGEST_LEN,
                indices.wf(),
                indices.start() == prefix_of(hash@),
                indices.capacity() == self.layout.capacity,
                indices.step() == step,
                step <= limit,
                r@.len() <= step,
                r@ + walk(self.layout, self.mmap@, hash@, step as nat)
                    == lookup(self.layout, self.mmap@, hash@),
            decreases limit - step,
        {
            let index = indices.next_index();
            if !self.layout.is_used(self.mmap, index) {
                assert(r@ + seq![] =~= r@);
                return r;
            }
            if self.hash_matches(index, hash) {
                let v = self.layout.get_value(self.mmap, index);
                assert(r@.push(v) + walk(self.layout, self.mmap@, hash@, step as nat + 1)
                    =~= r@ + walk(self.layout, self.mmap@, hash@, step as nat));
                r.push(v);
            }
            step = step + 1;
        }
        assert(r@ + seq![] =~= r@);
        r
    }

    /// Whether slot `index` holds the digest `hash`.
    fn hash_matches(&self, index: usize, hash: &[u8]) -> (r: bool)
        requires
            self.wf(),
            index < self.layout.capacity,
        ensures
            r == (self.layout.slot_hash(self.mmap@, index as nat) == padded(hash@)),
    {
        proof { lemma_slot_bounds(self.layout, index as nat); }
        let l = &self.layout;
        proof {
            let img = self.mmap@;
            let i = index as nat;
            let a = img.subrange(l.hash1_offset + 8 * i, l.hash1_offset + 8 * i + 8);
            let b = img.subrange(l.hash2_offset + 8 * i, l.hash2_offset + 8 * i + 8);
            let c = img.subrange(l.hash3_offset + 8 * i, l.hash3_offset + 8 * i + 8);
            lemma_auto_spec_u64_to_from_le_bytes();
            assert(l.slot_hash(img, i) == a + b + c);
            let p = padded(hash@);
            assert((a + b + c == p) <==> (a == word_of(hash@, 0) && b == word_of(hash@, 8)
                && c == word_of(hash@, 16))) by {
                if a + b + c == p {
                    assert(a =~= p.subrange(0, 8));
                    assert(b =~= p.subrange(8, 16));
                    assert(c =~= p.subrange(16, 24));
                    assert(word_of(hash@, 0) =~= p.subrange(0, 8));
                    assert(word_of(hash@, 8) =~= p.subrange(8, 16));
                    assert(word_of(hash@, 16) =~= p.subrange(16, 24));
                }
            }
            assert(spec_u64_to_le_bytes(spec_u64_from_le_bytes(a)) == a);
            assert(spec_u64_to_le_bytes(spec_u64_from_le_bytes(b)) == b);
            assert(spec_u64_to_le_bytes(spec_u64_from_le_bytes(c)) == c);
            assert(spec_u64_to_le_bytes(spec_u64_from_le_bytes(word_of(hash@, 0))) == word_of(hash@, 0));
            assert(spec_u64_to_le_bytes(spec_u64_from_le_bytes(word_of(hash@, 8))) == word_of(hash@, 8));
            assert(spec_u64_to_le_bytes(spec_u64_from_le_bytes(word_of(hash@, 16))) == word_of(hash@, 16));
        }
        if hash_word(hash, 0) != l.get_hash1(self.mmap, index) {
            return false;
        }
        if hash_word(hash, 8) != l.get_hash2(self.mmap, index) {
            return false;
        }
        if hash_word(hash, 16) != l.get_hash3(self.mmap, index) {
            return false;
        }
        true
    }
}

/// The word of `hash` from byte `start` on, as the index stores it.
fn hash_word(hash: &[u8], start: usize) -> (r: u64)
    ensures
        r == spec_u64_from_le_bytes(word_of(hash@, start as int)),
{
    let mut buf: Vec<u8> = Vec::new();
    let mut j: usize = 0;
    while j < 8
        invariant
            j <= 8,
            buf@.len() == j,
        decreases 8 - j,
    {
        buf.push(0);
        j = j + 1;
    }
    write_bytes(hash, start, &mut buf, 0);
    assert(buf@ =~= word_of(hash@, start as int));
    u64_from_le_bytes(buf.as_slice())
}

/// An index file being built: entries are added, then `finish` commits it.
pub struct IndexBuilder {
    mmap: Vec<u8>,
    layout: Layout,
    closed: bool,
}

impl IndexBuilder {
    pub closed spec fn wf(&self) -> bool {
        &&& self.layout.holds(self.mmap@)
        &&& self.mmap@.len() == self.layout.min_file_size
    }

    /// The bytes of the file so far.
    pub closed spec fn image(&self) -> Seq<u8> {
        self.mmap@
    }

    pub closed spec fn layout(&self) -> Layout {
        self.layout
    }

    pub closed spec fn is_closed(&self) -> bool {
        self.closed
    }

    /// A new index file for `item_count` entries of blocks of `block_size` bytes.
    pub fn new(item_count: usize, block_size: u64) -> (r: IndexBuilder)
        requires
            layout_fits(capacity_for(item_count as nat)),
        ensures
            r.wf(),
            !r.is_closed(),
            r.layout() == Layout::spec_from_capacity(capacity_for(item_count as nat)),
            r.image() == fresh_image(capacity_for(item_count as nat), block_size),
    {
        let layout = Layout::from_item_count(item_count);
        let mut mmap: Vec<u8> = Vec::new();
        let mut i: usize = 0;
        while i < layout.min_file_size
            invariant
                i <= layout.min_file_size,
                mmap@ =~= Seq::new(i as nat, |k: int| 0u8),
            decreases layout.min_file_size - i,
        {
            mmap.push(0);
            i = i + 1;
        }
        Layout::set_block_size(&mut mmap, block_size);
        layout.set_capacity(&mut mmap);
        IndexBuilder { mmap, layout, closed: false }
    }

    /// Stores `(hash, value)` in the first free slot of the probe walk of `hash`.
    pub fn add(&mut self, hash: &[u8], value: u64) -> (r: Result<(), IndexError>)
        requires
            old(self).wf(),
            !old(self).is_closed(),
            hash@.len() == DIGEST_LEN,
        ensures
            final(self).wf(),
            final(self).layout() == old(self).layout(),
            !final(self).is_closed(),
            match insert_spec(old(self).layout(), old(self).image(), hash@, value) {
                Some(img) => r is Ok && final(self).image() == img,
                None => r == Err::<(), IndexError>(IndexError::NoFreeSlot)
                    && final(self).image() == old(self).image(),
            },
    {
        if self.layout.capacity == 0 {
            return Err(IndexError::NoFreeSlot);
        }
        let mut indices = read_hash_indices(&self.layout, hash);
        let limit = self.layout.capacity + PROBE_SLACK;
        let mut step: usize = 0;
        while step < limit
            invariant
                limit == probe_limit(self.layout.capacity as nat),
                self.wf(),
                !self.closed,
                self.layout == old(self).layout,
                self.mmap@ == old(self).mmap@,
                hash@.len() == DIGEST_LEN,
                indices.wf(),
                indices.start() == prefix_of(hash@),
                indices.capacity() == self.layout.capacity,
                indices.step() == step,
                step <= limit,
                first_free(self.layout, self.mmap@, hash@, step as nat)
                    == first_free(self.layout, self.mmap@, hash@, 0),
            decreases limit - step,
        {
            let index = indices.next_index();
            if !self.layout.is_used(self.mmap.as_slice(), index) {
                proof { lemma_with_entry(self.layout, self.mmap@, index as nat, hash@, value); }
                self.layout.set_entry(&mut self.mmap, index, hash, value);
                return Ok(());
            }
            step = step + 1;
        }
        Err(IndexError::NoFreeSlot)
    }

    /// Writes the commit marker; the file is a valid index from here on.
    pub fn finish(&mut self)
        requires
            old(self).wf(),
            !old(self).is_closed(),
        ensures
            final(self).wf(),
            final(self).is_closed(),
            final(self).layout() == old(self).layout(),
            final(self).image() == committed(old(self).image()),
    {
        self.closed = true;
        Layout::set_preamble(&mut self.mmap);
    }

    /// The bytes of the file, to be stored.
    pub fn into_image(self) -> (r: Vec<u8>)
        ensures
            r@ == self.image(),
    {
        self.mmap
    }
}

} // verus!
