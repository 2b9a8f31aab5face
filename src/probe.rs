//! The probe sequence: the slots that insertion and lookup visit for a digest.
use vstd::prelude::*;
use vstd::bytes::*;

use crate::layout::Layout;

verus! {

/// The first sixteen bytes of a digest, read as a little-endian integer.
pub open spec fn prefix_of(d: Seq<u8>) -> u128 {
    spec_u128_from_le_bytes(d.subrange(0, 16))
}

/// One step of the probe sequence: multiplication by 31, wrapping.
pub open spec fn next_prefix(p: u128) -> u128 {
    ((p as nat * 31) % (u128::MAX as nat + 1)) as u128
}

/// The probe value at step `i` of the sequence that starts at `p0`.
pub open spec fn probe_prefix(p0: u128, i: nat) -> u128
    decreases i,
{
    if i == 0 {
        p0
    } else {
        next_prefix(probe_prefix(p0, (i - 1) as nat))
    }
}

/// The slot visited at step `i` of the sequence that starts at `p0`.
pub open spec fn probe_slot(p0: u128, cap: nat, i: nat) -> nat {
    probe_prefix(p0, i) as nat % cap
}

pub fn read_hash_prefix(hash: &[u8]) -> (r: u128)
    requires
        hash@.len() >= 16,
    ensures
        r == prefix_of(hash@),
{
    u128_from_le_bytes(&hash[0..16])
}

pub fn next_hash_prefix(previous: u128) -> (r: u128)
    ensures
        r == next_prefix(previous),
{
    previous.wrapping_mul(31)
}

/// A walk along the probe sequence of one digest over `capacity` slots.
pub struct HashIndices {
    prefix: u128,
    capacity: usize,
    start: Ghost<u128>,
    step: Ghost<nat>,
}

impl HashIndices {
    pub closed spec fn wf(&self) -> bool {
        &&& self.capacity > 0
        &&& self.prefix == probe_prefix(self.start@, self.step@)
    }

    /// The probe value the walk started from.
    pub closed spec fn start(&self) -> u128 {
        self.start@
    }

    /// How many slots the walk has handed out.
    pub closed spec fn step(&self) -> nat {
        self.step@
    }

    pub closed spec fn capacity(&self) -> nat {
        self.capacity as nat
    }

    /// The next slot of the walk.
    pub fn next_index(&mut self) -> (r: usize)
        requires
            old(self).wf(),
        ensures
            final(self).wf(),
            final(self).start() == old(self).start(),
            final(self).capacity() == old(self).capacity(),
            final(self).step() == old(self).step() + 1,
            r as nat == probe_slot(old(self).start(), old(self).capacity(), old(self).step()),
            r < old(self).capacity(),
    {
        let r = (self.prefix % (self.capacity as u128)) as usize;
        self.prefix = next_hash_prefix(self.prefix);
        self.step = Ghost(self.step@ + 1);
        r
    }
}

/// The probe walk of `hash` over the slots of `layout`, from its first step.
pub fn read_hash_indices(layout: &Layout, hash: &[u8]) -> (r: HashIndices)
    requires
        layout.capacity > 0,
        hash@.len() >= 16,
    ensures
        r.wf(),
        r.start() == prefix_of(hash@),
        r.capacity() == layout.capacity,
        r.step() == 0,
{
    let prefix = read_hash_prefix(hash);
    HashIndices { prefix, capacity: layout.capacity, start: Ghost(prefix), step: Ghost(0) }
}

} // verus!
