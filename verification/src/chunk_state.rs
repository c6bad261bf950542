use vstd::prelude::*;
use std::sync::atomic::AtomicU64;
use std::sync::atomic::Ordering;
use crate::utils::{bit_of, bittest_u64, bitset_u64};
use crate::StartPositionEpoch;

verus! {

/// The largest epoch that fits in the packed state (31 bits).
pub open spec fn max_epoch() -> u32 {
    0x7FFF_FFFF
}

/// The `u64` that holds `len` in bits 0..32, `has_next` in bit 32 and `epoch` in bits 33..64.
pub open spec fn packed_of(len: u32, has_next: bool, epoch: u32) -> int {
    len as int + (if has_next { 0x1_0000_0000int } else { 0int }) + epoch as int * 0x2_0000_0000
}

/// The state of a chunk: how many items it holds, whether a chunk follows it, and the epoch of
/// the queue's start position.
#[derive(PartialEq, Debug, Clone)]
pub struct ChunkState {
    pub len: u32,
    pub epoch: StartPositionEpoch,
    pub has_next: bool,
}

/// A `ChunkState` packed into one `u64`.
#[derive(Copy, Clone, PartialEq, Debug)]
pub struct PackedChunkState(u64);

impl PackedChunkState {
    pub closed spec fn packed(&self) -> u64 {
        self.0
    }

    pub open spec fn spec_len(&self) -> u32 {
        (self.packed() % 0x1_0000_0000) as u32
    }

    pub open spec fn spec_has_next(&self) -> bool {
        bit_of(self.packed(), 32)
    }

    pub open spec fn spec_epoch(&self) -> u32 {
        (self.packed() / 0x2_0000_0000) as u32
    }

    /// The packed value is made of its three parts, and nothing else.
    pub proof fn lemma_parts(&self)
        ensures
            self.packed() == packed_of(self.spec_len(), self.spec_has_next(), self.spec_epoch()),
            self.spec_epoch() <= max_epoch(),
    {
        let v = self.0;
        assert(v == (v % 0x1_0000_0000) + (if bit_of(v, 32) { 0x1_0000_0000u64 } else { 0u64 })
            + (v / 0x2_0000_0000) * 0x2_0000_0000) by (bit_vector);
        assert(v / 0x2_0000_0000 <= 0x7FFF_FFFF) by (bit_vector);
    }

    /// Two packed states with the same parts are equal.
    pub proof fn lemma_parts_determine(a: Self, b: Self)
        requires
            a.spec_len() == b.spec_len(),
            a.spec_has_next() == b.spec_has_next(),
            a.spec_epoch() == b.spec_epoch(),
        ensures
            a == b,
    {
        a.lemma_parts();
        b.lemma_parts();
    }

    pub fn pack(chunk_state: ChunkState) -> (r: Self)
        requires
            chunk_state.epoch.wf(),
        ensures
            r.packed() == packed_of(chunk_state.len, chunk_state.has_next, chunk_state.epoch.value()),
            r.spec_len() == chunk_state.len,
            r.spec_has_next() == chunk_state.has_next,
            r.spec_epoch() == chunk_state.epoch.value(),
    {
        let len: u64 = chunk_state.len as u64;
        let h: u64 = if chunk_state.has_next { 1 } else { 0 };
        let e: u32 = chunk_state.epoch.into_inner();
        let e64: u64 = e as u64;
        proof { chunk_state.epoch.lemma_in_range(); }
        let v: u64 = len | (h << 32u64) | (e64 << 33u64);
        assert(v == len + h * 0x1_0000_0000 + e64 * 0x2_0000_0000
            && v % 0x1_0000_0000 == len
            && bit_of(v, 32) == (h == 1)
            && v / 0x2_0000_0000 == e64) by (bit_vector)
            requires
                len < 0x1_0000_0000,
                h <= 1,
                e64 <= 0x7FFF_FFFF,
                v == len | (h << 32u64) | (e64 << 33u64),
        ;
        PackedChunkState(v)
    }

    pub fn unpack(&self) -> (r: ChunkState)
        ensures
            r.epoch.wf(),
            r.len == self.spec_len(),
            r.has_next == self.spec_has_next(),
            r.epoch.value() == self.spec_epoch(),
    {
        let len = self.len();
        let has_next = self.has_next();
        let epoch = self.epoch();
        ChunkState { len, has_next, epoch }
    }

    pub fn len(&self) -> (r: u32)
        ensures
            r == self.spec_len(),
    {
        let v = self.0;
        let r: u32 = v as u32;
        assert(r == v % 0x1_0000_0000) by (bit_vector)
            requires
                r == v as u32,
        ;
        r
    }

    pub fn set_len(&mut self, new_len: u32)
        ensures
            final(self).spec_len() == new_len,
            final(self).spec_has_next() == old(self).spec_has_next(),
            final(self).spec_epoch() == old(self).spec_epoch(),
    {
        let v = self.0;
        let mask: u64 = 0xFFFF_FFFF;
        let l: u64 = new_len as u64;
        let r: u64 = (v & !mask) | l;
        assert(r % 0x1_0000_0000 == l && bit_of(r, 32) == bit_of(v, 32)
            && r / 0x2_0000_0000 == v / 0x2_0000_0000) by (bit_vector)
            requires
                mask == 0xFFFF_FFFFu64,
                l < 0x1_0000_0000,
                r == (v & !mask) | l,
        ;
        self.0 = r;
    }

    pub fn has_next(&self) -> (r: bool)
        ensures
            r == self.spec_has_next(),
    {
        bittest_u64::<32>(self.0)
    }

    pub fn set_has_next(&mut self, new_flag: bool)
        ensures
            final(self).spec_len() == old(self).spec_len(),
            final(self).spec_has_next() == new_flag,
            final(self).spec_epoch() == old(self).spec_epoch(),
    {
        let v = self.0;
        let r = bitset_u64::<32>(v, new_flag);
        assert(r % 0x1_0000_0000 == v % 0x1_0000_0000 && r / 0x2_0000_0000 == v / 0x2_0000_0000)
            by (bit_vector)
            requires
                r & !(1u64 << 32u64) == v & !(1u64 << 32u64),
        ;
        self.0 = r;
    }

    pub fn epoch(&self) -> (r: StartPositionEpoch)
        ensures
            r.wf(),
            r.value() == self.spec_epoch(),
    {
        let v = self.0;
        let e: u64 = v >> 33u64;
        assert(e == v / 0x2_0000_0000 && e <= 0x7FFF_FFFF) by (bit_vector)
            requires
                e == v >> 33u64,
        ;
        let e32: u32 = e as u32;
        StartPositionEpoch::new(e32)
    }

    pub fn set_epoch(&mut self, epoch: StartPositionEpoch)
        requires
            epoch.wf(),
        ensures
            final(self).spec_len() == old(self).spec_len(),
            final(self).spec_has_next() == old(self).spec_has_next(),
            final(self).spec_epoch() == epoch.value(),
    {
        proof { epoch.lemma_in_range(); }
        let v = self.0;
        let mask: u64 = 0x1_FFFF_FFFF;
        let e: u64 = epoch.into_inner() as u64;
        let r: u64 = (v & mask) | (e << 33u64);
        assert(r % 0x1_0000_0000 == v % 0x1_0000_0000 && bit_of(r, 32) == bit_of(v, 32)
            && r / 0x2_0000_0000 == e) by (bit_vector)
            requires
                mask == 0x1_FFFF_FFFFu64,
                e <= 0x7FFF_FFFF,
                r == (v & mask) | (e << 33u64),
        ;
        self.0 = r;
    }
}

impl From<PackedChunkState> for u64 {
    fn from(packed_chunk_state: PackedChunkState) -> (r: u64) {
        packed_chunk_state.0
    }
}

impl vstd::std_specs::convert::FromSpecImpl<PackedChunkState> for u64 {
    open spec fn obeys_from_spec() -> bool {
        true
    }

    open spec fn from_spec(v: PackedChunkState) -> u64 {
        v.packed()
    }
}

/// A `PackedChunkState` behind an atomic cell, for sharing between threads.
pub struct AtomicPackedChunkState(AtomicU64);

impl AtomicPackedChunkState {
    /// An atomic cell holding `packed_chunk_state`. The cell's content is std's `AtomicU64`, of
    /// which Verus knows no value, so no clause names what the cell holds.
    pub fn new(packed_chunk_state: PackedChunkState) -> (r: Self) {
        AtomicPackedChunkState(AtomicU64::new(packed_chunk_state.0))
    }

    /// The state the cell holds now. Any holder of a shared reference may have stored another
    /// state since, so the result is any packed state, and no clause ties it to an earlier store.
    pub fn load(&self, ordering: Ordering) -> (r: PackedChunkState) {
        PackedChunkState(self.0.load(ordering))
    }

    pub fn store(&self, packed_chunk_state: PackedChunkState, ordering: Ordering) {
        self.0.store(packed_chunk_state.0, ordering);
    }
}

} // verus!
