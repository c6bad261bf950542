use vstd::prelude::*;
use crate::utils::U32Pair;

verus! {

/// A length and an epoch, packed into one `u64`: the length in the low half, the epoch in the high half.
pub struct LenAndEpoch {
    pair: U32Pair,
}

impl LenAndEpoch {
    /// The packed value.
    pub closed spec fn packed(&self) -> u64 {
        self.pair.value()
    }

    /// The value that holds `v` packed.
    pub closed spec fn from_packed(v: u64) -> LenAndEpoch {
        LenAndEpoch { pair: U32Pair::from_value(v) }
    }

    pub open spec fn spec_len(&self) -> u32 {
        (self.packed() % 0x1_0000_0000) as u32
    }

    pub open spec fn spec_epoch(&self) -> u32 {
        (self.packed() / 0x1_0000_0000) as u32
    }

    pub proof fn lemma_from_packed(v: u64)
        ensures
            Self::from_packed(v).packed() == v,
    {
        U32Pair::lemma_from_value(v);
    }

    pub fn new(len: u32, epoch: u32) -> (r: Self)
        ensures
            r.spec_len() == len,
            r.spec_epoch() == epoch,
            r.packed() == epoch as int * 0x1_0000_0000 + len as int,
    {
        LenAndEpoch { pair: U32Pair::from_u32(len, epoch) }
    }

    pub fn len(&self) -> (r: u32)
        ensures
            r == self.spec_len(),
    {
        self.pair.first()
    }

    pub fn epoch(&self) -> (r: u32)
        ensures
            r == self.spec_epoch(),
    {
        self.pair.second()
    }
}

impl From<u64> for LenAndEpoch {
    fn from(value: u64) -> (r: LenAndEpoch) {
        LenAndEpoch { pair: U32Pair::from_u64(value) }
    }
}

impl vstd::std_specs::convert::FromSpecImpl<u64> for LenAndEpoch {
    open spec fn obeys_from_spec() -> bool {
        true
    }

    open spec fn from_spec(v: u64) -> LenAndEpoch {
        LenAndEpoch::from_packed(v)
    }
}

impl From<LenAndEpoch> for u64 {
    fn from(len_and_epoch: LenAndEpoch) -> (r: u64) {
        len_and_epoch.pair.as_u64()
    }
}

impl vstd::std_specs::convert::FromSpecImpl<LenAndEpoch> for u64 {
    open spec fn obeys_from_spec() -> bool {
        true
    }

    open spec fn from_spec(v: LenAndEpoch) -> u64 {
        v.packed()
    }
}

} // verus!
