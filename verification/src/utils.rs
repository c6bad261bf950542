use vstd::prelude::*;

verus! {

/// Bit `i` of `v`, as a boolean.
pub open spec fn bit_of(v: u64, i: u64) -> bool {
    (v >> i) & 1u64 == 1u64
}

/// Two `u32` halves packed into one `u64`: `first` in the low half, `second` in the high half.
pub struct U32Pair(u64);

impl U32Pair {
    pub closed spec fn value(&self) -> u64 {
        self.0
    }

    /// The pair holding `v`.
    pub closed spec fn from_value(v: u64) -> U32Pair {
        U32Pair(v)
    }

    pub proof fn lemma_from_value(v: u64)
        ensures
            Self::from_value(v).value() == v,
    {
    }

    /// The low 32 bits.
    pub open spec fn spec_first(&self) -> u32 {
        (self.value() % 0x1_0000_0000) as u32
    }

    /// The high 32 bits.
    pub open spec fn spec_second(&self) -> u32 {
        (self.value() / 0x1_0000_0000) as u32
    }

    pub fn from_u32(first: u32, second: u32) -> (r: Self)
        ensures
            r.value() == second as int * 0x1_0000_0000 + first as int,
            r.spec_first() == first,
            r.spec_second() == second,
    {
        let v: u64 = (second as u64) << 32u64 | (first as u64);
        assert(v == second as int * 0x1_0000_0000 + first as int) by (bit_vector)
            requires
                v == (second as u64) << 32u64 | (first as u64),
        ;
        U32Pair(v)
    }

    pub fn from_u64(value: u64) -> (r: Self)
        ensures
            r == Self::from_value(value),
            r.value() == value,
    {
        U32Pair(value)
    }

    pub fn as_u64(&self) -> (r: u64)
        ensures
            r == self.value(),
    {
        self.0
    }

    pub fn first(&self) -> (r: u32)
        ensures
            r == self.spec_first(),
    {
        let v = self.0;
        let r: u32 = v as u32;
        assert(r == v % 0x1_0000_0000) by (bit_vector)
            requires
                r == v as u32,
        ;
        r
    }

    pub fn second(&self) -> (r: u32)
        ensures
            r == self.spec_second(),
    {
        let v = self.0;
        let r: u32 = (v >> 32u64) as u32;
        assert(r == v / 0x1_0000_0000) by (bit_vector)
            requires
                r == (v >> 32u64) as u32,
        ;
        r
    }
}

/// Tests bit `N` of `value`.
pub fn bittest_u64<const N: u8>(value: u64) -> (r: bool)
    requires
        N < 64,
    ensures
        r == bit_of(value, N as u64),
{
    let n: u64 = N as u64;
    let r = value & (1u64 << n) != 0;
    assert(r == bit_of(value, n)) by (bit_vector)
        requires
            n < 64,
            r == (value & (1u64 << n) != 0),
    ;
    r
}

/// Sets bit `N` of `value` to `bit`, leaving every other bit as it was.
pub fn bitset_u64<const N: u8>(value: u64, bit: bool) -> (r: u64)
    requires
        N < 64,
    ensures
        bit_of(r, N as u64) == bit,
        r & !(1u64 << N as u64) == value & !(1u64 << N as u64),
        forall|i: u64| i < 64 && i != N as u64 ==> #[trigger] bit_of(r, i) == bit_of(value, i),
{
    let n: u64 = N as u64;
    let mask: u64 = 1u64 << n;
    let b: u64 = if bit { 1 } else { 0 };
    let r: u64 = (value & !mask) | (b << n);
    assert(bit_of(r, n) == (b == 1)) by (bit_vector)
        requires
            n < 64,
            b <= 1,
            mask == 1u64 << n,
            r == (value & !mask) | (b << n),
    ;
    assert(r & !(1u64 << n) == value & !(1u64 << n)) by (bit_vector)
        requires
            n < 64,
            b <= 1,
            mask == 1u64 << n,
            r == (value & !mask) | (b << n),
    ;
    assert forall|i: u64| i < 64 && i != n implies #[trigger] bit_of(r, i) == bit_of(value, i) by {
        assert(bit_of(r, i) == bit_of(value, i)) by (bit_vector)
            requires
                n < 64,
                i < 64,
                i != n,
                b <= 1,
                mask == 1u64 << n,
                r == (value & !mask) | (b << n),
        ;
    }
    r
}


/// A counter that counts from zero up to `MAX` and then starts again from zero.
#[derive(Copy, Clone, PartialEq, Debug)]
pub struct Epoch<const MAX: u32>(u32);

impl<const MAX: u32> Epoch<MAX> {
    /// The counter never exceeds `MAX`.
    pub closed spec fn wf(self) -> bool {
        self.0 <= MAX
    }

    /// The counter's value.
    pub closed spec fn value(self) -> u32 {
        self.0
    }

    pub proof fn lemma_in_range(self)
        requires
            self.wf(),
        ensures
            self.value() <= MAX,
    {
    }

    pub fn zero() -> (r: Self)
        ensures
            r.wf(),
            r.value() == 0,
    {
        Epoch(0)
    }

    pub fn new(init: u32) -> (r: Self)
        requires
            init <= MAX,
        ensures
            r.wf(),
            r.value() == init,
    {
        Epoch(init)
    }

    /// The next value: one more, or zero after `MAX`.
    pub fn increment(&self) -> (r: Self)
        requires
            self.wf(),
        ensures
            r.wf(),
            r.value() == if self.value() == MAX { 0 } else { self.value() + 1 },
    {
        if self.0 == MAX {
            Self::zero()
        } else {
            Epoch(self.0 + 1)
        }
    }

    pub fn into_inner(self) -> (r: u32)
        ensures
            r == self.value(),
    {
        self.0
    }
}

} // verus!
