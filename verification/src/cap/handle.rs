//! `Handle`: the token userspace holds for a capability, packed as one `u64` — the slot index
//! in the low 32 bits and the slot's generation in the high 32 bits.

use vstd::prelude::*;

verus! {

/// An opaque capability reference.
#[derive(Debug, Clone, Copy, PartialEq, Eq, Structural)]
pub struct Handle(pub u64);

/// The packed value for a slot index and the generation it was issued with.
pub open spec fn pack(index: u32, generation: u32) -> u64 {
    ((generation as u64) << 32u64) | (index as u64)
}

impl Handle {
    /// All-ones, and never valid: no table can hold `u32::MAX` slots.
    #[allow(non_snake_case)]
    pub fn NULL() -> (h: Handle)
        ensures
            h.0 == 0xFFFF_FFFF_FFFF_FFFF,
            h.slot() == 0xFFFF_FFFF,
    {
        assert(0xFFFF_FFFF_FFFF_FFFFu64 & 0xFFFF_FFFF == 0xFFFF_FFFF) by (bit_vector);
        Handle(0xFFFF_FFFF_FFFF_FFFF)
    }

    /// The slot this handle names.
    pub open spec fn slot(self) -> u32 {
        (self.0 & 0xFFFF_FFFF) as u32
    }

    /// The occupant of that slot this handle was issued for.
    pub open spec fn gen(self) -> u32 {
        (self.0 >> 32u64) as u32
    }

    /// Packs a slot index and the generation it was issued with into one handle.
    pub fn new(index: u32, generation: u32) -> (h: Handle)
        ensures
            h.0 == pack(index, generation),
            h.slot() == index,
            h.gen() == generation,
    {
        let raw = ((generation as u64) << 32u64) | (index as u64);
        let g = generation as u64;
        let i = index as u64;
        assert((((g << 32u64) | i) & 0xFFFF_FFFF) == i && (((g << 32u64) | i) >> 32u64) == g)
            by (bit_vector)
            requires
                g < 0x1_0000_0000,
                i < 0x1_0000_0000,
        ;
        Handle(raw)
    }

    /// The low half: which slot this handle names.
    pub fn index(self) -> (i: u32)
        ensures
            i == self.slot(),
    {
        (self.0 & 0xFFFF_FFFF) as u32
    }

    /// The high half: which occupant of that slot this handle was issued for.
    pub fn generation(self) -> (g: u32)
        ensures
            g == self.gen(),
    {
        let v = self.0;
        assert(v >> 32u64 < 0x1_0000_0000) by (bit_vector);
        (self.0 >> 32u64) as u32
    }

    /// The packed representation, for carrying a handle across a syscall boundary.
    pub fn raw(self) -> (r: u64)
        ensures
            r == self.0,
    {
        self.0
    }

    /// Reconstructs a handle from a raw value. Validation is the capability space's job.
    pub fn from_raw(raw: u64) -> (h: Handle)
        ensures
            h.0 == raw,
    {
        Handle(raw)
    }
}

/// A handle's raw value is its generation and slot packed together.
pub proof fn lemma_pack_halves(h: Handle)
    ensures
        h.0 == pack(h.slot(), h.gen()),
{
    let x = h.0;
    assert(x == (((x >> 32u64) as u32 as u64) << 32u64) | ((x & 0xFFFF_FFFF) as u32 as u64))
        by (bit_vector);
}

/// A handle is exactly its slot and generation: two handles with the same halves are equal.
pub proof fn handle_is_its_halves(a: Handle, b: Handle)
    ensures
        (a.slot() == b.slot() && a.gen() == b.gen()) <==> a == b,
{
    let x = a.0;
    let y = b.0;
    assert(((x & 0xFFFF_FFFF) == (y & 0xFFFF_FFFF) && (x >> 32u64) == (y >> 32u64)) <==> x == y)
        by (bit_vector);
    assert(x & 0xFFFF_FFFF < 0x1_0000_0000 && y & 0xFFFF_FFFF < 0x1_0000_0000 && x >> 32u64
        < 0x1_0000_0000 && y >> 32u64 < 0x1_0000_0000) by (bit_vector);
}

} // verus!
