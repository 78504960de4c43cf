//! Physical address and frame types. Physical and virtual addresses are catastrophic to
//! confuse, so they get distinct types rather than a `u64` alias.

use vstd::prelude::*;

verus! {

/// Size of a physical frame: 4 KiB.
pub const FRAME_SIZE: usize = 4096;

/// A physical address.
#[derive(Debug, Clone, Copy, PartialEq, Eq, PartialOrd, Ord, Structural)]
pub struct PhysAddr(pub u64);

/// `a` rounded down to a multiple of 4096.
pub open spec fn floor_frame(a: u64) -> u64 {
    (a - a % 4096) as u64
}

/// `a` rounded up to a multiple of 4096, saturating at the highest frame boundary rather than
/// wrapping into low memory.
pub open spec fn ceil_frame(a: u64) -> u64 {
    if a <= u64::MAX - 4095 {
        floor_frame((a + 4095) as u64)
    } else {
        0xFFFF_FFFF_FFFF_F000
    }
}

impl PhysAddr {
    /// Rounds down to the frame containing this address.
    pub fn frame_floor(self) -> (r: PhysAddr)
        ensures
            r.0 == floor_frame(self.0),
    {
        let a = self.0;
        assert(a & !4095u64 == a - a % 4096) by (bit_vector);
        PhysAddr(self.0 & !4095u64)
    }

    /// Rounds up to the next frame boundary, saturating rather than wrapping at the top of the
    /// address space.
    pub fn frame_ceil(self) -> (r: PhysAddr)
        ensures
            r.0 == ceil_frame(self.0),
    {
        match self.0.checked_add(4095) {
            Some(v) => {
                assert(v & !4095u64 == v - v % 4096) by (bit_vector);
                PhysAddr(v & !4095u64)
            },
            None => PhysAddr(0xFFFF_FFFF_FFFF_F000),
        }
    }

    /// Whether the address is a multiple of 4096.
    pub fn is_frame_aligned(self) -> (b: bool)
        ensures
            b == (self.0 % 4096 == 0),
    {
        let a = self.0;
        assert((a & 4095u64 == 0) == (a % 4096 == 0)) by (bit_vector);
        self.0 & 4095u64 == 0
    }
}

/// A single physical frame, identified by its (frame-aligned) base address.
#[derive(Debug, Clone, Copy, PartialEq, Eq, PartialOrd, Ord, Structural)]
pub struct Frame(PhysAddr);

impl Frame {
    /// The frame's base address.
    pub closed spec fn base(self) -> u64 {
        self.0.0
    }

    /// The frame containing `addr`.
    pub fn containing(addr: PhysAddr) -> (f: Frame)
        ensures
            f.base() == floor_frame(addr.0),
    {
        Frame(addr.frame_floor())
    }

    /// The frame's base address.
    pub fn start(self) -> (a: PhysAddr)
        ensures
            a.0 == self.base(),
    {
        self.0
    }
}

/// Rounding is idempotent and brackets the address: the floor is at or below it, the ceiling
/// at or above it unless saturated, and both are frame-aligned.
pub proof fn rounding_brackets(a: u64)
    ensures
        floor_frame(a) <= a,
        floor_frame(a) % 4096 == 0,
        a - floor_frame(a) < 4096,
        ceil_frame(a) % 4096 == 0,
        a <= u64::MAX - 4095 ==> a <= ceil_frame(a) && ceil_frame(a) - a < 4096,
        ceil_frame(a) >= floor_frame(a),
        a % 4096 == 0 ==> floor_frame(a) == a && ceil_frame(a) == a,
{
}

} // verus!
